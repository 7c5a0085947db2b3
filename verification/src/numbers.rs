//! Arithmetic on the language's numbers.
//!
//! A number is a double-precision value carried as its bit pattern in a
//! `u64`.  Rounding arithmetic (addition, multiplication, division) and
//! parsing from text are done by the `rustc_apfloat` software
//! implementation behind trusted wrappers; their results are named by
//! uninterpreted spec functions, since the same bits always give the same
//! bits.  Negation, the zero and NaN tests and the comparisons are pure
//! bit-level logic and are implemented and verified here.

use vstd::prelude::*;

use rustc_apfloat::Float;

verus! {

/// Bit mask of the sign bit of a double.
pub const SIGN_MASK: u64 = 0x8000_0000_0000_0000;

/// Bit mask of the exponent field of a double.
pub const EXP_MASK: u64 = 0x7FF0_0000_0000_0000;

/// Bit mask of the significand field of a double.
pub const FRAC_MASK: u64 = 0x000F_FFFF_FFFF_FFFF;

/// The bit pattern of `0.0`.
pub const ZERO_BITS: u64 = 0;

/// The bit pattern of `1.0`.
pub const ONE_BITS: u64 = 0x3FF0_0000_0000_0000;

/// The bit pattern of positive infinity.
pub const INF_BITS: u64 = 0x7FF0_0000_0000_0000;

/// The bit pattern of the quiet NaN that parsing the word `nan` gives.
pub const QNAN_BITS: u64 = 0x7FF8_0000_0000_0000;

/// What rounding addition of two doubles returns, as bit patterns.
pub uninterp spec fn spec_add_bits(a: u64, b: u64) -> u64;

/// What rounding multiplication of two doubles returns, as bit patterns.
pub uninterp spec fn spec_mul_bits(a: u64, b: u64) -> u64;

/// What rounding division of two doubles returns, as bit patterns.
pub uninterp spec fn spec_div_bits(a: u64, b: u64) -> u64;

/// What parsing a piece of text as a double returns: the bit pattern of
/// the parsed number, or `None` for text that is not numeric.
pub uninterp spec fn spec_parse_number(s: Seq<char>) -> Option<u64>;

/// What the decimal printing of a double returns: text that depends on
/// the bit pattern alone.
pub uninterp spec fn spec_num_text(bits: u64) -> Seq<char>;

/// Relies on `rustc_apfloat`'s `Add for IeeeFloat` (round to nearest,
/// ties to even): the sum depends on the two bit patterns alone.
#[verifier::external_body]
pub fn add_bits(a: u64, b: u64) -> (r: u64)
    ensures
        r == spec_add_bits(a, b),
{
    let x = rustc_apfloat::ieee::Double::from_bits(a as u128);
    let y = rustc_apfloat::ieee::Double::from_bits(b as u128);
    (x + y).value.to_bits() as u64
}

/// Relies on `rustc_apfloat`'s `Mul for IeeeFloat` (round to nearest,
/// ties to even): the product depends on the two bit patterns alone.
#[verifier::external_body]
pub fn mul_bits(a: u64, b: u64) -> (r: u64)
    ensures
        r == spec_mul_bits(a, b),
{
    let x = rustc_apfloat::ieee::Double::from_bits(a as u128);
    let y = rustc_apfloat::ieee::Double::from_bits(b as u128);
    (x * y).value.to_bits() as u64
}

/// Relies on `rustc_apfloat`'s `Div for IeeeFloat` (round to nearest,
/// ties to even): the quotient depends on the two bit patterns alone.
#[verifier::external_body]
pub fn div_bits(a: u64, b: u64) -> (r: u64)
    ensures
        r == spec_div_bits(a, b),
{
    let x = rustc_apfloat::ieee::Double::from_bits(a as u128);
    let y = rustc_apfloat::ieee::Double::from_bits(b as u128);
    (x / y).value.to_bits() as u64
}

/// Relies on `rustc_apfloat`'s `FromStr for IeeeFloat`, which returns a
/// number for numeric text and an error otherwise, and never panics; the
/// outcome depends on the text alone.
#[verifier::external_body]
pub fn parse_number(s: &str) -> (r: Option<u64>)
    ensures
        r == spec_parse_number(s@),
{
    match s.parse::<rustc_apfloat::ieee::Double>() {
        Ok(d) => Some(d.to_bits() as u64),
        Err(_) => None,
    }
}

/// Relies on rustc_apfloat's `Display for IeeeFloat`: the decimal text
/// depends on the bit pattern alone.
#[verifier::external_body]
pub fn num_text(bits: u64) -> (r: String)
    ensures
        r@ == spec_num_text(bits),
{
    rustc_apfloat::ieee::Double::from_bits(bits as u128).to_string()
}

/// Whether the bit pattern is one of the two IEEE zeros.
pub open spec fn spec_is_zero_bits(a: u64) -> bool {
    a == ZERO_BITS || a == SIGN_MASK
}

/// Whether the bit pattern is a NaN: exponent all ones, significand
/// non-zero.
pub open spec fn spec_is_nan_bits(a: u64) -> bool {
    a & EXP_MASK == EXP_MASK && a & FRAC_MASK != 0
}

/// IEEE negation flips the sign bit and nothing else.
pub open spec fn spec_neg_bits(a: u64) -> u64 {
    a ^ SIGN_MASK
}

/// A key that orders non-NaN doubles like the reals: non-negative
/// patterns are lifted above all negative ones, negative patterns are
/// reversed.
pub open spec fn spec_order_key(a: u64) -> u64 {
    if a & SIGN_MASK == 0 {
        a | SIGN_MASK
    } else {
        !a
    }
}

/// IEEE equality of two doubles: false if either is NaN, true for the
/// two zeros, otherwise equality of the bit patterns.
pub open spec fn spec_eq_bits(a: u64, b: u64) -> bool {
    !spec_is_nan_bits(a) && !spec_is_nan_bits(b) && (a == b || (spec_is_zero_bits(a)
        && spec_is_zero_bits(b)))
}

/// IEEE strict greater-than of two doubles: false if either is NaN or
/// both are zeros, otherwise comparison of the order keys.
pub open spec fn spec_gt_bits(a: u64, b: u64) -> bool {
    &&& !spec_is_nan_bits(a)
    &&& !spec_is_nan_bits(b)
    &&& !(spec_is_zero_bits(a) && spec_is_zero_bits(b))
    &&& spec_order_key(a) > spec_order_key(b)
}

pub fn is_zero_bits(a: u64) -> (r: bool)
    ensures
        r == spec_is_zero_bits(a),
{
    a == ZERO_BITS || a == SIGN_MASK
}

pub fn is_nan_bits(a: u64) -> (r: bool)
    ensures
        r == spec_is_nan_bits(a),
{
    a & EXP_MASK == EXP_MASK && a & FRAC_MASK != 0
}

pub fn neg_bits(a: u64) -> (r: u64)
    ensures
        r == spec_neg_bits(a),
{
    a ^ SIGN_MASK
}

pub fn eq_bits(a: u64, b: u64) -> (r: bool)
    ensures
        r == spec_eq_bits(a, b),
{
    !is_nan_bits(a) && !is_nan_bits(b) && (a == b || (is_zero_bits(a) && is_zero_bits(b)))
}

pub fn gt_bits(a: u64, b: u64) -> (r: bool)
    ensures
        r == spec_gt_bits(a, b),
{
    let ka = if a & SIGN_MASK == 0 {
        a | SIGN_MASK
    } else {
        !a
    };
    let kb = if b & SIGN_MASK == 0 {
        b | SIGN_MASK
    } else {
        !b
    };
    !is_nan_bits(a) && !is_nan_bits(b) && !(is_zero_bits(a) && is_zero_bits(b)) && ka > kb
}

} // verus!
