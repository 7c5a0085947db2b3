//! The built-in functions.  There are deliberately just enough of them to
//! let every other desirable function or macro be defined in the language
//! itself.
//!
//! `spec_apply_primitive` states exactly what each built-in returns for
//! every argument sequence; each executable primitive is verified
//! against it.

use vstd::prelude::*;

use crate::datatypes::{
    clone_expr, lemma_expr_list, view_expr, views_of_exprs, LinslErr, LinslExpr, LinslRes, PrimOp,
    SpecErr, SpecExpr,
};
use crate::numbers::{
    add_bits, div_bits, eq_bits, gt_bits, is_zero_bits, mul_bits, neg_bits, spec_add_bits,
    spec_div_bits, spec_eq_bits, spec_gt_bits, spec_is_zero_bits, spec_mul_bits, spec_neg_bits,
    ONE_BITS, ZERO_BITS,
};

verus! {

/// The numbers held by a sequence of expressions, or `None` if one of
/// them is not a number.
pub open spec fn spec_nums_of(es: Seq<SpecExpr>) -> Option<Seq<u64>>
    decreases es.len(),
{
    if es.len() == 0 {
        Some(Seq::empty())
    } else {
        match es[0] {
            SpecExpr::Number(n) => match spec_nums_of(es.skip(1)) {
                Some(ns) => Some(seq![n] + ns),
                None => None,
            },
            _ => None,
        }
    }
}

/// The left fold of rounding addition over a list of numbers, starting
/// from zero.
pub open spec fn spec_sum(ns: Seq<u64>) -> u64
    decreases ns.len(),
{
    if ns.len() == 0 {
        ZERO_BITS
    } else {
        spec_add_bits(spec_sum(ns.drop_last()), ns.last())
    }
}

/// The left fold of rounding multiplication over a list of numbers,
/// starting from one.
pub open spec fn spec_product(ns: Seq<u64>) -> u64
    decreases ns.len(),
{
    if ns.len() == 0 {
        ONE_BITS
    } else {
        spec_mul_bits(spec_product(ns.drop_last()), ns.last())
    }
}

/// The concatenation of the elements of a sequence of lists, or `None`
/// if one of them is not a list.
pub open spec fn spec_concat_lists(es: Seq<SpecExpr>) -> Option<Seq<SpecExpr>>
    decreases es.len(),
{
    if es.len() == 0 {
        Some(Seq::empty())
    } else {
        match es[0] {
            SpecExpr::List(xs) => match spec_concat_lists(es.skip(1)) {
                Some(rest) => Some(xs + rest),
                None => None,
            },
            _ => None,
        }
    }
}

/// Whether two expressions are of the same variant, whatever they hold.
pub open spec fn spec_same_variant(a: SpecExpr, b: SpecExpr) -> bool {
    match (a, b) {
        (SpecExpr::Bool(_), SpecExpr::Bool(_)) => true,
        (SpecExpr::Closure(_, _), SpecExpr::Closure(_, _)) => true,
        (SpecExpr::List(_), SpecExpr::List(_)) => true,
        (SpecExpr::Number(_), SpecExpr::Number(_)) => true,
        (SpecExpr::Macro(_, _), SpecExpr::Macro(_, _)) => true,
        (SpecExpr::Primitive(_), SpecExpr::Primitive(_)) => true,
        (SpecExpr::Symbol(_), SpecExpr::Symbol(_)) => true,
        _ => false,
    }
}

/// What each built-in returns: a value, or the error its arguments
/// provoke.
pub open spec fn spec_apply_primitive(op: PrimOp, args: Seq<SpecExpr>) -> Result<
    SpecExpr,
    SpecErr,
> {
    match op {
        PrimOp::Add => match spec_nums_of(args) {
            Some(ns) => Ok(SpecExpr::Number(spec_sum(ns))),
            None => Err(SpecErr::SyntaxError("Expected numbers."@, (0usize, 0usize))),
        },
        PrimOp::Mul => match spec_nums_of(args) {
            Some(ns) => Ok(SpecExpr::Number(spec_product(ns))),
            None => Err(SpecErr::SyntaxError("Expected numbers."@, (0usize, 0usize))),
        },
        PrimOp::Neg => if args.len() == 0 {
            Ok(SpecExpr::Number(spec_neg_bits(ZERO_BITS)))
        } else {
            match args[0] {
                SpecExpr::Number(n) => Ok(SpecExpr::Number(spec_neg_bits(n))),
                _ => Err(SpecErr::SyntaxError("Expected numbers."@, (0usize, 0usize))),
            }
        },
        PrimOp::Inv => if args.len() == 0 {
            Err(SpecErr::SyntaxError("No number to invert!"@, (0usize, 0usize)))
        } else {
            match args[0] {
                SpecExpr::Number(n) => if spec_is_zero_bits(n) {
                    Err(SpecErr::SyntaxError("Cannot invert 0"@, (0usize, 0usize)))
                } else {
                    Ok(SpecExpr::Number(spec_div_bits(ONE_BITS, n)))
                },
                _ => Err(SpecErr::SyntaxError("Expected numbers."@, (0usize, 0usize))),
            }
        },
        PrimOp::Eq => if args.len() != 2 {
            Err(SpecErr::SyntaxError("Expected 2 arguments to compare."@, (0usize, 0usize)))
        } else {
            match (args[0], args[1]) {
                (SpecExpr::Bool(b1), SpecExpr::Bool(b2)) => Ok(SpecExpr::Bool(b1 == b2)),
                (SpecExpr::Number(n1), SpecExpr::Number(n2)) => Ok(
                    SpecExpr::Bool(spec_eq_bits(n1, n2)),
                ),
                (SpecExpr::Symbol(s1), SpecExpr::Symbol(s2)) => Ok(SpecExpr::Bool(s1 == s2)),
                _ => Err(
                    SpecErr::SyntaxError(
                        "Can only compare expressions the same types, and only bools, numbers and symbols."@,
                        (0usize, 0usize),
                    ),
                ),
            }
        },
        PrimOp::Gr => if args.len() != 2 {
            Err(SpecErr::SyntaxError("Expected two numbers to compare."@, (0usize, 0usize)))
        } else {
            match (args[0], args[1]) {
                (SpecExpr::Number(n1), SpecExpr::Number(n2)) => Ok(
                    SpecExpr::Bool(spec_gt_bits(n1, n2)),
                ),
                _ => Err(
                    SpecErr::SyntaxError("Can only compare numbers with >"@, (0usize, 0usize)),
                ),
            }
        },
        PrimOp::Car => if args.len() != 1 {
            Err(SpecErr::SyntaxError("Expected 1 argument."@, (0usize, 0usize)))
        } else {
            match args[0] {
                SpecExpr::List(xs) => if xs.len() == 0 {
                    Ok(SpecExpr::List(Seq::empty()))
                } else {
                    Ok(xs[0])
                },
                _ => Err(
                    SpecErr::SyntaxError("Can only find car of lists"@, (0usize, 0usize)),
                ),
            }
        },
        PrimOp::Cdr => if args.len() != 1 {
            Err(SpecErr::SyntaxError("Expected 1 argument."@, (0usize, 0usize)))
        } else {
            match args[0] {
                SpecExpr::List(xs) => if xs.len() == 0 {
                    Ok(SpecExpr::List(Seq::empty()))
                } else {
                    Ok(SpecExpr::List(xs.skip(1)))
                },
                _ => Err(
                    SpecErr::SyntaxError("Can only find cdr of lists."@, (0usize, 0usize)),
                ),
            }
        },
        PrimOp::List => Ok(SpecExpr::List(args)),
        PrimOp::Append => if args.len() == 0 {
            Err(
                SpecErr::SyntaxError(
                    "append needs at least one argument, none were supplied"@,
                    (0usize, 0usize),
                ),
            )
        } else {
            match spec_concat_lists(args) {
                Some(xs) => Ok(SpecExpr::List(xs)),
                None => Err(
                    SpecErr::SyntaxError(
                        "append must be supplied with list(s)"@,
                        (0usize, 0usize),
                    ),
                ),
            }
        },
        PrimOp::IsNil => if args.len() != 1 {
            Err(SpecErr::SyntaxError("Expected 1 argument."@, (0usize, 0usize)))
        } else {
            match args[0] {
                SpecExpr::List(xs) => Ok(SpecExpr::Bool(xs.len() == 0)),
                _ => Ok(SpecExpr::Bool(false)),
            }
        },
        PrimOp::EqTypes => if args.len() != 2 {
            Err(SpecErr::SyntaxError("Expected 2 arguments."@, (0usize, 0usize)))
        } else {
            Ok(SpecExpr::Bool(spec_same_variant(args[0], args[1])))
        },
    }
}

/// How an executable primitive's result realizes a spec outcome.
pub open spec fn prim_outcome_matches(r: LinslRes, sr: Result<SpecExpr, SpecErr>) -> bool {
    match (r, sr) {
        (Ok(e), Ok(se)) => view_expr(e) == se,
        (Err(e), Err(se)) => e@ == se,
        _ => false,
    }
}

/// The number a single expression holds, or an error if it is not a
/// number.
pub fn parse_num(expr: &LinslExpr) -> (r: Result<u64, LinslErr>)
    ensures
        match r {
            Ok(n) => view_expr(*expr) == SpecExpr::Number(n),
            Err(e) => !(view_expr(*expr) is Number) && e@ == SpecErr::SyntaxError(
                "Expected numbers."@,
                (0usize, 0usize),
            ),
        },
{
    match expr {
        LinslExpr::Number(n) => Ok(*n),
        _ => Err(LinslErr::SyntaxError("Expected numbers.".to_owned(), (0, 0))),
    }
}

/// The numbers a sequence of expressions holds, or an error if one of
/// them is not a number.
pub fn parse_list_of_nums(nums: &[LinslExpr]) -> (r: Result<Vec<u64>, LinslErr>)
    ensures
        match r {
            Ok(ns) => spec_nums_of(views_of_exprs(nums@)) == Some(ns@),
            Err(e) => spec_nums_of(views_of_exprs(nums@)) is None && e@ == SpecErr::SyntaxError(
                "Expected numbers."@,
                (0usize, 0usize),
            ),
        },
{
    let mut out: Vec<u64> = Vec::new();
    let n = nums.len();
    let mut i: usize = 0;
    while i < n
        invariant
            n == nums@.len(),
            i <= n,
            out@.len() == i,
            forall|j: int|
                0 <= j < i ==> view_expr(#[trigger] nums@[j]) == SpecExpr::Number(out@[j]),
        decreases n - i,
    {
        match parse_num(&nums[i]) {
            Ok(v) => {
                out.push(v);
            },
            Err(e) => {
                proof {
                    lemma_nums_of_prefix_fail(views_of_exprs(nums@), i as int);
                }
                return Err(e);
            },
        }
        i = i + 1;
    }
    proof {
        lemma_nums_of_all(views_of_exprs(nums@), out@);
    }
    Ok(out)
}

/// If every expression before `i` is a number and the one at `i` is
/// not, no number list exists.
proof fn lemma_nums_of_prefix_fail(es: Seq<SpecExpr>, i: int)
    requires
        0 <= i < es.len(),
        !(es[i] is Number),
    ensures
        spec_nums_of(es) is None,
    decreases i,
{
    if i > 0 {
        if es[0] is Number {
            lemma_nums_of_prefix_fail(es.skip(1), i - 1);
        }
    }
}

/// A sequence made of the numbers `ns` has exactly those numbers.
proof fn lemma_nums_of_all(es: Seq<SpecExpr>, ns: Seq<u64>)
    requires
        es.len() == ns.len(),
        forall|j: int| 0 <= j < es.len() ==> #[trigger] es[j] == SpecExpr::Number(ns[j]),
    ensures
        spec_nums_of(es) == Some(ns),
    decreases es.len(),
{
    if es.len() > 0 {
        lemma_nums_of_all(es.skip(1), ns.skip(1));
        assert(seq![ns[0]] + ns.skip(1) =~= ns);
    } else {
        assert(ns =~= Seq::<u64>::empty());
    }
}

/// Compute the sum of a list of (numeric) arguments.
pub fn add(exprs: &[LinslExpr]) -> (r: LinslRes)
    ensures
        prim_outcome_matches(r, spec_apply_primitive(PrimOp::Add, views_of_exprs(exprs@))),
{
    let ns = match parse_list_of_nums(exprs) {
        Ok(ns) => ns,
        Err(e) => {
            return Err(e);
        },
    };
    let mut acc: u64 = ZERO_BITS;
    let mut i: usize = 0;
    while i < ns.len()
        invariant
            i <= ns@.len(),
            acc == spec_sum(ns@.take(i as int)),
        decreases ns@.len() - i,
    {
        proof {
            assert(ns@.take(i + 1).drop_last() =~= ns@.take(i as int));
        }
        acc = add_bits(acc, ns[i]);
        i = i + 1;
    }
    proof {
        assert(ns@.take(ns@.len() as int) =~= ns@);
    }
    Ok(LinslExpr::Number(acc))
}

/// Compute the product of a list of (numeric) arguments.
pub fn mul(exprs: &[LinslExpr]) -> (r: LinslRes)
    ensures
        prim_outcome_matches(r, spec_apply_primitive(PrimOp::Mul, views_of_exprs(exprs@))),
{
    let ns = match parse_list_of_nums(exprs) {
        Ok(ns) => ns,
        Err(e) => {
            return Err(e);
        },
    };
    let mut acc: u64 = ONE_BITS;
    let mut i: usize = 0;
    while i < ns.len()
        invariant
            i <= ns@.len(),
            acc == spec_product(ns@.take(i as int)),
        decreases ns@.len() - i,
    {
        proof {
            assert(ns@.take(i + 1).drop_last() =~= ns@.take(i as int));
        }
        acc = mul_bits(acc, ns[i]);
        i = i + 1;
    }
    proof {
        assert(ns@.take(ns@.len() as int) =~= ns@);
    }
    Ok(LinslExpr::Number(acc))
}

/// Negate a single element; with no argument, negate zero.
pub fn neg(expr: &[LinslExpr]) -> (r: LinslRes)
    ensures
        prim_outcome_matches(r, spec_apply_primitive(PrimOp::Neg, views_of_exprs(expr@))),
{
    if expr.len() == 0 {
        Ok(LinslExpr::Number(neg_bits(ZERO_BITS)))
    } else {
        match parse_num(&expr[0]) {
            Ok(n) => Ok(LinslExpr::Number(neg_bits(n))),
            Err(e) => Err(e),
        }
    }
}

/// Compute the multiplicative inverse of a (numeric) argument.
pub fn inv(expr: &[LinslExpr]) -> (r: LinslRes)
    ensures
        prim_outcome_matches(r, spec_apply_primitive(PrimOp::Inv, views_of_exprs(expr@))),
{
    if expr.len() == 0 {
        return Err(LinslErr::SyntaxError("No number to invert!".to_owned(), (0, 0)));
    }
    let n = match parse_num(&expr[0]) {
        Ok(n) => n,
        Err(e) => {
            return Err(e);
        },
    };
    if is_zero_bits(n) {
        return Err(LinslErr::SyntaxError("Cannot invert 0".to_owned(), (0, 0)));
    }
    Ok(LinslExpr::Number(div_bits(ONE_BITS, n)))
}

/// Compare two numbers, symbols or booleans for equality.
pub fn eq(exprs: &[LinslExpr]) -> (r: LinslRes)
    ensures
        prim_outcome_matches(r, spec_apply_primitive(PrimOp::Eq, views_of_exprs(exprs@))),
{
    if exprs.len() != 2 {
        return Err(
            LinslErr::SyntaxError("Expected 2 arguments to compare.".to_owned(), (0, 0)),
        );
    }
    match (&exprs[0], &exprs[1]) {
        (LinslExpr::Bool(b1), LinslExpr::Bool(b2)) => Ok(LinslExpr::Bool(*b1 == *b2)),
        (LinslExpr::Number(n1), LinslExpr::Number(n2)) => Ok(LinslExpr::Bool(eq_bits(*n1, *n2))),
        (LinslExpr::Symbol(s1), LinslExpr::Symbol(s2)) => Ok(
            LinslExpr::Bool(crate::parsing::str_eq(s1.as_str(), s2.as_str())),
        ),
        _ => Err(
            LinslErr::SyntaxError(
                "Can only compare expressions the same types, and only bools, numbers and symbols.".to_owned(),
                (0, 0),
            ),
        ),
    }
}

/// Compare two numbers to see if the first is greater than the second.
pub fn gr(exprs: &[LinslExpr]) -> (r: LinslRes)
    ensures
        prim_outcome_matches(r, spec_apply_primitive(PrimOp::Gr, views_of_exprs(exprs@))),
{
    if exprs.len() != 2 {
        return Err(
            LinslErr::SyntaxError("Expected two numbers to compare.".to_owned(), (0, 0)),
        );
    }
    match (&exprs[0], &exprs[1]) {
        (LinslExpr::Number(n1), LinslExpr::Number(n2)) => Ok(LinslExpr::Bool(gt_bits(*n1, *n2))),
        _ => Err(
            LinslErr::SyntaxError("Can only compare numbers with >".to_owned(), (0, 0)),
        ),
    }
}

/// Return the first element of a list; the first element of an empty
/// list is the empty list.
pub fn car(expr: &[LinslExpr]) -> (r: LinslRes)
    ensures
        prim_outcome_matches(r, spec_apply_primitive(PrimOp::Car, views_of_exprs(expr@))),
{
    if expr.len() != 1 {
        return Err(LinslErr::SyntaxError("Expected 1 argument.".to_owned(), (0, 0)));
    }
    match &expr[0] {
        LinslExpr::List(xs) => {
            proof {
                lemma_expr_list(*xs);
            }
            if xs.len() == 0 {
                let empty: Vec<LinslExpr> = Vec::new();
                proof {
                    lemma_expr_list(empty);
                    assert(views_of_exprs(empty@) =~= Seq::<SpecExpr>::empty());
                }
                Ok(LinslExpr::List(empty))
            } else {
                Ok(clone_expr(&xs[0]))
            }
        },
        _ => Err(LinslErr::SyntaxError("Can only find car of lists".to_owned(), (0, 0))),
    }
}

/// Return the tail of a list; the tail of an empty list is the empty
/// list.
pub fn cdr(expr: &[LinslExpr]) -> (r: LinslRes)
    ensures
        prim_outcome_matches(r, spec_apply_primitive(PrimOp::Cdr, views_of_exprs(expr@))),
{
    if expr.len() != 1 {
        return Err(LinslErr::SyntaxError("Expected 1 argument.".to_owned(), (0, 0)));
    }
    match &expr[0] {
        LinslExpr::List(xs) => {
            proof {
                lemma_expr_list(*xs);
            }
            let mut out: Vec<LinslExpr> = Vec::new();
            let mut i: usize = 1;
            if xs.len() == 0 {
                proof {
                    lemma_expr_list(out);
                    assert(views_of_exprs(out@) =~= Seq::<SpecExpr>::empty());
                }
                return Ok(LinslExpr::List(out));
            }
            while i < xs.len()
                invariant
                    1 <= i <= xs@.len(),
                    out@.len() == i - 1,
                    forall|j: int|
                        0 <= j < i - 1 ==> view_expr(#[trigger] out@[j]) == view_expr(
                            xs@[j + 1],
                        ),
                decreases xs@.len() - i,
            {
                out.push(clone_expr(&xs[i]));
                i = i + 1;
            }
            proof {
                lemma_expr_list(out);
                assert(views_of_exprs(out@) =~= views_of_exprs(xs@).skip(1));
            }
            Ok(LinslExpr::List(out))
        },
        _ => Err(LinslErr::SyntaxError("Can only find cdr of lists.".to_owned(), (0, 0))),
    }
}

/// Take any number of elements and return a list of them.
pub fn list(exprs: &[LinslExpr]) -> (r: LinslRes)
    ensures
        prim_outcome_matches(r, spec_apply_primitive(PrimOp::List, views_of_exprs(exprs@))),
{
    let mut out: Vec<LinslExpr> = Vec::new();
    let mut i: usize = 0;
    while i < exprs.len()
        invariant
            i <= exprs@.len(),
            out@.len() == i,
            forall|j: int|
                0 <= j < i ==> view_expr(#[trigger] out@[j]) == view_expr(exprs@[j]),
        decreases exprs@.len() - i,
    {
        out.push(clone_expr(&exprs[i]));
        i = i + 1;
    }
    proof {
        lemma_expr_list(out);
        assert(views_of_exprs(out@) =~= views_of_exprs(exprs@));
    }
    Ok(LinslExpr::List(out))
}

/// Combine the supplied lists into one, in order.  A single list is
/// returned as it is; any non-list argument is an error.
pub fn append(exprs: &[LinslExpr]) -> (r: LinslRes)
    ensures
        prim_outcome_matches(r, spec_apply_primitive(PrimOp::Append, views_of_exprs(exprs@))),
{
    if exprs.len() == 0 {
        return Err(
            LinslErr::SyntaxError(
                "append needs at least one argument, none were supplied".to_owned(),
                (0, 0),
            ),
        );
    }
    let mut out: Vec<LinslExpr> = Vec::new();
    let mut pos: usize = 0;
    while pos < exprs.len()
        invariant
            pos <= exprs@.len(),
            forall|j: int| 0 <= j < pos ==> views_of_exprs(exprs@)[j] is List,
            spec_concat_lists(views_of_exprs(exprs@).take(pos as int)) == Some(
                views_of_exprs(out@),
            ),
        decreases exprs@.len() - pos,
    {
        match &exprs[pos] {
            LinslExpr::List(xs) => {
                let ghost out0 = out@;
                let mut k: usize = 0;
                while k < xs.len()
                    invariant
                        k <= xs@.len(),
                        out@.len() == out0.len() + k,
                        out@.take(out0.len() as int) == out0,
                        forall|j: int|
                            out0.len() <= j < out@.len() ==> view_expr(#[trigger] out@[j])
                                == view_expr(xs@[j - out0.len()]),
                    decreases xs@.len() - k,
                {
                    let ghost before = out@;
                    out.push(clone_expr(&xs[k]));
                    proof {
                        assert(out@.take(out0.len() as int) =~= before.take(out0.len() as int));
                    }
                    k = k + 1;
                }
                proof {
                    lemma_expr_list(*xs);
                    lemma_concat_lists_step(views_of_exprs(exprs@), pos as int, out0, *xs, out@);
                }
            },
            _ => {
                proof {
                    lemma_concat_lists_fail(views_of_exprs(exprs@), pos as int);
                }
                return Err(
                    LinslErr::SyntaxError(
                        "append must be supplied with list(s)".to_owned(),
                        (0, 0),
                    ),
                );
            },
        }
        pos = pos + 1;
    }
    proof {
        assert(views_of_exprs(exprs@).take(exprs@.len() as int) =~= views_of_exprs(exprs@));
        lemma_expr_list(out);
    }
    Ok(LinslExpr::List(out))
}

/// Extending a prefix concatenation by one more list keeps it a
/// concatenation.
proof fn lemma_concat_lists_step(
    es: Seq<SpecExpr>,
    pos: int,
    out0: Seq<LinslExpr>,
    xs: Vec<LinslExpr>,
    out: Seq<LinslExpr>,
)
    requires
        0 <= pos < es.len(),
        es[pos] == SpecExpr::List(views_of_exprs(xs@)),
        spec_concat_lists(es.take(pos)) == Some(views_of_exprs(out0)),
        out.len() == out0.len() + xs@.len(),
        out.take(out0.len() as int) == out0,
        forall|j: int|
            out0.len() <= j < out.len() ==> view_expr(#[trigger] out[j]) == view_expr(
                xs@[j - out0.len()],
            ),
    ensures
        spec_concat_lists(es.take(pos + 1)) == Some(views_of_exprs(out)),
{
    lemma_concat_lists_append(es, pos);
    assert(views_of_exprs(out) =~= views_of_exprs(out0) + views_of_exprs(xs@));
}

/// A concatenation over one more element splits into the prefix
/// concatenation and that element's contents.
proof fn lemma_concat_lists_append(es: Seq<SpecExpr>, pos: int)
    requires
        0 <= pos < es.len(),
        es[pos] is List,
        spec_concat_lists(es.take(pos)) is Some,
    ensures
        spec_concat_lists(es.take(pos + 1)) == Some(
            spec_concat_lists(es.take(pos))->Some_0 + es[pos]->List_0,
        ),
    decreases pos,
{
    if pos == 0 {
        assert(es.take(1).skip(1) =~= Seq::<SpecExpr>::empty());
        assert(es.take(0) =~= Seq::<SpecExpr>::empty());
        assert(es.take(1)[0] == es[0]);
        assert(spec_concat_lists(es.take(1)) == Some(es[0]->List_0 + Seq::<SpecExpr>::empty()));
        assert(es[0]->List_0 + Seq::<SpecExpr>::empty() =~= Seq::<SpecExpr>::empty()
            + es[0]->List_0);
    } else {
        assert(es.take(pos)[0] == es[0]);
        assert(es.take(pos + 1)[0] == es[0]);
        let e0 = es[0];
        if e0 is List {
            assert(es.take(pos).skip(1) =~= es.skip(1).take(pos - 1));
            assert(es.take(pos + 1).skip(1) =~= es.skip(1).take(pos));
            lemma_concat_lists_append(es.skip(1), pos - 1);
            assert(es.skip(1)[pos - 1] == es[pos]);
            let head = e0->List_0;
            let prefix = spec_concat_lists(es.skip(1).take(pos - 1))->Some_0;
            assert(spec_concat_lists(es.take(pos)) == Some(head + prefix));
            assert(spec_concat_lists(es.skip(1).take(pos)) == Some(prefix + es[pos]->List_0));
            assert(spec_concat_lists(es.take(pos + 1)) == Some(
                head + (prefix + es[pos]->List_0),
            ));
            assert(head + (prefix + es[pos]->List_0) =~= (head + prefix) + es[pos]->List_0);
        }
    }
}

/// A non-list at `pos`, after lists, makes the whole concatenation fail.
proof fn lemma_concat_lists_fail(es: Seq<SpecExpr>, pos: int)
    requires
        0 <= pos < es.len(),
        !(es[pos] is List),
    ensures
        spec_concat_lists(es) is None,
    decreases pos,
{
    if pos > 0 {
        if es[0] is List {
            lemma_concat_lists_fail(es.skip(1), pos - 1);
        }
    }
}

/// True iff the argument is an empty list; a non-list is simply not an
/// empty list.
pub fn is_nil(expr: &[LinslExpr]) -> (r: LinslRes)
    ensures
        prim_outcome_matches(r, spec_apply_primitive(PrimOp::IsNil, views_of_exprs(expr@))),
{
    if expr.len() != 1 {
        return Err(LinslErr::SyntaxError("Expected 1 argument.".to_owned(), (0, 0)));
    }
    match &expr[0] {
        LinslExpr::List(xs) => {
            proof {
                lemma_expr_list(*xs);
            }
            Ok(LinslExpr::Bool(xs.len() == 0))
        },
        _ => Ok(LinslExpr::Bool(false)),
    }
}

/// True iff both arguments are the same variant of expression,
/// whatever they hold.
pub fn eq_types(exprs: &[LinslExpr]) -> (r: LinslRes)
    ensures
        prim_outcome_matches(r, spec_apply_primitive(PrimOp::EqTypes, views_of_exprs(exprs@))),
{
    if exprs.len() != 2 {
        return Err(LinslErr::SyntaxError("Expected 2 arguments.".to_owned(), (0, 0)));
    }
    let same = match (&exprs[0], &exprs[1]) {
        (LinslExpr::Bool(_), LinslExpr::Bool(_)) => true,
        (LinslExpr::Closure(_, _), LinslExpr::Closure(_, _)) => true,
        (LinslExpr::List(_), LinslExpr::List(_)) => true,
        (LinslExpr::Number(_), LinslExpr::Number(_)) => true,
        (LinslExpr::Macro(_, _), LinslExpr::Macro(_, _)) => true,
        (LinslExpr::Primitive(_), LinslExpr::Primitive(_)) => true,
        (LinslExpr::Symbol(_), LinslExpr::Symbol(_)) => true,
        _ => false,
    };
    Ok(LinslExpr::Bool(same))
}

/// Run one built-in on already evaluated arguments.
pub fn apply_primitive(op: PrimOp, args: &[LinslExpr]) -> (r: LinslRes)
    ensures
        prim_outcome_matches(r, spec_apply_primitive(op, views_of_exprs(args@))),
{
    match op {
        PrimOp::Add => crate::primitives::add(args),
        PrimOp::Neg => neg(args),
        PrimOp::Mul => crate::primitives::mul(args),
        PrimOp::Inv => inv(args),
        PrimOp::Eq => eq(args),
        PrimOp::Gr => gr(args),
        PrimOp::Car => car(args),
        PrimOp::Cdr => cdr(args),
        PrimOp::IsNil => is_nil(args),
        PrimOp::EqTypes => eq_types(args),
        PrimOp::List => list(args),
        PrimOp::Append => append(args),
    }
}

} // verus!
