//! Retrieval and tokenization of input text, and parsing of tokens into
//! expression trees.
//!
//! Input reaches the tokenizer as plain text: a source is the sequence of
//! its lines, and the queue of sources composes into one logical token
//! stream.  The model of a tokenizer is that stream, `Tokenizer::stream`,
//! a sequence of positioned lexemes.

use vstd::prelude::*;

use crate::datatypes::{
    lemma_expr_list, view_expr, views_of_exprs, LinslErr, LinslExpr, LinslRes, Pos, SpecErr,
    SpecExpr,
};
use crate::numbers::{
    neg_bits, parse_number, spec_neg_bits, spec_parse_number, INF_BITS, QNAN_BITS,
};

verus! {

/// A positioned lexeme, as the model sees it.
pub type SpecToken = (Seq<char>, Pos);

/// Whitespace separates tokens and is never part of one.
pub open spec fn is_space_char(c: char) -> bool {
    c == ' ' || c == '\t' || c == '\r' || c == '\n'
}

/// The single-character lexeme classes, plus the comma that may begin the
/// two-character lexeme `,@`.
pub open spec fn is_delim_char(c: char) -> bool {
    c == '(' || c == ')' || c == '\'' || c == '`' || c == ','
}

/// Whether a character ends a maximal run of atom characters.
pub open spec fn ends_atom(c: char) -> bool {
    is_space_char(c) || is_delim_char(c) || c == ';'
}

/// The first index at or after `i` whose character ends an atom, or the
/// line length if none does.
pub open spec fn atom_end(line: Seq<char>, i: int) -> int
    decreases line.len() - i,
    when 0 <= i
{
    if i >= line.len() {
        line.len() as int
    } else if ends_atom(line[i]) {
        i
    } else {
        atom_end(line, i + 1)
    }
}

pub proof fn lemma_atom_end(line: Seq<char>, i: int)
    requires
        0 <= i <= line.len(),
    ensures
        i <= atom_end(line, i) <= line.len(),
        forall|k: int| i <= k < atom_end(line, i) ==> !ends_atom(line[k]),
        atom_end(line, i) < line.len() ==> ends_atom(line[atom_end(line, i)]),
    decreases line.len() - i,
{
    if i < line.len() && !ends_atom(line[i]) {
        lemma_atom_end(line, i + 1);
    }
}

/// The lexemes of one line from index `i` on, with their positions:
/// whitespace is skipped, `;` discards the rest of the line, `,@` and the
/// single-character classes stand alone, and any other maximal run of
/// characters is one atom.
pub open spec fn spec_tokenize_from(line: Seq<char>, ln: usize, i: int) -> Seq<SpecToken>
    decreases line.len() - i,
    when 0 <= i
    via spec_tokenize_from_dec
{
    if i >= line.len() {
        Seq::empty()
    } else if is_space_char(line[i]) {
        spec_tokenize_from(line, ln, i + 1)
    } else if line[i] == ';' {
        Seq::empty()
    } else if line[i] == ',' && i + 1 < line.len() && line[i + 1] == '@' {
        seq![(seq![',', '@'], (ln, i as usize))] + spec_tokenize_from(line, ln, i + 2)
    } else if is_delim_char(line[i]) {
        seq![(seq![line[i]], (ln, i as usize))] + spec_tokenize_from(line, ln, i + 1)
    } else {
        let j = atom_end(line, i);
        seq![(line.subrange(i, j), (ln, i as usize))] + spec_tokenize_from(line, ln, j)
    }
}

#[via_fn]
proof fn spec_tokenize_from_dec(line: Seq<char>, ln: usize, i: int) {
    if 0 <= i < line.len() {
        lemma_atom_end(line, i);
    }
}

/// All lexemes of one line.
pub open spec fn spec_tokenize_line(line: Seq<char>, ln: usize) -> Seq<SpecToken> {
    spec_tokenize_from(line, ln, 0)
}

/// Line numbers grow by one per line, stopping at the largest `usize`.
pub open spec fn spec_next_line(ln: usize) -> usize {
    if ln == usize::MAX {
        ln
    } else {
        (ln + 1) as usize
    }
}

/// The lexemes of a whole source, whose first line is numbered `first_ln`.
pub open spec fn spec_tokens_of_source(lines: Seq<String>, first_ln: usize) -> Seq<SpecToken>
    decreases lines.len(),
{
    if lines.len() == 0 {
        Seq::empty()
    } else {
        spec_tokenize_line(lines[0]@, first_ln) + spec_tokens_of_source(
            lines.skip(1),
            spec_next_line(first_ln),
        )
    }
}

/// The lexemes of a queue of sources; line numbering restarts at zero
/// with every source after the first.
pub open spec fn spec_tokens_of_sources(sources: Seq<Vec<String>>, first_ln: usize) -> Seq<
    SpecToken,
>
    decreases sources.len(),
{
    if sources.len() == 0 {
        Seq::empty()
    } else {
        spec_tokens_of_source(sources[0]@, first_ln) + spec_tokens_of_sources(sources.skip(1), 0)
    }
}

/// The number of lines left in a queue of sources.
pub open spec fn num_lines(sources: Seq<Vec<String>>) -> nat
    decreases sources.len(),
{
    if sources.len() == 0 {
        0
    } else {
        sources[0]@.len() + num_lines(sources.skip(1))
    }
}

/// The models of buffered tokens.
pub open spec fn views_of_tokens(s: Seq<(String, Pos)>) -> Seq<SpecToken> {
    Seq::new(s.len(), |i: int| (s[i].0@, s[i].1))
}

/// How many times `c` occurs in `s`.
pub open spec fn count_matches(s: Seq<char>, c: char) -> nat
    decreases s.len(),
{
    if s.len() == 0 {
        0
    } else {
        count_matches(s.drop_last(), c) + if s.last() == c {
            1nat
        } else {
            0nat
        }
    }
}

/// The total numbers of `(` and `)` characters over the lines of a source.
pub open spec fn spec_paren_counts(lines: Seq<String>) -> (nat, nat)
    decreases lines.len(),
{
    if lines.len() == 0 {
        (0, 0)
    } else {
        let rest = spec_paren_counts(lines.drop_last());
        (
            rest.0 + count_matches(lines.last()@, '('),
            rest.1 + count_matches(lines.last()@, ')'),
        )
    }
}

fn is_space(c: char) -> (r: bool)
    ensures
        r == is_space_char(c),
{
    c == ' ' || c == '\t' || c == '\r' || c == '\n'
}

fn is_delim(c: char) -> (r: bool)
    ensures
        r == is_delim_char(c),
{
    c == '(' || c == ')' || c == '\'' || c == '`' || c == ','
}

/// Checks whether `string` holds as many opening as closing parentheses.
/// If not, returns the two counts; if so, returns `None`.
pub fn check_parens(string: &str) -> (r: Option<(usize, usize)>)
    ensures
        r is None <==> count_matches(string@, '(') == count_matches(string@, ')'),
        r matches Some(counts) ==> counts.0 == count_matches(string@, '(') && counts.1
            == count_matches(string@, ')'),
{
    let n = string.unicode_len();
    let mut opening: usize = 0;
    let mut closing: usize = 0;
    let mut i: usize = 0;
    while i < n
        invariant
            n == string@.len(),
            i <= n,
            opening == count_matches(string@.take(i as int), '('),
            closing == count_matches(string@.take(i as int), ')'),
            opening <= i,
            closing <= i,
        decreases n - i,
    {
        let c = string.get_char(i);
        proof {
            assert(string@.take(i + 1).drop_last() =~= string@.take(i as int));
            assert(string@.take(i + 1).last() == string@[i as int]);
        }
        if c == '(' {
            opening = opening + 1;
        } else if c == ')' {
            closing = closing + 1;
        }
        i = i + 1;
    }
    proof {
        assert(string@.take(n as int) =~= string@);
    }
    if opening != closing {
        Some((opening, closing))
    } else {
        None
    }
}

/// Whether a source holds as many `(` as `)` over all its lines.
pub open spec fn source_balanced(lines: Seq<String>) -> bool {
    spec_paren_counts(lines).0 == spec_paren_counts(lines).1
}

/// The parenthesis counts of the first unbalanced source, if any.
pub open spec fn first_unbalanced_source(sources: Seq<Vec<String>>) -> Option<(int, int)>
    decreases sources.len(),
{
    if sources.len() == 0 {
        None
    } else if !source_balanced(sources[0]@) {
        Some(
            (
                spec_paren_counts(sources[0]@).0 as int,
                spec_paren_counts(sources[0]@).1 as int,
            ),
        )
    } else {
        first_unbalanced_source(sources.skip(1))
    }
}

/// A count clipped into `usize` range.
pub open spec fn sat_usize(n: int) -> usize {
    if n > usize::MAX {
        usize::MAX
    } else if n < 0 {
        0
    } else {
        n as usize
    }
}

proof fn lemma_first_unbalanced(sources: Seq<Vec<String>>, k: int)
    requires
        0 <= k <= sources.len(),
        forall|j: int| 0 <= j < k ==> source_balanced(#[trigger] sources[j]@),
    ensures
        k == sources.len() ==> first_unbalanced_source(sources) is None,
        k < sources.len() && !source_balanced(sources[k]@) ==> first_unbalanced_source(sources)
            == Some(
            (
                spec_paren_counts(sources[k]@).0 as int,
                spec_paren_counts(sources[k]@).1 as int,
            ),
        ),
    decreases k,
{
    if k > 0 {
        assert(source_balanced(sources[0]@));
        lemma_first_unbalanced(sources.skip(1), k - 1);
        assert(forall|j: int|
            0 <= j < k - 1 ==> #[trigger] sources.skip(1)[j]@ == sources[j + 1]@);
    }
}

/// The `(` and `)` counts of one line.
fn paren_counts_line(string: &str) -> (r: (usize, usize))
    ensures
        r.0 == count_matches(string@, '('),
        r.1 == count_matches(string@, ')'),
{
    let n = string.unicode_len();
    let mut opening: usize = 0;
    let mut closing: usize = 0;
    let mut i: usize = 0;
    while i < n
        invariant
            n == string@.len(),
            i <= n,
            opening == count_matches(string@.take(i as int), '('),
            closing == count_matches(string@.take(i as int), ')'),
            opening <= i,
            closing <= i,
        decreases n - i,
    {
        let c = string.get_char(i);
        proof {
            assert(string@.take(i + 1).drop_last() =~= string@.take(i as int));
            assert(string@.take(i + 1).last() == string@[i as int]);
        }
        if c == '(' {
            opening = opening + 1;
        } else if c == ')' {
            closing = closing + 1;
        }
        i = i + 1;
    }
    proof {
        assert(string@.take(n as int) =~= string@);
    }
    (opening, closing)
}

/// The `(` and `)` counts of a whole source.
fn source_counts(lines: &Vec<String>) -> (r: (u128, u128))
    ensures
        r.0 == spec_paren_counts(lines@).0,
        r.1 == spec_paren_counts(lines@).1,
{
    let mut opening: u128 = 0;
    let mut closing: u128 = 0;
    let mut i: usize = 0;
    while i < lines.len()
        invariant
            i <= lines@.len(),
            opening == spec_paren_counts(lines@.take(i as int)).0,
            closing == spec_paren_counts(lines@.take(i as int)).1,
            opening <= i * 0xFFFF_FFFF_FFFF_FFFFu128,
            closing <= i * 0xFFFF_FFFF_FFFF_FFFFu128,
        decreases lines@.len() - i,
    {
        let (o, c) = paren_counts_line(lines[i].as_str());
        proof {
            assert(lines@.take(i + 1).drop_last() =~= lines@.take(i as int));
            assert(lines@.take(i + 1).last() == lines@[i as int]);
            let m = 0xFFFF_FFFF_FFFF_FFFFu128;
            assert(o <= m && c <= m);
            assert(opening + o <= (i + 1) * m && closing + c <= (i + 1) * m)
                by (nonlinear_arith)
                requires
                    opening <= i * m,
                    closing <= i * m,
                    o <= m,
                    c <= m,
            ;
            assert((i + 1) * m <= 0x1_0000_0000_0000_0000u128 * m) by (nonlinear_arith)
                requires
                    i + 1 <= 0x1_0000_0000_0000_0000u128,
            ;
        }
        opening = opening + o as u128;
        closing = closing + c as u128;
        i = i + 1;
    }
    proof {
        assert(lines@.take(lines@.len() as int) =~= lines@);
    }
    (opening, closing)
}

fn clip_to_usize(n: u128) -> (r: usize)
    ensures
        r == sat_usize(n as int),
{
    if n > usize::MAX as u128 {
        usize::MAX
    } else {
        n as usize
    }
}

/// Tokenizer, responsible for the retrieval and tokenization of input
/// text.  `sources` are the pending inputs, each the sequence of its
/// remaining lines; `tokens` holds the result of tokenizing a single
/// line.
///
/// When created it is supplied with its first inputs and tokenizes the
/// first line of the first one.  Tokens are retrieved with `next_token`.
pub struct Tokenizer {
    /// The inputs to read from, in order; each is its remaining lines.
    pub sources: Vec<Vec<String>>,
    /// Tokens from the latest tokenized line.
    pub tokens: Vec<(String, Pos)>,
    /// Location of the latest delivered token, used when reporting errors.
    pub latest_pos: Pos,
    /// The number the next line of the current source will get.
    pub next_line: usize,
}

impl Tokenizer {
    /// The model of a tokenizer: the positioned lexemes it has yet to
    /// deliver, buffered ones first.
    pub open spec fn stream(self) -> Seq<SpecToken> {
        views_of_tokens(self.tokens@) + spec_tokens_of_sources(self.sources@, self.next_line)
    }

    /// Internal well-formedness: a fresh source always starts at line
    /// zero.
    pub open spec fn wf(self) -> bool {
        self.sources@.len() == 0 ==> self.next_line == 0
    }

    /// Create a new Tokenizer, which will read code from the given
    /// inputs.  Each input must hold as many opening as closing
    /// parentheses; the first that does not is reported as
    /// `UnbalancedParens` with its two counts.
    pub fn new(inputs: Vec<Vec<String>>) -> (r: Result<Tokenizer, LinslErr>)
        ensures
            match r {
                Ok(t) => {
                    &&& first_unbalanced_source(inputs@) is None
                    &&& t.wf()
                    &&& t.stream() == spec_tokens_of_sources(inputs@, 0)
                    &&& t.latest_pos == (0usize, 0usize)
                },
                Err(e) => {
                    &&& first_unbalanced_source(inputs@) matches Some(counts) && e
                        == LinslErr::UnbalancedParens(sat_usize(counts.0), sat_usize(counts.1))
                },
            },
    {
        let mut k: usize = 0;
        while k < inputs.len()
            invariant
                k <= inputs@.len(),
                forall|j: int| 0 <= j < k ==> source_balanced(#[trigger] inputs@[j]@),
            decreases inputs@.len() - k,
        {
            let (o, c) = source_counts(&inputs[k]);
            if o != c {
                proof {
                    lemma_first_unbalanced(inputs@, k as int);
                }
                return Err(LinslErr::UnbalancedParens(clip_to_usize(o), clip_to_usize(c)));
            }
            k = k + 1;
        }
        proof {
            lemma_first_unbalanced(inputs@, inputs@.len() as int);
        }
        let mut tokenizer = Tokenizer {
            sources: inputs,
            tokens: Vec::new(),
            latest_pos: (0, 0),
            next_line: 0,
        };
        proof {
            assert(tokenizer.stream() =~= spec_tokens_of_sources(tokenizer.sources@, 0));
        }
        tokenizer.tokenize_line();
        Ok(tokenizer)
    }

    /// Add a new input for the tokenizer to read from.  It will be read
    /// once all previously added inputs are exhausted.  The input must
    /// hold as many opening as closing parentheses, else it is rejected
    /// as `UnbalancedParens` and not added.
    pub fn add_input(&mut self, input: Vec<String>) -> (r: Result<(), LinslErr>)
        requires
            old(self).wf(),
        ensures
            final(self).wf(),
            final(self).latest_pos == old(self).latest_pos,
            match r {
                Ok(()) => {
                    &&& source_balanced(input@)
                    &&& final(self).stream() == old(self).stream() + spec_tokens_of_source(
                        input@,
                        0,
                    )
                },
                Err(e) => {
                    &&& !source_balanced(input@)
                    &&& e == LinslErr::UnbalancedParens(
                        sat_usize(spec_paren_counts(input@).0 as int),
                        sat_usize(spec_paren_counts(input@).1 as int),
                    )
                    &&& *final(self) == *old(self)
                },
            },
    {
        let (o, c) = source_counts(&input);
        if o != c {
            return Err(LinslErr::UnbalancedParens(clip_to_usize(o), clip_to_usize(c)));
        }
        proof {
            lemma_sources_push(self.sources@, input, self.next_line);
        }
        self.sources.push(input);
        Ok(())
    }

    /// Returns the position of the latest retrieved token.
    pub fn get_pos(&self) -> (r: Pos)
        ensures
            r == self.latest_pos,
    {
        self.latest_pos
    }

    /// Returns the next token, or `None` if all inputs are exhausted.
    pub fn next_token(&mut self) -> (r: Option<String>)
        requires
            old(self).wf(),
        ensures
            final(self).wf(),
            old(self).stream().len() == 0 ==> r is None && final(self).stream() == old(
                self,
            ).stream() && final(self).latest_pos == old(self).latest_pos,
            old(self).stream().len() > 0 ==> {
                &&& r matches Some(t) && t@ == old(self).stream()[0].0
                &&& final(self).latest_pos == old(self).stream()[0].1
                &&& final(self).stream() == old(self).stream().skip(1)
            },
    {
        loop
            invariant
                self.wf(),
                self.stream() == old(self).stream(),
                self.latest_pos == old(self).latest_pos,
            decreases num_lines(self.sources@),
        {
            if self.tokens.len() > 0 {
                let (t, p) = self.tokens.remove(0);
                self.latest_pos = p;
                proof {
                    let old_tokens = self.tokens@.insert(0, (t, p));
                    assert(views_of_tokens(old_tokens)[0] == (t@, p));
                    assert(views_of_tokens(self.tokens@) =~= views_of_tokens(old_tokens).skip(1));
                    assert(self.stream() =~= old(self).stream().skip(1));
                }
                return Some(t);
            }
            if !self.tokenize_line() {
                return None;
            }
        }
    }

    /// Get the next token without consuming it.  A list needs to check
    /// whether the next token is a closing parenthesis to know that it
    /// has ended, without losing the token that follows otherwise.
    pub fn peek(&mut self) -> (r: Option<String>)
        requires
            old(self).wf(),
        ensures
            final(self).wf(),
            final(self).stream() == old(self).stream(),
            final(self).latest_pos == old(self).latest_pos,
            r is None <==> old(self).stream().len() == 0,
            r matches Some(t) ==> t@ == old(self).stream()[0].0,
    {
        loop
            invariant
                self.wf(),
                self.stream() == old(self).stream(),
                self.latest_pos == old(self).latest_pos,
            decreases num_lines(self.sources@),
        {
            if self.tokens.len() > 0 {
                let t = self.tokens[0].0.clone();
                proof {
                    assert(views_of_tokens(self.tokens@)[0] == (self.tokens@[0].0@,
                    self.tokens@[0].1));
                }
                return Some(t);
            }
            if !self.tokenize_line() {
                return None;
            }
        }
    }

    /// Gets the next line from the inputs, with its line number.  An
    /// exhausted input at the head of the queue is discarded and the
    /// next one started, with line numbering reset.
    fn get_line(&mut self) -> (r: Option<(String, usize)>)
        requires
            old(self).wf(),
        ensures
            final(self).wf(),
            final(self).tokens == old(self).tokens,
            final(self).latest_pos == old(self).latest_pos,
            match r {
                None => {
                    &&& final(self).sources@.len() == 0
                    &&& spec_tokens_of_sources(old(self).sources@, old(self).next_line)
                        == Seq::<SpecToken>::empty()
                    &&& num_lines(final(self).sources@) <= num_lines(old(self).sources@)
                },
                Some((line, ln)) => {
                    &&& spec_tokens_of_sources(old(self).sources@, old(self).next_line)
                        == spec_tokenize_line(line@, ln) + spec_tokens_of_sources(
                        final(self).sources@,
                        final(self).next_line,
                    )
                    &&& num_lines(final(self).sources@) < num_lines(old(self).sources@)
                },
            },
    {
        while self.sources.len() > 0 && self.sources[0].len() == 0
            invariant
                self.wf(),
                self.tokens == old(self).tokens,
                self.latest_pos == old(self).latest_pos,
                spec_tokens_of_sources(self.sources@, self.next_line) == spec_tokens_of_sources(
                    old(self).sources@,
                    old(self).next_line,
                ),
                num_lines(self.sources@) <= num_lines(old(self).sources@),
            decreases self.sources@.len(),
        {
            proof {
                assert(spec_tokens_of_source(self.sources@[0]@, self.next_line)
                    =~= Seq::<SpecToken>::empty());
                assert(self.sources@.remove(0) =~= self.sources@.skip(1));
            }
            let _ = self.sources.remove(0);
            self.next_line = 0;
        }
        if self.sources.len() == 0 {
            return None;
        }
        let ghost pre = *self;
        let mut src = self.sources.remove(0);
        let line = src.remove(0);
        let ln = self.next_line;
        self.next_line = if ln < usize::MAX {
            ln + 1
        } else {
            ln
        };
        self.sources.insert(0, src);
        proof {
            assert(pre.sources@.remove(0) =~= pre.sources@.skip(1));
            assert(self.sources@ =~= pre.sources@.skip(1).insert(0, src));
            assert(self.sources@.skip(1) =~= pre.sources@.skip(1));
            assert(src@ =~= pre.sources@[0]@.skip(1));
            assert(spec_tokens_of_sources(pre.sources@, ln) == spec_tokens_of_source(
                pre.sources@[0]@,
                ln,
            ) + spec_tokens_of_sources(pre.sources@.skip(1), 0));
            assert(spec_tokens_of_source(pre.sources@[0]@, ln) == spec_tokenize_line(line@, ln)
                + spec_tokens_of_source(src@, spec_next_line(ln)));
            assert(spec_tokens_of_sources(self.sources@, self.next_line)
                == spec_tokens_of_source(src@, self.next_line) + spec_tokens_of_sources(
                pre.sources@.skip(1),
                0,
            ));
            lemma_num_lines_step(pre.sources@, src);
        }
        Some((line, ln))
    }

    /// Finds the next line and tokenizes it into the token buffer.
    /// Returns whether a line was read at all.
    fn tokenize_line(&mut self) -> (got: bool)
        requires
            old(self).wf(),
            old(self).tokens@.len() == 0,
        ensures
            final(self).wf(),
            final(self).stream() == old(self).stream(),
            final(self).latest_pos == old(self).latest_pos,
            got ==> num_lines(final(self).sources@) < num_lines(old(self).sources@),
            !got ==> final(self).tokens@.len() == 0 && final(self).sources@.len() == 0,
    {
        let (line, ln) = match self.get_line() {
            None => {
                return false;
            },
            Some(pair) => pair,
        };
        let ghost pre = *self;
        let slice = line.as_str();
        let n = slice.unicode_len();
        let mut i: usize = 0;
        while i < n
            invariant
                slice@ == line@,
                n == line@.len(),
                i <= n,
                self.sources == pre.sources,
                self.next_line == pre.next_line,
                self.latest_pos == pre.latest_pos,
                views_of_tokens(self.tokens@) + spec_tokenize_from(line@, ln, i as int)
                    == spec_tokenize_line(line@, ln),
            decreases n - i,
        {
            let c = slice.get_char(i);
            if is_space(c) {
                i = i + 1;
            } else if c == ';' {
                proof {
                    assert(views_of_tokens(self.tokens@) + spec_tokenize_from(line@, ln, n as int)
                        =~= views_of_tokens(self.tokens@) + spec_tokenize_from(
                        line@,
                        ln,
                        i as int,
                    ));
                }
                i = n;
            } else if c == ',' {
                let two = i < n - 1 && slice.get_char(i + 1) == '@';
                let ghost prev_tokens = self.tokens@;
                let next_i: usize = if two {
                    self.tokens.push((",@".to_owned(), (ln, i)));
                    i + 2
                } else {
                    self.tokens.push((",".to_owned(), (ln, i)));
                    i + 1
                };
                proof {
                    reveal_strlit(",@");
                    reveal_strlit(",");
                    if two {
                        assert(",@"@ =~= seq![',', '@']);
                    } else {
                        assert(","@ =~= seq![',']);
                    }
                    let tv = views_of_tokens(self.tokens@).last();
                    assert(views_of_tokens(self.tokens@) =~= views_of_tokens(prev_tokens).push(
                        tv,
                    ));
                    assert(views_of_tokens(self.tokens@) + spec_tokenize_from(
                        line@,
                        ln,
                        next_i as int,
                    ) =~= views_of_tokens(prev_tokens) + (seq![tv] + spec_tokenize_from(
                        line@,
                        ln,
                        next_i as int,
                    )));
                }
                i = next_i;
            } else if is_delim(c) {
                let ghost prev_tokens = self.tokens@;
                let text = if c == '(' {
                    "(".to_owned()
                } else if c == ')' {
                    ")".to_owned()
                } else if c == '\'' {
                    "'".to_owned()
                } else {
                    "`".to_owned()
                };
                proof {
                    reveal_strlit("(");
                    reveal_strlit(")");
                    reveal_strlit("'");
                    reveal_strlit("`");
                    assert(text@ =~= seq![c]);
                }
                self.tokens.push((text, (ln, i)));
                proof {
                    let tv = views_of_tokens(self.tokens@).last();
                    assert(views_of_tokens(self.tokens@) =~= views_of_tokens(prev_tokens).push(
                        tv,
                    ));
                    assert(views_of_tokens(self.tokens@) + spec_tokenize_from(line@, ln, i + 1)
                        =~= views_of_tokens(prev_tokens) + (seq![tv] + spec_tokenize_from(
                        line@,
                        ln,
                        i + 1,
                    )));
                }
                i = i + 1;
            } else {
                let start = i;
                i = i + 1;
                loop
                    invariant
                        slice@ == line@,
                        n == line@.len(),
                        start < i <= n,
                        !ends_atom(line@[start as int]),
                        forall|k: int| start <= k < i ==> !ends_atom(line@[k]),
                    ensures
                        start < i <= n,
                        forall|k: int| start <= k < i ==> !ends_atom(line@[k]),
                        i == n || ends_atom(line@[i as int]),
                    decreases n - i,
                {
                    if i >= n {
                        break ;
                    }
                    let c2 = slice.get_char(i);
                    if is_space(c2) || is_delim(c2) || c2 == ';' {
                        break ;
                    }
                    i = i + 1;
                }
                proof {
                    lemma_atom_end_at(line@, start as int, i as int);
                }
                let text = slice.substring_char(start, i).to_owned();
                let ghost prev_tokens = self.tokens@;
                self.tokens.push((text, (ln, start)));
                proof {
                    let tv = views_of_tokens(self.tokens@).last();
                    assert(tv == (line@.subrange(start as int, i as int), (ln, start)));
                    assert(views_of_tokens(self.tokens@) =~= views_of_tokens(prev_tokens).push(
                        tv,
                    ));
                    assert(views_of_tokens(self.tokens@) + spec_tokenize_from(line@, ln, i as int)
                        =~= views_of_tokens(prev_tokens) + (seq![tv] + spec_tokenize_from(
                        line@,
                        ln,
                        i as int,
                    )));
                }
            }
        }
        proof {
            assert(self.stream() =~= old(self).stream());
        }
        true
    }
}

/// Chars from `start` to `i` form one maximal atom, so `atom_end` at
/// `start` is `i`.
proof fn lemma_atom_end_at(line: Seq<char>, start: int, i: int)
    requires
        0 <= start <= i <= line.len(),
        forall|k: int| start <= k < i ==> !ends_atom(line[k]),
        i == line.len() || ends_atom(line[i]),
    ensures
        atom_end(line, start) == i,
    decreases i - start,
{
    if start < i {
        lemma_atom_end_at(line, start + 1, i);
    }
}

/// Reading the first line of the head source drops the line count by one.
proof fn lemma_num_lines_step(sources: Seq<Vec<String>>, src: Vec<String>)
    requires
        sources.len() > 0,
        sources[0]@.len() > 0,
        src@ == sources[0]@.skip(1),
    ensures
        num_lines(sources.skip(1).insert(0, src)) < num_lines(sources),
{
    let after = sources.skip(1).insert(0, src);
    assert(after.skip(1) =~= sources.skip(1));
    assert(num_lines(after) == src@.len() + num_lines(sources.skip(1)));
}

/// Appending a balanced source appends its tokens to the stream.
proof fn lemma_sources_push(sources: Seq<Vec<String>>, input: Vec<String>, first_ln: usize)
    requires
        sources.len() == 0 ==> first_ln == 0,
    ensures
        spec_tokens_of_sources(sources.push(input), first_ln) == spec_tokens_of_sources(
            sources,
            first_ln,
        ) + spec_tokens_of_source(input@, 0),
    decreases sources.len(),
{
    if sources.len() == 0 {
        let pushed = sources.push(input);
        assert(pushed.skip(1) =~= Seq::<Vec<String>>::empty());
        assert(pushed[0] == input);
        assert(spec_tokens_of_sources(pushed.skip(1), 0) == Seq::<SpecToken>::empty());
        assert(spec_tokens_of_sources(pushed, first_ln) == spec_tokens_of_source(
            input@,
            first_ln,
        ) + spec_tokens_of_sources(pushed.skip(1), 0));
        assert(spec_tokens_of_sources(pushed, first_ln) =~= spec_tokens_of_source(
            input@,
            first_ln,
        ));
        assert(spec_tokens_of_sources(sources, first_ln) == Seq::<SpecToken>::empty());
        assert(spec_tokens_of_sources(sources, first_ln) + spec_tokens_of_source(input@, 0)
            =~= spec_tokens_of_source(input@, 0));
    } else {
        lemma_sources_push(sources.skip(1), input, 0);
        assert(sources.push(input).skip(1) =~= sources.skip(1).push(input));
        assert(spec_tokens_of_sources(sources.push(input), first_ln) == spec_tokens_of_source(
            sources[0]@,
            first_ln,
        ) + spec_tokens_of_sources(sources.skip(1).push(input), 0));
        assert(spec_tokens_of_sources(sources.push(input), first_ln) =~= spec_tokens_of_sources(
            sources,
            first_ln,
        ) + spec_tokens_of_source(input@, 0));
    }
}

} // verus!

verus! {

/// Whether two pieces of text hold the same characters.
pub fn str_eq(a: &str, b: &str) -> (r: bool)
    ensures
        r == (a@ == b@),
{
    let na = a.unicode_len();
    let nb = b.unicode_len();
    if na != nb {
        return false;
    }
    let mut i: usize = 0;
    while i < na
        invariant
            na == a@.len(),
            na == b@.len(),
            i <= na,
            forall|k: int| 0 <= k < i ==> a@[k] == b@[k],
        decreases na - i,
    {
        if a.get_char(i) != b.get_char(i) {
            return false;
        }
        i = i + 1;
    }
    proof {
        assert(a@ =~= b@);
    }
    true
}

/// Whether `c` is a decimal digit.
pub open spec fn is_digit_char(c: char) -> bool {
    48 <= c as u32 <= 57
}

/// The first index at or after `i` whose character is not a decimal
/// digit, or the text length if all are.
pub open spec fn digits_end(t: Seq<char>, i: int) -> int
    decreases t.len() - i,
    when 0 <= i
{
    if i >= t.len() {
        t.len() as int
    } else if !is_digit_char(t[i]) {
        i
    } else {
        digits_end(t, i + 1)
    }
}

/// Whether the text is a decimal numeric literal: an optional sign, a
/// significand of digits with at most one dot and at least one digit,
/// and an optional exponent of `e` or `E`, an optional sign and at
/// least one digit.
pub open spec fn is_decimal_float_text(t: Seq<char>) -> bool {
    let start: int = if t.len() > 0 && (t[0] == '+' || t[0] == '-') {
        1
    } else {
        0
    };
    let d1 = digits_end(t, start);
    let dot = d1 < t.len() && t[d1] == '.';
    let frac = if dot {
        digits_end(t, d1 + 1)
    } else {
        d1
    };
    let has_digits = d1 > start || (dot && frac > d1 + 1);
    &&& has_digits
    &&& (frac == t.len() || {
        &&& frac < t.len()
        &&& (t[frac] == 'e' || t[frac] == 'E')
        &&& {
            let es: int = if frac + 1 < t.len() && (t[frac + 1] == '+' || t[frac + 1] == '-') {
                frac + 2
            } else {
                frac + 1
            };
            digits_end(t, es) == t.len() && digits_end(t, es) > es
        }
    })
}

/// The word `inf`, in any letter case.
pub open spec fn is_inf_text(w: Seq<char>) -> bool {
    &&& w.len() == 3
    &&& (w[0] == 'i' || w[0] == 'I')
    &&& (w[1] == 'n' || w[1] == 'N')
    &&& (w[2] == 'f' || w[2] == 'F')
}

/// The word `infinity`, in any letter case.
pub open spec fn is_infinity_text(w: Seq<char>) -> bool {
    &&& w.len() == 8
    &&& (w[0] == 'i' || w[0] == 'I')
    &&& (w[1] == 'n' || w[1] == 'N')
    &&& (w[2] == 'f' || w[2] == 'F')
    &&& (w[3] == 'i' || w[3] == 'I')
    &&& (w[4] == 'n' || w[4] == 'N')
    &&& (w[5] == 'i' || w[5] == 'I')
    &&& (w[6] == 't' || w[6] == 'T')
    &&& (w[7] == 'y' || w[7] == 'Y')
}

/// The word `nan`, in any letter case.
pub open spec fn is_nan_text(w: Seq<char>) -> bool {
    &&& w.len() == 3
    &&& (w[0] == 'n' || w[0] == 'N')
    &&& (w[1] == 'a' || w[1] == 'A')
    &&& (w[2] == 'n' || w[2] == 'N')
}

/// The special numeric spellings: an optional sign before `inf`,
/// `infinity` or `nan`, giving the corresponding constant bit pattern.
pub open spec fn spec_float_special(t: Seq<char>) -> Option<u64> {
    let neg = t.len() > 0 && t[0] == '-';
    let start: int = if t.len() > 0 && (t[0] == '+' || t[0] == '-') {
        1
    } else {
        0
    };
    let w = t.skip(start);
    if is_inf_text(w) || is_infinity_text(w) {
        Some(
            if neg {
                spec_neg_bits(INF_BITS)
            } else {
                INF_BITS
            },
        )
    } else if is_nan_text(w) {
        Some(
            if neg {
                spec_neg_bits(QNAN_BITS)
            } else {
                QNAN_BITS
            },
        )
    } else {
        None
    }
}

/// The classification of one atom token: a boolean literal; a number if
/// its text is a special numeric spelling or a decimal numeric literal,
/// with a decimal literal's value given by the number parser; else a
/// symbol.
pub open spec fn spec_parse_atom(t: Seq<char>) -> SpecExpr {
    if t == "#t"@ {
        SpecExpr::Bool(true)
    } else if t == "#f"@ {
        SpecExpr::Bool(false)
    } else if spec_float_special(t) is Some {
        SpecExpr::Number(spec_float_special(t)->Some_0)
    } else if is_decimal_float_text(t) {
        match spec_parse_number(t) {
            Some(bits) => SpecExpr::Number(bits),
            None => SpecExpr::Symbol(t),
        }
    } else {
        SpecExpr::Symbol(t)
    }
}

/// The outcome of parsing one expression: the result, the remaining
/// token stream, and the position of the latest consumed token.
pub type SpecParseOut = (Result<SpecExpr, SpecErr>, Seq<SpecToken>, Pos);

/// The outcome of parsing the elements of a list up to its `)`.
pub type SpecParseListOut = (Result<Seq<SpecExpr>, SpecErr>, Seq<SpecToken>, Pos);

/// Parsing one expression from a token stream.  `fuel` bounds the
/// nesting; the public entry point supplies a fixed large amount.
pub open spec fn spec_parse(toks: Seq<SpecToken>, pos: Pos, fuel: nat) -> SpecParseOut
    decreases fuel,
{
    if fuel == 0 {
        (Err(SpecErr::InternalError("Nesting too deep."@)), toks, pos)
    } else if toks.len() == 0 {
        (Err(SpecErr::InternalError("Unexpected EOF."@)), toks, pos)
    } else {
        let t = toks[0];
        let rest = toks.skip(1);
        if t.0 == "'"@ {
            spec_parse_quote(rest, t.1, (fuel - 1) as nat)
        } else if t.0 == "`"@ {
            spec_parse_quasiquote(rest, t.1, (fuel - 1) as nat)
        } else if t.0 == "("@ {
            let out = spec_parse_list(rest, t.1, (fuel - 1) as nat);
            match out.0 {
                Ok(es) => (Ok(SpecExpr::List(es)), out.1, out.2),
                Err(e) => (Err(e), out.1, out.2),
            }
        } else if t.0 == ")"@ {
            (Err(SpecErr::SyntaxError("Unexpected closing parenthesis."@, t.1)), rest, t.1)
        } else {
            (Ok(spec_parse_atom(t.0)), rest, t.1)
        }
    }
}

/// Parsing the expression after a quote mark and wrapping it as
/// `(quote E)`.
pub open spec fn spec_parse_quote(toks: Seq<SpecToken>, pos: Pos, fuel: nat) -> SpecParseOut
    decreases fuel,
{
    if fuel == 0 {
        (Err(SpecErr::InternalError("Nesting too deep."@)), toks, pos)
    } else {
        let out = spec_parse(toks, pos, (fuel - 1) as nat);
        match out.0 {
            Ok(e) => (
                Ok(SpecExpr::List(seq![SpecExpr::Symbol("quote"@), e])),
                out.1,
                out.2,
            ),
            Err(e) => (Err(e), out.1, out.2),
        }
    }
}

/// Parsing the elements of a list until its closing parenthesis.
pub open spec fn spec_parse_list(toks: Seq<SpecToken>, pos: Pos, fuel: nat) -> SpecParseListOut
    decreases fuel,
{
    if fuel == 0 {
        (Err(SpecErr::InternalError("Nesting too deep."@)), toks, pos)
    } else if toks.len() == 0 {
        (Err(SpecErr::SyntaxError("Found only opening parentheses."@, pos)), toks, pos)
    } else if toks[0].0 == ")"@ {
        (Ok(Seq::empty()), toks.skip(1), toks[0].1)
    } else {
        let out = spec_parse(toks, pos, (fuel - 1) as nat);
        match out.0 {
            Err(e) => (Err(e), out.1, out.2),
            Ok(e) => {
                let out2 = spec_parse_list(out.1, out.2, (fuel - 1) as nat);
                match out2.0 {
                    Err(e2) => (Err(e2), out2.1, out2.2),
                    Ok(es) => (Ok(seq![e] + es), out2.1, out2.2),
                }
            },
        }
    }
}

/// Quasiquote expansion of the expression after a backquote:
/// an unquote escapes it, a splicing unquote is illegal at top level, a
/// list becomes an `append` of its rewritten elements, and anything else
/// is quoted.
pub open spec fn spec_parse_quasiquote(toks: Seq<SpecToken>, pos: Pos, fuel: nat) -> SpecParseOut
    decreases fuel,
{
    if fuel == 0 {
        (Err(SpecErr::InternalError("Nesting too deep."@)), toks, pos)
    } else if toks.len() == 0 {
        (Err(SpecErr::SyntaxError("Unexpected EOF."@, pos)), toks, pos)
    } else {
        let t = toks[0];
        if t.0 == ","@ {
            spec_parse(toks.skip(1), t.1, (fuel - 1) as nat)
        } else if t.0 == ",@"@ {
            (
                Err(SpecErr::SyntaxError("Cannot have ,@ at top level of `"@, t.1)),
                toks.skip(1),
                t.1,
            )
        } else if t.0 == "("@ {
            let out = spec_parse_qq_list(toks.skip(1), t.1, (fuel - 1) as nat);
            match out.0 {
                Ok(es) => (
                    Ok(SpecExpr::List(seq![SpecExpr::Symbol("append"@)] + es)),
                    out.1,
                    out.2,
                ),
                Err(e) => (Err(e), out.1, out.2),
            }
        } else {
            spec_parse_quote(toks, pos, (fuel - 1) as nat)
        }
    }
}

/// Parsing the elements of a quasiquoted list until its closing
/// parenthesis, rewriting each element.
pub open spec fn spec_parse_qq_list(toks: Seq<SpecToken>, pos: Pos, fuel: nat) -> SpecParseListOut
    decreases fuel,
{
    if fuel == 0 {
        (Err(SpecErr::InternalError("Nesting too deep."@)), toks, pos)
    } else if toks.len() == 0 {
        (Err(SpecErr::SyntaxError("Found only opening parentheses."@, pos)), toks, pos)
    } else if toks[0].0 == ")"@ {
        (Ok(Seq::empty()), toks.skip(1), toks[0].1)
    } else {
        let out = spec_parse_qq_elem(toks, pos, (fuel - 1) as nat);
        match out.0 {
            Err(e) => (Err(e), out.1, out.2),
            Ok(e) => {
                let out2 = spec_parse_qq_list(out.1, out.2, (fuel - 1) as nat);
                match out2.0 {
                    Err(e2) => (Err(e2), out2.1, out2.2),
                    Ok(es) => (Ok(seq![e] + es), out2.1, out2.2),
                }
            },
        }
    }
}

/// One element of a quasiquoted list: `,x` becomes `(list x)`, `,@x`
/// becomes `x`, and any other element `x` becomes `(list (quote x))`.
pub open spec fn spec_parse_qq_elem(toks: Seq<SpecToken>, pos: Pos, fuel: nat) -> SpecParseOut
    decreases fuel,
{
    if fuel == 0 {
        (Err(SpecErr::InternalError("Nesting too deep."@)), toks, pos)
    } else if toks.len() == 0 {
        (Err(SpecErr::SyntaxError("Unexpected EOF."@, pos)), toks, pos)
    } else {
        let t = toks[0];
        if t.0 == ","@ {
            let out = spec_parse(toks.skip(1), t.1, (fuel - 1) as nat);
            match out.0 {
                Ok(e) => (
                    Ok(SpecExpr::List(seq![SpecExpr::Symbol("list"@), e])),
                    out.1,
                    out.2,
                ),
                Err(e) => (Err(e), out.1, out.2),
            }
        } else if t.0 == ",@"@ {
            spec_parse(toks.skip(1), t.1, (fuel - 1) as nat)
        } else {
            let out = spec_parse(toks, pos, (fuel - 1) as nat);
            match out.0 {
                Ok(e) => (
                    Ok(
                        SpecExpr::List(
                            seq![
                                SpecExpr::Symbol("list"@),
                                SpecExpr::List(seq![SpecExpr::Symbol("quote"@), e]),
                            ],
                        ),
                    ),
                    out.1,
                    out.2,
                ),
                Err(e) => (Err(e), out.1, out.2),
            }
        }
    }
}

/// How an executable parse result and tokenizer state realize a spec
/// parsing outcome.
pub open spec fn parse_outcome_matches(r: LinslRes, out: SpecParseOut, t_new: Tokenizer) -> bool {
    &&& t_new.stream() == out.1
    &&& t_new.latest_pos == out.2
    &&& match (r, out.0) {
        (Ok(e), Ok(se)) => view_expr(e) == se,
        (Err(e), Err(se)) => e@ == se,
        _ => false,
    }
}

/// How an executable element-list result and tokenizer state realize a
/// spec outcome.
pub open spec fn parse_list_outcome_matches(
    r: Result<Vec<LinslExpr>, LinslErr>,
    out: SpecParseListOut,
    t_new: Tokenizer,
) -> bool {
    &&& t_new.stream() == out.1
    &&& t_new.latest_pos == out.2
    &&& match (r, out.0) {
        (Ok(v), Ok(ses)) => views_of_exprs(v@) == ses,
        (Err(e), Err(se)) => e@ == se,
        _ => false,
    }
}

/// The nesting allowance handed to the parser by `parse`.
pub const PARSE_FUEL: u64 = 0x1000_0000;

/// Consumes exactly the tokens forming one complete expression and
/// returns its tree, leaving the tokenizer at the next expression.
pub fn parse(tokenizer: &mut Tokenizer) -> (r: LinslRes)
    requires
        old(tokenizer).wf(),
    ensures
        final(tokenizer).wf(),
        parse_outcome_matches(
            r,
            spec_parse(old(tokenizer).stream(), old(tokenizer).latest_pos, PARSE_FUEL as nat),
            *final(tokenizer),
        ),
{
    parse_fuel(tokenizer, PARSE_FUEL)
}

fn parse_fuel(t: &mut Tokenizer, fuel: u64) -> (r: LinslRes)
    requires
        old(t).wf(),
    ensures
        final(t).wf(),
        parse_outcome_matches(
            r,
            spec_parse(old(t).stream(), old(t).latest_pos, fuel as nat),
            *final(t),
        ),
    decreases fuel,
{
    if fuel == 0 {
        return Err(LinslErr::InternalError("Nesting too deep.".to_owned()));
    }
    match t.next_token() {
        None => Err(LinslErr::InternalError("Unexpected EOF.".to_owned())),
        Some(tok) => {
            if str_eq(tok.as_str(), "'") {
                parse_quote_fuel(t, fuel - 1)
            } else if str_eq(tok.as_str(), "`") {
                parse_quasiquote_fuel(t, fuel - 1)
            } else if str_eq(tok.as_str(), "(") {
                match parse_list_fuel(t, fuel - 1) {
                    Ok(v) => {
                        proof {
                            lemma_expr_list(v);
                        }
                        Ok(LinslExpr::List(v))
                    },
                    Err(e) => Err(e),
                }
            } else if str_eq(tok.as_str(), ")") {
                Err(
                    LinslErr::SyntaxError(
                        "Unexpected closing parenthesis.".to_owned(),
                        t.get_pos(),
                    ),
                )
            } else {
                Ok(parse_atom(tok.as_str()))
            }
        },
    }
}

/// This function is called during parsing for anything which is not a
/// list or a quoted expression.  Whether an atom is bound is not checked
/// here; that happens during evaluation.
fn parse_atom(atom: &str) -> (e: LinslExpr)
    ensures
        view_expr(e) == spec_parse_atom(atom@),
{
    if str_eq(atom, "#t") {
        LinslExpr::Bool(true)
    } else if str_eq(atom, "#f") {
        LinslExpr::Bool(false)
    } else {
        match float_special(atom) {
            Some(bits) => LinslExpr::Number(bits),
            None => {
                if is_decimal_float(atom) {
                    match parse_number(atom) {
                        Some(bits) => LinslExpr::Number(bits),
                        None => LinslExpr::Symbol(atom.to_owned()),
                    }
                } else {
                    LinslExpr::Symbol(atom.to_owned())
                }
            },
        }
    }
}

/// The first index at or after `from` whose character is not a digit.
fn digits_end_exec(s: &str, from: usize) -> (r: usize)
    requires
        from <= s@.len(),
    ensures
        r == digits_end(s@, from as int),
        from <= r <= s@.len(),
{
    let n = s.unicode_len();
    let mut i = from;
    loop
        invariant
            n == s@.len(),
            from <= i <= n,
            digits_end(s@, from as int) == digits_end(s@, i as int),
        ensures
            from <= i <= n,
            digits_end(s@, from as int) == digits_end(s@, i as int),
            i == n || !is_digit_char(s@[i as int]),
        decreases n - i,
    {
        if i >= n {
            break ;
        }
        let c = s.get_char(i);
        let d = c as u32;
        if !(48 <= d && d <= 57) {
            break ;
        }
        i = i + 1;
    }
    i
}

/// Whether the token is a special numeric spelling, and its value.
fn float_special(s: &str) -> (r: Option<u64>)
    ensures
        r == spec_float_special(s@),
{
    let n = s.unicode_len();
    if n == 0 {
        return None;
    }
    let c0 = s.get_char(0);
    let neg = c0 == '-';
    let start: usize = if c0 == '+' || c0 == '-' {
        1
    } else {
        0
    };
    proof {
        assert(s@.skip(start as int).len() == n - start);
        assert(forall|k: int|
            0 <= k < n - start ==> #[trigger] s@.skip(start as int)[k] == s@[start + k]);
    }
    let wlen = n - start;
    if wlen == 3 {
        let a = s.get_char(start);
        let b = s.get_char(start + 1);
        let c = s.get_char(start + 2);
        if (a == 'i' || a == 'I') && (b == 'n' || b == 'N') && (c == 'f' || c == 'F') {
            Some(
                if neg {
                    neg_bits(INF_BITS)
                } else {
                    INF_BITS
                },
            )
        } else if (a == 'n' || a == 'N') && (b == 'a' || b == 'A') && (c == 'n' || c == 'N') {
            Some(
                if neg {
                    neg_bits(QNAN_BITS)
                } else {
                    QNAN_BITS
                },
            )
        } else {
            None
        }
    } else if wlen == 8 {
        let w0 = s.get_char(start);
        let w1 = s.get_char(start + 1);
        let w2 = s.get_char(start + 2);
        let w3 = s.get_char(start + 3);
        let w4 = s.get_char(start + 4);
        let w5 = s.get_char(start + 5);
        let w6 = s.get_char(start + 6);
        let w7 = s.get_char(start + 7);
        if (w0 == 'i' || w0 == 'I') && (w1 == 'n' || w1 == 'N') && (w2 == 'f' || w2 == 'F') && (
        w3 == 'i' || w3 == 'I') && (w4 == 'n' || w4 == 'N') && (w5 == 'i' || w5 == 'I') && (w6
            == 't' || w6 == 'T') && (w7 == 'y' || w7 == 'Y') {
            Some(
                if neg {
                    neg_bits(INF_BITS)
                } else {
                    INF_BITS
                },
            )
        } else {
            None
        }
    } else {
        None
    }
}

/// Whether the token is a decimal numeric literal.
fn is_decimal_float(s: &str) -> (r: bool)
    ensures
        r == is_decimal_float_text(s@),
{
    let n = s.unicode_len();
    let mut start: usize = 0;
    if n > 0 {
        let c0 = s.get_char(0);
        if c0 == '+' || c0 == '-' {
            start = 1;
        }
    }
    let d1 = digits_end_exec(s, start);
    let mut dot = false;
    let mut frac = d1;
    if d1 < n {
        let cd = s.get_char(d1);
        if cd == '.' {
            dot = true;
            frac = digits_end_exec(s, d1 + 1);
        }
    }
    let has_digits = d1 > start || (dot && frac > d1 + 1);
    if !has_digits {
        return false;
    }
    if frac == n {
        return true;
    }
    let ce = s.get_char(frac);
    if !(ce == 'e' || ce == 'E') {
        return false;
    }
    let mut es = frac + 1;
    if es < n {
        let cs = s.get_char(es);
        if cs == '+' || cs == '-' {
            es = es + 1;
        }
    }
    let de = digits_end_exec(s, es);
    de == n && de > es
}

/// Rewrites `'x` as `(quote x)`.
fn parse_quote_fuel(t: &mut Tokenizer, fuel: u64) -> (r: LinslRes)
    requires
        old(t).wf(),
    ensures
        final(t).wf(),
        parse_outcome_matches(
            r,
            spec_parse_quote(old(t).stream(), old(t).latest_pos, fuel as nat),
            *final(t),
        ),
    decreases fuel,
{
    if fuel == 0 {
        return Err(LinslErr::InternalError("Nesting too deep.".to_owned()));
    }
    match parse_fuel(t, fuel - 1) {
        Ok(e) => {
            let mut v: Vec<LinslExpr> = Vec::new();
            v.push(LinslExpr::Symbol("quote".to_owned()));
            v.push(e);
            proof {
                lemma_expr_list(v);
                assert(views_of_exprs(v@) =~= seq![
                    SpecExpr::Symbol("quote"@),
                    view_expr(v@[1]),
                ]);
            }
            Ok(LinslExpr::List(v))
        },
        Err(e) => Err(e),
    }
}

fn parse_list_fuel(t: &mut Tokenizer, fuel: u64) -> (r: Result<Vec<LinslExpr>, LinslErr>)
    requires
        old(t).wf(),
    ensures
        final(t).wf(),
        parse_list_outcome_matches(
            r,
            spec_parse_list(old(t).stream(), old(t).latest_pos, fuel as nat),
            *final(t),
        ),
    decreases fuel,
{
    if fuel == 0 {
        return Err(LinslErr::InternalError("Nesting too deep.".to_owned()));
    }
    match t.peek() {
        None => Err(
            LinslErr::SyntaxError("Found only opening parentheses.".to_owned(), t.get_pos()),
        ),
        Some(tok) => {
            if str_eq(tok.as_str(), ")") {
                let _ = t.next_token();
                let r: Vec<LinslExpr> = Vec::new();
                proof {
                    assert(views_of_exprs(r@) =~= Seq::<SpecExpr>::empty());
                }
                Ok(r)
            } else {
                let e = match parse_fuel(t, fuel - 1) {
                    Ok(e) => e,
                    Err(er) => {
                        return Err(er);
                    },
                };
                let mut rest = match parse_list_fuel(t, fuel - 1) {
                    Ok(v) => v,
                    Err(er) => {
                        return Err(er);
                    },
                };
                let ghost rest0 = rest@;
                rest.insert(0, e);
                proof {
                    assert(views_of_exprs(rest@) =~= seq![view_expr(e)] + views_of_exprs(rest0));
                }
                Ok(rest)
            }
        },
    }
}

/// Rewrites a quasiquoted form into ordinary list construction:
/// `` `,x `` as `x`, `` `(..) `` as an `append` of rewritten elements,
/// and `` `x `` on an atom as a plain quote.
fn parse_quasiquote_fuel(t: &mut Tokenizer, fuel: u64) -> (r: LinslRes)
    requires
        old(t).wf(),
    ensures
        final(t).wf(),
        parse_outcome_matches(
            r,
            spec_parse_quasiquote(old(t).stream(), old(t).latest_pos, fuel as nat),
            *final(t),
        ),
    decreases fuel,
{
    if fuel == 0 {
        return Err(LinslErr::InternalError("Nesting too deep.".to_owned()));
    }
    match t.peek() {
        None => Err(LinslErr::SyntaxError("Unexpected EOF.".to_owned(), t.get_pos())),
        Some(tok) => {
            if str_eq(tok.as_str(), ",") {
                let _ = t.next_token();
                parse_fuel(t, fuel - 1)
            } else if str_eq(tok.as_str(), ",@") {
                let _ = t.next_token();
                Err(
                    LinslErr::SyntaxError(
                        "Cannot have ,@ at top level of `".to_owned(),
                        t.get_pos(),
                    ),
                )
            } else if str_eq(tok.as_str(), "(") {
                let _ = t.next_token();
                match parse_qq_list_fuel(t, fuel - 1) {
                    Ok(mut v) => {
                        let ghost rest0 = v@;
                        v.insert(0, LinslExpr::Symbol("append".to_owned()));
                        proof {
                            lemma_expr_list(v);
                            assert(views_of_exprs(v@) =~= seq![SpecExpr::Symbol("append"@)]
                                + views_of_exprs(rest0));
                        }
                        Ok(LinslExpr::List(v))
                    },
                    Err(e) => Err(e),
                }
            } else {
                parse_quote_fuel(t, fuel - 1)
            }
        },
    }
}

fn parse_qq_list_fuel(t: &mut Tokenizer, fuel: u64) -> (r: Result<Vec<LinslExpr>, LinslErr>)
    requires
        old(t).wf(),
    ensures
        final(t).wf(),
        parse_list_outcome_matches(
            r,
            spec_parse_qq_list(old(t).stream(), old(t).latest_pos, fuel as nat),
            *final(t),
        ),
    decreases fuel,
{
    if fuel == 0 {
        return Err(LinslErr::InternalError("Nesting too deep.".to_owned()));
    }
    match t.peek() {
        None => Err(
            LinslErr::SyntaxError("Found only opening parentheses.".to_owned(), t.get_pos()),
        ),
        Some(tok) => {
            if str_eq(tok.as_str(), ")") {
                let _ = t.next_token();
                let r: Vec<LinslExpr> = Vec::new();
                proof {
                    assert(views_of_exprs(r@) =~= Seq::<SpecExpr>::empty());
                }
                Ok(r)
            } else {
                let e = match parse_qq_elem_fuel(t, fuel - 1) {
                    Ok(e) => e,
                    Err(er) => {
                        return Err(er);
                    },
                };
                let mut rest = match parse_qq_list_fuel(t, fuel - 1) {
                    Ok(v) => v,
                    Err(er) => {
                        return Err(er);
                    },
                };
                let ghost rest0 = rest@;
                rest.insert(0, e);
                proof {
                    assert(views_of_exprs(rest@) =~= seq![view_expr(e)] + views_of_exprs(rest0));
                }
                Ok(rest)
            }
        },
    }
}

/// Rewrites one element of a quasiquoted list.
fn parse_qq_elem_fuel(t: &mut Tokenizer, fuel: u64) -> (r: LinslRes)
    requires
        old(t).wf(),
    ensures
        final(t).wf(),
        parse_outcome_matches(
            r,
            spec_parse_qq_elem(old(t).stream(), old(t).latest_pos, fuel as nat),
            *final(t),
        ),
    decreases fuel,
{
    if fuel == 0 {
        return Err(LinslErr::InternalError("Nesting too deep.".to_owned()));
    }
    match t.peek() {
        None => Err(LinslErr::SyntaxError("Unexpected EOF.".to_owned(), t.get_pos())),
        Some(tok) => {
            if str_eq(tok.as_str(), ",") {
                let _ = t.next_token();
                match parse_fuel(t, fuel - 1) {
                    Ok(e) => {
                        let mut v: Vec<LinslExpr> = Vec::new();
                        v.push(LinslExpr::Symbol("list".to_owned()));
                        v.push(e);
                        proof {
                            lemma_expr_list(v);
                            assert(views_of_exprs(v@) =~= seq![
                                SpecExpr::Symbol("list"@),
                                view_expr(v@[1]),
                            ]);
                        }
                        Ok(LinslExpr::List(v))
                    },
                    Err(e) => Err(e),
                }
            } else if str_eq(tok.as_str(), ",@") {
                let _ = t.next_token();
                parse_fuel(t, fuel - 1)
            } else {
                match parse_fuel(t, fuel - 1) {
                    Ok(e) => {
                        let mut q: Vec<LinslExpr> = Vec::new();
                        q.push(LinslExpr::Symbol("quote".to_owned()));
                        q.push(e);
                        proof {
                            lemma_expr_list(q);
                            assert(views_of_exprs(q@) =~= seq![
                                SpecExpr::Symbol("quote"@),
                                view_expr(q@[1]),
                            ]);
                        }
                        let mut v: Vec<LinslExpr> = Vec::new();
                        v.push(LinslExpr::Symbol("list".to_owned()));
                        v.push(LinslExpr::List(q));
                        proof {
                            lemma_expr_list(v);
                            assert(views_of_exprs(v@) =~= seq![
                                SpecExpr::Symbol("list"@),
                                view_expr(v@[1]),
                            ]);
                        }
                        Ok(LinslExpr::List(v))
                    },
                    Err(e) => Err(e),
                }
            }
        },
    }
}

} // verus!

verus! {

/// The names of a sequence of symbol expressions, or `None` if one of
/// them is not a symbol.
pub open spec fn spec_symbol_names(es: Seq<SpecExpr>) -> Option<Seq<Seq<char>>>
    decreases es.len(),
{
    if es.len() == 0 {
        Some(Seq::empty())
    } else {
        match es[0] {
            SpecExpr::Symbol(s) => match spec_symbol_names(es.skip(1)) {
                Some(names) => Some(seq![s] + names),
                None => None,
            },
            _ => None,
        }
    }
}

/// What a parameter specification must resolve to: a flat list of
/// symbols, else the error naming what went wrong.
pub open spec fn spec_symbols_of(e: SpecExpr) -> Result<Seq<Seq<char>>, SpecErr> {
    match e {
        SpecExpr::List(es) => match spec_symbol_names(es) {
            Some(names) => Ok(names),
            None => Err(SpecErr::SyntaxError("Expected symbol."@, (0usize, 0usize))),
        },
        _ => Err(SpecErr::SyntaxError("Expected list of symbols."@, (0usize, 0usize))),
    }
}

/// If every expression before `i` is a symbol and the one at `i` is
/// not, no name list exists.
proof fn lemma_symbol_names_prefix_fail(es: Seq<SpecExpr>, i: int)
    requires
        0 <= i < es.len(),
        !(es[i] is Symbol),
    ensures
        spec_symbol_names(es) is None,
    decreases i,
{
    if i > 0 {
        if es[0] is Symbol {
            lemma_symbol_names_prefix_fail(es.skip(1), i - 1);
        }
    }
}

/// A sequence made of the symbols named by `names` has exactly those
/// names.
proof fn lemma_symbol_names_all(es: Seq<SpecExpr>, names: Seq<Seq<char>>)
    requires
        es.len() == names.len(),
        forall|j: int| 0 <= j < es.len() ==> #[trigger] es[j] == SpecExpr::Symbol(names[j]),
    ensures
        spec_symbol_names(es) == Some(names),
    decreases es.len(),
{
    if es.len() > 0 {
        lemma_symbol_names_all(es.skip(1), names.skip(1));
        assert(seq![names[0]] + names.skip(1) =~= names);
    } else {
        assert(names =~= Seq::<Seq<char>>::empty());
    }
}

/// The list of parameter names a parameter specification resolves to:
/// it must be a flat list of symbols.
pub fn parse_list_of_symbols(symbs: &LinslExpr) -> (r: Result<Vec<String>, LinslErr>)
    ensures
        match r {
            Ok(names) => spec_symbols_of(view_expr(*symbs)) == Ok::<_, SpecErr>(
                crate::datatypes::views_of_strings(names@),
            ),
            Err(e) => spec_symbols_of(view_expr(*symbs)) == Err::<Seq<Seq<char>>, _>(e@),
        },
{
    match symbs {
        LinslExpr::List(v) => {
            proof {
                lemma_expr_list(*v);
            }
            let mut names: Vec<String> = Vec::new();
            let mut i: usize = 0;
            while i < v.len()
                invariant
                    view_expr(*symbs) == SpecExpr::List(views_of_exprs(v@)),
                    i <= v@.len(),
                    names@.len() == i,
                    forall|j: int|
                        0 <= j < i ==> view_expr(#[trigger] v@[j]) == SpecExpr::Symbol(
                            names@[j]@,
                        ),
                decreases v@.len() - i,
            {
                match &v[i] {
                    LinslExpr::Symbol(s) => {
                        names.push(s.clone());
                    },
                    _ => {
                        proof {
                            lemma_symbol_names_prefix_fail(views_of_exprs(v@), i as int);
                        }
                        return Err(
                            LinslErr::SyntaxError("Expected symbol.".to_owned(), (0, 0)),
                        );
                    },
                }
                i = i + 1;
            }
            proof {
                lemma_symbol_names_all(
                    views_of_exprs(v@),
                    crate::datatypes::views_of_strings(names@),
                );
            }
            Ok(names)
        },
        _ => Err(LinslErr::SyntaxError("Expected list of symbols.".to_owned(), (0, 0))),
    }
}

} // verus!

verus! {

/// The contribution of one lexeme to the parenthesis balance.
pub open spec fn paren_weight(t: Seq<char>) -> int {
    if t == "("@ {
        1
    } else if t == ")"@ {
        -1
    } else {
        0
    }
}

/// Opening minus closing parentheses over a token sequence.
pub open spec fn tok_balance(toks: Seq<SpecToken>) -> int
    decreases toks.len(),
{
    if toks.len() == 0 {
        0
    } else {
        paren_weight(toks[0].0) + tok_balance(toks.skip(1))
    }
}

/// `rest` is the suffix of `toks` that remains after consuming its
/// first tokens.
pub open spec fn suffix_ok(toks: Seq<SpecToken>, rest: Seq<SpecToken>) -> bool {
    rest.len() <= toks.len() && rest == toks.skip(toks.len() - rest.len())
}

/// The tokens consumed when `rest` remains of `toks`.
pub open spec fn consumed_of(toks: Seq<SpecToken>, rest: Seq<SpecToken>) -> Seq<SpecToken> {
    toks.take(toks.len() - rest.len())
}

/// The views of the six lexeme literals, spelled out, and their
/// distinctness from the two parentheses.
proof fn lemma_delim_literals()
    ensures
        "'"@ == seq!['\''],
        "`"@ == seq!['`'],
        "("@ == seq!['('],
        ")"@ == seq![')'],
        ","@ == seq![','],
        ",@"@ == seq![',', '@'],
        "'"@ != "("@ && "'"@ != ")"@,
        "`"@ != "("@ && "`"@ != ")"@,
        ","@ != "("@ && ","@ != ")"@,
        ",@"@ != "("@ && ",@"@ != ")"@,
        "("@ != ")"@,
{
    reveal_strlit("'");
    reveal_strlit("`");
    reveal_strlit("(");
    reveal_strlit(")");
    reveal_strlit(",");
    reveal_strlit(",@");
    assert("'"@ =~= seq!['\'']);
    assert("`"@ =~= seq!['`']);
    assert("("@ =~= seq!['(']);
    assert(")"@ =~= seq![')']);
    assert(","@ =~= seq![',']);
    assert(",@"@ =~= seq![',', '@']);
    assert(seq!['\''][0] == '\'' && seq!['`'][0] == '`' && seq!['('][0] == '(' && seq![')'][0]
        == ')' && seq![','][0] == ',' && seq![',', '@'][0] == ',');
    assert(seq![',', '@'].len() == 2);
}

/// The balance of a concatenation is the sum of the balances.
proof fn lemma_balance_concat(a: Seq<SpecToken>, b: Seq<SpecToken>)
    ensures
        tok_balance(a + b) == tok_balance(a) + tok_balance(b),
    decreases a.len(),
{
    if a.len() == 0 {
        assert(a + b =~= b);
    } else {
        assert((a + b).skip(1) =~= a.skip(1) + b);
        lemma_balance_concat(a.skip(1), b);
    }
}

/// Consuming one token and then a sub-parse: how the suffix and the
/// consumed tokens compose.
proof fn lemma_step_one(toks: Seq<SpecToken>, rest2: Seq<SpecToken>)
    requires
        toks.len() > 0,
        suffix_ok(toks.skip(1), rest2),
    ensures
        suffix_ok(toks, rest2),
        consumed_of(toks, rest2) =~= seq![toks[0]] + consumed_of(toks.skip(1), rest2),
        tok_balance(consumed_of(toks, rest2)) == paren_weight(toks[0].0) + tok_balance(
            consumed_of(toks.skip(1), rest2),
        ),
{
    let k = toks.skip(1).len() - rest2.len();
    assert(toks.skip(1).skip(k) =~= toks.skip(1 + k));
    assert(consumed_of(toks, rest2) =~= seq![toks[0]] + consumed_of(toks.skip(1), rest2));
    let c = seq![toks[0]] + consumed_of(toks.skip(1), rest2);
    assert(c[0] == toks[0]);
    assert(c.skip(1) =~= consumed_of(toks.skip(1), rest2));
}

/// Two sub-parses in a row: how the suffixes and the consumed tokens
/// compose.
proof fn lemma_step_two(toks: Seq<SpecToken>, mid: Seq<SpecToken>, rest: Seq<SpecToken>)
    requires
        suffix_ok(toks, mid),
        suffix_ok(mid, rest),
    ensures
        suffix_ok(toks, rest),
        consumed_of(toks, rest) =~= consumed_of(toks, mid) + consumed_of(mid, rest),
        tok_balance(consumed_of(toks, rest)) == tok_balance(consumed_of(toks, mid))
            + tok_balance(consumed_of(mid, rest)),
{
    let k1 = toks.len() - mid.len();
    let k2 = mid.len() - rest.len();
    assert(toks.skip(k1).skip(k2) =~= toks.skip(k1 + k2));
    assert(consumed_of(toks, rest) =~= consumed_of(toks, mid) + consumed_of(mid, rest));
    lemma_balance_concat(consumed_of(toks, mid), consumed_of(mid, rest));
}

/// Parsing one expression consumes as many opening as closing
/// parentheses: for any token stream, a parsed expression only ever
/// comes from a balanced span of tokens, and the remaining stream is a
/// suffix of the original.
pub proof fn lemma_parse_balanced(toks: Seq<SpecToken>, pos: Pos, fuel: nat)
    ensures
        ({
            let out = spec_parse(toks, pos, fuel);
            &&& suffix_ok(toks, out.1)
            &&& (out.0 is Ok ==> tok_balance(consumed_of(toks, out.1)) == 0)
        }),
    decreases fuel,
{
    lemma_delim_literals();
    if fuel == 0 || toks.len() == 0 {
        assert(toks.skip(0) =~= toks);
    } else {
        let t = toks[0];
        let rest = toks.skip(1);
        assert(toks.skip(toks.len() - rest.len()) =~= rest);
        if t.0 == "'"@ {
            lemma_parse_quote_balanced(rest, t.1, (fuel - 1) as nat);
            let out = spec_parse_quote(rest, t.1, (fuel - 1) as nat);
            lemma_step_one(toks, out.1);
        } else if t.0 == "`"@ {
            lemma_parse_quasiquote_balanced(rest, t.1, (fuel - 1) as nat);
            let out = spec_parse_quasiquote(rest, t.1, (fuel - 1) as nat);
            lemma_step_one(toks, out.1);
        } else if t.0 == "("@ {
            lemma_parse_list_balanced(rest, t.1, (fuel - 1) as nat);
            let out = spec_parse_list(rest, t.1, (fuel - 1) as nat);
            lemma_step_one(toks, out.1);
        } else if t.0 == ")"@ {
            assert(rest.skip(0) =~= rest);
            lemma_step_one(toks, rest);
        } else {
            assert(rest.skip(0) =~= rest);
            lemma_step_one(toks, rest);
            assert(consumed_of(rest, rest) =~= Seq::<SpecToken>::empty());
        }
    }
}

/// The expression after a quote mark comes from a balanced span.
proof fn lemma_parse_quote_balanced(toks: Seq<SpecToken>, pos: Pos, fuel: nat)
    ensures
        ({
            let out = spec_parse_quote(toks, pos, fuel);
            &&& suffix_ok(toks, out.1)
            &&& (out.0 is Ok ==> tok_balance(consumed_of(toks, out.1)) == 0)
        }),
    decreases fuel,
{
    if fuel == 0 {
        assert(toks.skip(0) =~= toks);
    } else {
        lemma_parse_balanced(toks, pos, (fuel - 1) as nat);
    }
}

/// The elements of a list and its closing parenthesis consume one more
/// closing than opening parenthesis.
proof fn lemma_parse_list_balanced(toks: Seq<SpecToken>, pos: Pos, fuel: nat)
    ensures
        ({
            let out = spec_parse_list(toks, pos, fuel);
            &&& suffix_ok(toks, out.1)
            &&& (out.0 is Ok ==> tok_balance(consumed_of(toks, out.1)) == -1)
        }),
    decreases fuel,
{
    lemma_delim_literals();
    if fuel == 0 || toks.len() == 0 {
        assert(toks.skip(0) =~= toks);
    } else if toks[0].0 == ")"@ {
        let rest = toks.skip(1);
        assert(toks.skip(toks.len() - rest.len()) =~= rest);
        assert(rest.skip(0) =~= rest);
        lemma_step_one(toks, rest);
        assert(consumed_of(rest, rest) =~= Seq::<SpecToken>::empty());
    } else {
        lemma_parse_balanced(toks, pos, (fuel - 1) as nat);
        let out = spec_parse(toks, pos, (fuel - 1) as nat);
        if out.0 is Ok {
            lemma_parse_list_balanced(out.1, out.2, (fuel - 1) as nat);
            let out2 = spec_parse_list(out.1, out.2, (fuel - 1) as nat);
            lemma_step_two(toks, out.1, out2.1);
        }
    }
}

/// A quasiquoted form comes from a balanced span.
proof fn lemma_parse_quasiquote_balanced(toks: Seq<SpecToken>, pos: Pos, fuel: nat)
    ensures
        ({
            let out = spec_parse_quasiquote(toks, pos, fuel);
            &&& suffix_ok(toks, out.1)
            &&& (out.0 is Ok ==> tok_balance(consumed_of(toks, out.1)) == 0)
        }),
    decreases fuel,
{
    lemma_delim_literals();
    if fuel == 0 || toks.len() == 0 {
        assert(toks.skip(0) =~= toks);
    } else {
        let t = toks[0];
        let rest = toks.skip(1);
        assert(toks.skip(toks.len() - rest.len()) =~= rest);
        if t.0 == ","@ {
            lemma_parse_balanced(rest, t.1, (fuel - 1) as nat);
            let out = spec_parse(rest, t.1, (fuel - 1) as nat);
            lemma_step_one(toks, out.1);
        } else if t.0 == ",@"@ {
            assert(rest.skip(0) =~= rest);
            lemma_step_one(toks, rest);
        } else if t.0 == "("@ {
            lemma_parse_qq_list_balanced(rest, t.1, (fuel - 1) as nat);
            let out = spec_parse_qq_list(rest, t.1, (fuel - 1) as nat);
            lemma_step_one(toks, out.1);
        } else {
            lemma_parse_quote_balanced(toks, pos, (fuel - 1) as nat);
        }
    }
}

/// The rewritten elements of a quasiquoted list and its closing
/// parenthesis consume one more closing than opening parenthesis.
proof fn lemma_parse_qq_list_balanced(toks: Seq<SpecToken>, pos: Pos, fuel: nat)
    ensures
        ({
            let out = spec_parse_qq_list(toks, pos, fuel);
            &&& suffix_ok(toks, out.1)
            &&& (out.0 is Ok ==> tok_balance(consumed_of(toks, out.1)) == -1)
        }),
    decreases fuel,
{
    lemma_delim_literals();
    if fuel == 0 || toks.len() == 0 {
        assert(toks.skip(0) =~= toks);
    } else if toks[0].0 == ")"@ {
        let rest = toks.skip(1);
        assert(toks.skip(toks.len() - rest.len()) =~= rest);
        assert(rest.skip(0) =~= rest);
        lemma_step_one(toks, rest);
        assert(consumed_of(rest, rest) =~= Seq::<SpecToken>::empty());
    } else {
        lemma_parse_qq_elem_balanced(toks, pos, (fuel - 1) as nat);
        let out = spec_parse_qq_elem(toks, pos, (fuel - 1) as nat);
        if out.0 is Ok {
            lemma_parse_qq_list_balanced(out.1, out.2, (fuel - 1) as nat);
            let out2 = spec_parse_qq_list(out.1, out.2, (fuel - 1) as nat);
            lemma_step_two(toks, out.1, out2.1);
        }
    }
}

/// One rewritten element of a quasiquoted list comes from a balanced
/// span.
proof fn lemma_parse_qq_elem_balanced(toks: Seq<SpecToken>, pos: Pos, fuel: nat)
    ensures
        ({
            let out = spec_parse_qq_elem(toks, pos, fuel);
            &&& suffix_ok(toks, out.1)
            &&& (out.0 is Ok ==> tok_balance(consumed_of(toks, out.1)) == 0)
        }),
    decreases fuel,
{
    lemma_delim_literals();
    if fuel == 0 || toks.len() == 0 {
        assert(toks.skip(0) =~= toks);
    } else {
        let t = toks[0];
        let rest = toks.skip(1);
        assert(toks.skip(toks.len() - rest.len()) =~= rest);
        if t.0 == ","@ || t.0 == ",@"@ {
            lemma_parse_balanced(rest, t.1, (fuel - 1) as nat);
            let out = spec_parse(rest, t.1, (fuel - 1) as nat);
            lemma_step_one(toks, out.1);
        } else {
            lemma_parse_balanced(toks, pos, (fuel - 1) as nat);
        }
    }
}

} // verus!
