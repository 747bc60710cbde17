//! The recursive-descent pattern parser: one character of lookahead, no
//! backtracking. Each executable function is proved equal to its
//! specification-level twin, which states the grammar directly.

use vstd::prelude::*;

use crate::ast::Char;
use crate::ast::Regex;
use crate::ast::is_special;
use crate::ast::fold_anyof;
use crate::ast::fold_sequence;
use crate::render::chars_to_string;
use crate::render::dec_digits;
use crate::render::digit_char;
use crate::render::quant_suffix;

verus! {

/// Represents an error of the pattern parser.
#[derive(Debug, Clone, PartialEq, Eq, Structural)]
pub enum ParseError {
    /// The parser instance is already used.
    AlreadyInUse,
    /// A required delimiter did not match.
    UnexpectedChar { expected: char, actual: char },
    /// A structurally significant character stood unescaped where a literal
    /// was expected, or a quantifier interior was malformed.
    ShouldEscape,
    /// Input ended while a group, class, or escape was still open.
    UnexpectedEos,
}

/// The text that describes each error.
pub open spec fn error_text(e: ParseError) -> Seq<char> {
    match e {
        ParseError::AlreadyInUse => "Parser already in use"@,
        ParseError::UnexpectedChar { expected, actual } => "Unexpected char '"@ + seq![actual]
            + "', expected '"@ + seq![expected] + "'"@,
        ParseError::ShouldEscape => "Unexpected control char detected"@,
        ParseError::UnexpectedEos => "Unexpected EOS detected"@,
    }
}

/// Appends the characters of `s`.
fn append_chars(v: &mut Vec<char>, s: &str)
    ensures
        final(v)@ == old(v)@ + s@,
{
    let w = str_to_chars(s);
    let mut i: usize = 0;
    while i < w.len()
        invariant
            i <= w@.len(),
            v@ == old(v)@ + w@.take(i as int),
            w@ == s@,
        decreases w@.len() - i,
    {
        v.push(w[i]);
        assert(v@ =~= old(v)@ + w@.take(i + 1));
        i = i + 1;
    }
    assert(v@ =~= old(v)@ + s@);
}

impl ParseError {
    /// A human-readable description of the error.
    pub fn message(&self) -> (s: String)
        ensures
            s@ == error_text(*self),
    {
        match self {
            ParseError::AlreadyInUse => {
                let mut v: Vec<char> = Vec::new();
                append_chars(&mut v, "Parser already in use");
                assert(v@ =~= error_text(*self));
                chars_to_string(&v)
            }
            ParseError::UnexpectedChar { expected, actual } => {
                let mut v: Vec<char> = Vec::new();
                append_chars(&mut v, "Unexpected char '");
                v.push(*actual);
                append_chars(&mut v, "', expected '");
                v.push(*expected);
                v.push('\'');
                proof {
                    reveal_strlit("'");
                    assert(v@ =~= error_text(*self));
                }
                chars_to_string(&v)
            }
            ParseError::ShouldEscape => {
                let mut v: Vec<char> = Vec::new();
                append_chars(&mut v, "Unexpected control char detected");
                assert(v@ =~= error_text(*self));
                chars_to_string(&v)
            }
            ParseError::UnexpectedEos => {
                let mut v: Vec<char> = Vec::new();
                append_chars(&mut v, "Unexpected EOS detected");
                assert(v@ =~= error_text(*self));
                chars_to_string(&v)
            }
        }
    }
}

/// Is `c` a decimal digit?
pub open spec fn is_digit(c: char) -> bool {
    '0' as int <= c as int <= '9' as int
}

/// The numeric value of digit `c`.
pub open spec fn digit_val(c: char) -> nat {
    (c as int - '0' as int) as nat
}

/// The first position at or after `pos` that does not hold a digit.
pub open spec fn digit_run_end(s: Seq<char>, pos: int) -> int
    decreases s.len() - pos,
{
    if pos < 0 || pos >= s.len() {
        pos
    } else if is_digit(s[pos]) {
        digit_run_end(s, pos + 1)
    } else {
        pos
    }
}

/// Numeric value of a digit string, most significant first.
pub open spec fn digits_val(ds: Seq<char>) -> nat
    decreases ds.len(),
{
    if ds.len() == 0 {
        0
    } else {
        digits_val(ds.drop_last()) * 10 + digit_val(ds.last())
    }
}

/// Grammar rule `CHAR`: a literal, a shorthand, or an escaped character;
/// nothing when the next character carries structure or input ended.
pub open spec fn spec_char(s: Seq<char>, pos: int) -> Result<(Option<Regex>, int), ParseError> {
    if pos >= s.len() {
        Ok((None, pos))
    } else if is_special(s[pos]) {
        Ok((None, pos))
    } else if s[pos] == '.' {
        Ok((Some(Regex::Literal(Char::Any)), pos + 1))
    } else if s[pos] == '\\' {
        if pos + 1 >= s.len() {
            Err(ParseError::UnexpectedEos)
        } else if s[pos + 1] == 'd' {
            Ok((Some(Regex::Literal(Char::Number)), pos + 2))
        } else if s[pos + 1] == 'w' {
            Ok((Some(Regex::Literal(Char::Alphabet)), pos + 2))
        } else {
            Ok((Some(Regex::Literal(Char::Just(s[pos + 1]))), pos + 2))
        }
    } else {
        Ok((Some(Regex::Literal(Char::Just(s[pos]))), pos + 1))
    }
}

/// Grammar helper: a possibly-empty digit run that must stop at `,` or `}`.
/// A value too large for `usize` is refused the way a malformed quantifier is.
pub open spec fn spec_number(s: Seq<char>, pos: int) -> Result<(Option<usize>, int), ParseError> {
    let e = digit_run_end(s, pos);
    if e >= s.len() {
        Err(ParseError::UnexpectedEos)
    } else if s[e] == ',' || s[e] == '}' {
        if e == pos {
            Ok((None, e))
        } else if digits_val(s.subrange(pos, e)) > usize::MAX {
            Err(ParseError::ShouldEscape)
        } else {
            Ok((Some(digits_val(s.subrange(pos, e)) as usize), e))
        }
    } else {
        Err(ParseError::UnexpectedChar { expected: '0', actual: s[e] })
    }
}

/// Grammar helper: the required delimiter `c` at `pos`.
pub open spec fn spec_expect(s: Seq<char>, pos: int, c: char) -> Result<int, ParseError> {
    if pos >= s.len() {
        Err(ParseError::UnexpectedEos)
    } else if s[pos] == c {
        Ok(pos + 1)
    } else {
        Err(ParseError::UnexpectedChar { expected: c, actual: s[pos] })
    }
}

/// The optional postfix quantifier at `pos`, applied to the preceding term
/// `t`. An interior whose bounds are inverted (`{n,m}` with `n > m`) is
/// malformed: every `Repeat` this returns satisfies `min <= max` wherever a
/// bound is given.
pub open spec fn spec_quantified(s: Seq<char>, pos: int, t: Regex) -> Result<(Regex, int), ParseError> {
    if pos < s.len() && s[pos] == '+' {
        Ok((Regex::Repeat { expr: Box::new(t), min: 1, max: None }, pos + 1))
    } else if pos < s.len() && s[pos] == '*' {
        Ok((Regex::Repeat { expr: Box::new(t), min: 0, max: None }, pos + 1))
    } else if pos < s.len() && s[pos] == '?' {
        Ok((Regex::Repeat { expr: Box::new(t), min: 0, max: Some(1) }, pos + 1))
    } else if pos < s.len() && s[pos] == '{' {
        match spec_number(s, pos + 1) {
            Err(e) => Err(e),
            Ok((lower_opt, p1)) => {
                let lower = match lower_opt {
                    Some(n) => n,
                    None => 0,
                };
                if p1 >= s.len() {
                    Err(ParseError::UnexpectedEos)
                } else if s[p1] == ',' {
                    match spec_number(s, p1 + 1) {
                        Err(e) => Err(e),
                        Ok((upper, p2)) => match spec_expect(s, p2, '}') {
                            Err(e) => Err(e),
                            Ok(p3) => {
                                if (match upper {
                                    Some(u) => lower <= u,
                                    None => true,
                                }) {
                                    Ok((Regex::Repeat { expr: Box::new(t), min: lower, max: upper }, p3))
                                } else {
                                    Err(ParseError::ShouldEscape)
                                }
                            }
                        },
                    }
                } else if s[p1] == '}' {
                    Ok((Regex::Repeat { expr: Box::new(t), min: lower, max: Some(lower) }, p1 + 1))
                } else {
                    Err(ParseError::ShouldEscape)
                }
            }
        }
    } else {
        Ok((t, pos))
    }
}

/// Clamps a continuation position into `[lo, len]`. Parsing positions only
/// move forward, so on every reachable input this is the identity; it makes
/// the forward movement evident to the termination checker.
pub open spec fn forward(p: int, lo: int, len: int) -> int {
    let q = if p < lo { lo } else { p };
    if q > len { len } else { q }
}

/// Grammar rule `EXPRLIST`: alternatives separated by `|`, folded into an
/// `AnyOf` chain.
pub open spec fn spec_expr_list(s: Seq<char>, pos: int) -> Result<(Regex, int), ParseError>
    decreases s.len() - pos, 6int,
{
    match spec_alt_items(s, pos) {
        Err(e) => Err(e),
        Ok((items, p)) => Ok((fold_anyof(items), p)),
    }
}

/// The alternatives of an `EXPRLIST`, one `EXPRSEQ` each.
pub open spec fn spec_alt_items(s: Seq<char>, pos: int) -> Result<(Seq<Regex>, int), ParseError>
    decreases s.len() - pos, 5int,
{
    if !(0 <= pos <= s.len()) {
        Err(ParseError::UnexpectedEos)
    } else {
        match spec_expr_seq(s, pos) {
            Err(e) => Err(e),
            Ok((node, p0)) => {
                let p = forward(p0, pos, s.len() as int);
                if p < s.len() && s[p] == '|' {
                    match spec_alt_items(s, p + 1) {
                        Err(e) => Err(e),
                        Ok((rest, p2)) => Ok((seq![node] + rest, p2)),
                    }
                } else {
                    Ok((seq![node], p))
                }
            }
        }
    }
}

/// Grammar rule `EXPRSEQ`: successive quantified terms, folded into a
/// `Sequence` chain.
pub open spec fn spec_expr_seq(s: Seq<char>, pos: int) -> Result<(Regex, int), ParseError>
    decreases s.len() - pos, 4int,
{
    match spec_seq_items(s, pos) {
        Err(e) => Err(e),
        Ok((items, p)) => Ok((fold_sequence(items), p)),
    }
}

/// The terms of an `EXPRSEQ`, each with its optional quantifier.
pub open spec fn spec_seq_items(s: Seq<char>, pos: int) -> Result<(Seq<Regex>, int), ParseError>
    decreases s.len() - pos, 3int,
{
    if !(0 <= pos <= s.len()) {
        Err(ParseError::UnexpectedEos)
    } else {
        match spec_term(s, pos) {
            Err(e) => Err(e),
            Ok((None, p)) => Ok((Seq::empty(), p)),
            Ok((Some(t), p0)) => {
                let p = forward(p0, pos + 1, s.len() as int);
                match spec_quantified(s, p, t) {
                    Err(e) => Err(e),
                    Ok((item, q0)) => {
                        let q = forward(q0, p, s.len() as int);
                        if q > pos {
                            match spec_seq_items(s, q) {
                                Err(e) => Err(e),
                                Ok((rest, p2)) => Ok((seq![item] + rest, p2)),
                            }
                        } else {
                            Ok((seq![item], q))
                        }
                    }
                }
            }
        }
    }
}

/// Grammar rule `TERM`: a parenthesized group, a bracket class, or a single
/// `CHAR`.
pub open spec fn spec_term(s: Seq<char>, pos: int) -> Result<(Option<Regex>, int), ParseError>
    decreases s.len() - pos, 2int,
{
    if !(0 <= pos <= s.len()) {
        Err(ParseError::UnexpectedEos)
    } else if pos < s.len() && s[pos] == '(' {
        match spec_expr_list(s, pos + 1) {
            Err(e) => Err(e),
            Ok((node, p0)) => match spec_expect(s, p0, ')') {
                Err(e) => Err(e),
                Ok(p2) => Ok((Some(node), p2)),
            },
        }
    } else if pos < s.len() && s[pos] == '[' {
        match spec_class_items(s, pos + 1) {
            Err(e) => Err(e),
            Ok((items, p0)) => match spec_expect(s, p0, ']') {
                Err(e) => Err(e),
                Ok(p2) => Ok((Some(fold_anyof(items)), p2)),
            },
        }
    } else {
        spec_char(s, pos)
    }
}

/// The characters inside a `[...]` class, one `CHAR` each.
pub open spec fn spec_class_items(s: Seq<char>, pos: int) -> Result<(Seq<Regex>, int), ParseError>
    decreases s.len() - pos, 1int,
{
    if !(0 <= pos <= s.len()) {
        Err(ParseError::UnexpectedEos)
    } else {
        match spec_char(s, pos) {
            Err(e) => Err(e),
            Ok((None, p)) => Ok((Seq::empty(), p)),
            Ok((Some(c), p)) => match spec_class_items(s, p) {
                Err(e) => Err(e),
                Ok((rest, p2)) => Ok((seq![c] + rest, p2)),
            },
        }
    }
}

/// What `Parser::parse` returns for input `s`: the grammar must consume the
/// whole input; a structural character left over is an escape error.
pub open spec fn spec_parse(s: Seq<char>) -> Result<Regex, ParseError> {
    match spec_expr_list(s, 0) {
        Err(e) => Err(e),
        Ok((node, p)) => if p == s.len() {
            Ok(node)
        } else {
            Err(ParseError::ShouldEscape)
        },
    }
}

/// Every character of a decimal rendering is a digit, and there is at least
/// one.
proof fn lemma_dec_digits_are_digits(n: nat)
    ensures
        dec_digits(n).len() >= 1,
        forall|i: int| 0 <= i < dec_digits(n).len() ==> is_digit(#[trigger] dec_digits(n)[i]),
    decreases n,
{
    if n >= 10 {
        lemma_dec_digits_are_digits(n / 10);
        assert forall|i: int| 0 <= i < dec_digits(n).len() implies is_digit(#[trigger] dec_digits(n)[i]) by {
            if i < dec_digits(n / 10).len() {
                assert(dec_digits(n)[i] == dec_digits(n / 10)[i]);
            } else {
                assert(dec_digits(n)[i] == digit_char(n % 10));
            }
        }
    }
}

/// Reading back the decimal rendering of `n` gives `n`.
proof fn lemma_digits_val_inverse(n: nat)
    ensures
        digits_val(dec_digits(n)) == n,
    decreases n,
{
    if n < 10 {
        assert(dec_digits(n).drop_last() =~= Seq::<char>::empty());
        assert(digits_val(Seq::<char>::empty()) == 0);
        assert(digit_val(digit_char(n)) == n);
    } else {
        lemma_digits_val_inverse(n / 10);
        assert(dec_digits(n).drop_last() =~= dec_digits(n / 10));
        assert(dec_digits(n).last() == digit_char(n % 10));
        assert(digit_val(digit_char(n % 10)) == n % 10);
        assert(n == 10 * (n / 10) + n % 10) by {
            vstd::arithmetic::div_mod::lemma_fundamental_div_mod(n as int, 10);
        };
    }
}

/// A run of `k` digits followed by a non-digit ends exactly after the run.
proof fn lemma_digit_run(s: Seq<char>, pos: int, k: int)
    requires
        0 <= pos,
        0 <= k,
        pos + k < s.len(),
        forall|i: int| 0 <= i < k ==> is_digit(#[trigger] s[pos + i]),
        !is_digit(s[pos + k]),
    ensures
        digit_run_end(s, pos) == pos + k,
    decreases k,
{
    if k == 0 {
        assert(s[pos + 0] == s[pos]);
    } else {
        assert(is_digit(s[pos + 0]));
        assert(is_digit(s[pos]));
        assert forall|i: int| 0 <= i < k - 1 implies is_digit(#[trigger] s[pos + 1 + i]) by {
            assert(is_digit(s[pos + (i + 1)]));
        }
        lemma_digit_run(s, pos + 1, k - 1);
    }
}

/// Round trip of the quantifier syntax: where the input carries the
/// canonical suffix for bounds `(min, max)`, the quantifier reader applies
/// exactly those bounds to the preceding term. The one collapsed form,
/// `(1, 1)`, renders empty and leaves the term alone; it is claimed only at
/// the end of the input, where nothing else could read as a quantifier.
pub proof fn lemma_quant_suffix_round_trip(
    t: Regex,
    min: usize,
    max: Option<usize>,
    s: Seq<char>,
    pos: int,
)
    requires
        0 <= pos,
        pos + quant_suffix(min, max).len() <= s.len(),
        s.subrange(pos, pos + quant_suffix(min, max).len() as int) == quant_suffix(min, max),
        min == 1 && max == Some(1usize) ==> pos == s.len(),
        max matches Some(m) ==> min <= m,
    ensures
        spec_quantified(s, pos, t) == (if min == 1 && max == Some(1usize) {
            Ok::<(Regex, int), ParseError>((t, pos))
        } else {
            Ok::<(Regex, int), ParseError>(
                (Regex::Repeat { expr: Box::new(t), min: min, max: max },
                pos + quant_suffix(min, max).len() as int),
            )
        }),
{
    let suffix = quant_suffix(min, max);
    let e = pos + suffix.len() as int;
    assert forall|j: int| pos <= j < e implies #[trigger] s[j] == suffix[j - pos] by {
        assert(s.subrange(pos, e)[j - pos] == s[j]);
    }
    match max {
        Option::Some(m) => {
            if min == 0 && m == 1 {
                assert(suffix == seq!['?']);
                assert(s[pos] == '?');
            } else if min == 1 && m == 1 {
                assert(suffix.len() == 0);
                assert(pos == s.len());
            } else if min == 0 {
                lemma_brace_lower_empty(t, min, max, m, s, pos);
            } else if min == m {
                lemma_brace_exact(t, min, max, s, pos);
            } else {
                lemma_brace_pair(t, min, max, m, s, pos);
            }
        }
        Option::None => {
            if min == 0 {
                assert(suffix == seq!['*']);
                assert(s[pos] == '*');
            } else if min == 1 {
                assert(suffix == seq!['+']);
                assert(s[pos] == '+');
            } else {
                lemma_brace_open(t, min, max, s, pos);
            }
        }
    }
}

/// Round trip of literal spellings: the canonical spelling of a character
/// class re-parses to exactly that class.
pub proof fn lemma_char_canon_round_trip(c: Char)
    ensures
        spec_char(crate::render::char_canon(c), 0)
            == Ok::<(Option<Regex>, int), ParseError>(
            (Some(Regex::Literal(c)), crate::render::char_canon(c).len() as int),
        ),
{
    let s = crate::render::char_canon(c);
    assert(s.subrange(0, s.len() as int) =~= s);
    lemma_char_decode_at(c, s, 0);
}

/// A well-formed chain is the fold of its own items.
proof fn lemma_chain_items_fold(r: Regex)
    requires
        crate::ast::wf(r),
        r is AnyOf || r is Tail,
    ensures
        crate::ast::anyof_chain(crate::ast::chain_items(r)) == r,
    decreases r,
{
    match r {
        Regex::AnyOf { head, rest } => {
            lemma_chain_items_fold(*rest);
            assert(crate::ast::chain_items(r) == seq![*head] + crate::ast::chain_items(*rest));
            assert(crate::ast::chain_items(r).drop_first() =~= crate::ast::chain_items(*rest));
            assert(crate::ast::chain_items(r)[0] == *head);
        }
        _ => {
            assert(crate::ast::chain_items(r).len() == 0);
        }
    }
}

/// Reading one canonical spelling back: at a position where the input
/// carries the spelling of class `c`, the character parser returns exactly
/// `c` and stops right after it.
proof fn lemma_char_decode_at(c: Char, s: Seq<char>, pos: int)
    requires
        0 <= pos,
        pos + crate::render::char_canon(c).len() <= s.len(),
        s.subrange(pos, pos + crate::render::char_canon(c).len() as int) == crate::render::char_canon(c),
    ensures
        spec_char(s, pos) == Ok::<(Option<Regex>, int), ParseError>(
            (Some(Regex::Literal(c)), pos + crate::render::char_canon(c).len() as int),
        ),
{
    let canon = crate::render::char_canon(c);
    assert forall|i: int| 0 <= i < canon.len() implies s[pos + i] == canon[i] by {
        assert(s.subrange(pos, pos + canon.len() as int)[i] == s[pos + i]);
    }
    match c {
        Char::Just(x) => {
            if crate::render::needs_escape(x) {
                assert(canon == seq!['\\', x]);
                assert(s[pos + 0] == '\\' && s[pos + 1] == x);
                assert(!is_special('\\'));
                assert(x != 'd' && x != 'w');
            } else {
                assert(canon == seq![x]);
                assert(canon[0] == x);
                assert(s[pos + 0] == canon[0]);
            }
        }
        Char::Alphabet => {
            assert(s[pos + 0] == '\\' && s[pos + 1] == 'w');
            assert(!is_special('\\'));
        }
        Char::Number => {
            assert(s[pos + 0] == '\\' && s[pos + 1] == 'd');
            assert(!is_special('\\'));
        }
        Char::Any => {
            assert(canon == seq!['.']);
            assert(canon[0] == '.');
            assert(s[pos + 0] == canon[0]);
            assert(!is_special('.'));
        }
    }
}

/// Reading a class body back: at a position where the input carries the
/// rendered bodies of the chain's literals followed by `]`, the class parser
/// returns exactly the chain's items.
proof fn lemma_class_decode(r: Regex, s: Seq<char>, pos: int)
    requires
        r is AnyOf || r is Tail,
        crate::ast::wf(r),
        crate::ast::spec_only_literals(r),
        0 <= pos <= s.len(),
        pos + crate::render::class_body(r).len() < s.len(),
        s.subrange(pos, pos + crate::render::class_body(r).len() as int) == crate::render::class_body(r),
        s[pos + crate::render::class_body(r).len() as int] == ']',
    ensures
        spec_class_items(s, pos) == Ok::<(Seq<Regex>, int), ParseError>(
            (crate::ast::chain_items(r), pos + crate::render::class_body(r).len() as int),
        ),
    decreases r,
{
    let body = crate::render::class_body(r);
    match r {
        Regex::Tail => {
            assert(body.len() == 0);
            assert(s[pos] == ']');
            assert(spec_char(s, pos) == Ok::<(Option<Regex>, int), ParseError>((None, pos)));
            assert(crate::ast::chain_items(r) =~= Seq::<Regex>::empty());
        }
        Regex::AnyOf { head, rest } => {
            let c = (*head)->Literal_0;
            let canon = crate::render::char_canon(c);
            let tail_body = crate::render::class_body(*rest);
            assert(*head == Regex::Literal(c));
            assert(crate::render::spec_render(*head) == canon) by {
                reveal_with_fuel(crate::render::spec_render, 2);
            };
            assert(body == canon + tail_body);
            let pos1 = pos + canon.len() as int;
            // The canonical spelling of `c` stands at `pos`, so the
            // character parser reads back exactly `c`.
            assert(s.subrange(pos, pos + canon.len() as int) =~= canon) by {
                assert forall|i: int| 0 <= i < canon.len() implies s[pos + i] == canon[i] by {
                    assert(s.subrange(pos, pos + body.len() as int)[i] == s[pos + i]);
                    assert(body[i] == canon[i]);
                }
            };
            lemma_char_decode_at(c, s, pos);
            // The rest of the body stands after it.
            assert(s.subrange(pos1, pos1 + tail_body.len() as int) =~= tail_body) by {
                assert forall|i: int| 0 <= i < tail_body.len() implies s[pos1 + i] == tail_body[i] by {
                    assert(s.subrange(pos, pos + body.len() as int)[canon.len() + i] == s[pos1 + i]);
                    assert(body[canon.len() + i] == tail_body[i]);
                }
            };
            lemma_class_decode(*rest, s, pos1);
            assert(crate::ast::chain_items(r) =~= seq![Regex::Literal(c)] + crate::ast::chain_items(*rest));
        }
        _ => {}
    }
}

/// A well-formed `Sequence` chain is the fold of its own items.
proof fn lemma_sequence_items_fold(r: Regex)
    requires
        crate::ast::wf(r),
        r is Sequence || r is Tail,
    ensures
        crate::ast::sequence_chain(crate::ast::chain_items(r)) == r,
    decreases r,
{
    match r {
        Regex::Sequence { head, rest } => {
            lemma_sequence_items_fold(*rest);
            assert(crate::ast::chain_items(r) == seq![*head] + crate::ast::chain_items(*rest));
            assert(crate::ast::chain_items(r).drop_first() =~= crate::ast::chain_items(*rest));
            assert(crate::ast::chain_items(r)[0] == *head);
        }
        _ => {
            assert(crate::ast::chain_items(r).len() == 0);
        }
    }
}

/// A position where a sequence of terms must end: the input is exhausted,
/// an alternation bar follows, or a group closes.
pub open spec fn seq_stop(s: Seq<char>, p: int) -> bool {
    p == s.len() || s[p] == '|' || s[p] == ')'
}

/// An alternative that reads back as itself: the empty match, one safe
/// sequence element, or a `Sequence` chain of two or more of them.
pub open spec fn alternative_canon_safe(t: Regex) -> bool
    decreases t, 2int,
{
    ||| t is Tail
    ||| item_canon_safe(t)
    ||| (t is Sequence && crate::ast::wf(t) && flat_sequence_canon_safe(t)
        && crate::ast::chain_items(t).len() >= 2)
}

/// An `AnyOf` chain whose every alternative reads back as itself.
pub open spec fn alternation_canon_safe(r: Regex) -> bool
    decreases r, 3int,
{
    match r {
        Regex::Tail => true,
        Regex::AnyOf { head, rest } => alternative_canon_safe(*head) && alternation_canon_safe(*rest),
        _ => false,
    }
}

/// The pipe-joined text of an `AnyOf` chain: the first alternative's
/// rendering, then each further one behind a `|`.
spec fn piped_text(r: Regex) -> Seq<char> {
    match r {
        Regex::AnyOf { head, rest } => crate::render::spec_render(*head) + crate::render::alt_tail(*rest),
        _ => Seq::empty(),
    }
}

/// Reading one alternative back: at a position where the input carries its
/// rendering up to a stop, the sequence reader returns exactly it.
proof fn lemma_alternative_decode(t: Regex, s: Seq<char>, pos: int)
    requires
        alternative_canon_safe(t),
        0 <= pos,
        pos + crate::render::spec_render(t).len() <= s.len(),
        s.subrange(pos, pos + crate::render::spec_render(t).len() as int) == crate::render::spec_render(t),
        seq_stop(s, pos + crate::render::spec_render(t).len() as int),
    ensures
        spec_expr_seq(s, pos) == Ok::<(Regex, int), ParseError>(
            (t, pos + crate::render::spec_render(t).len() as int),
        ),
    decreases t, 2int,
{
    let n = s.len() as int;
    let body = crate::render::spec_render(t);
    let e = pos + body.len() as int;
    if t is Tail {
        // The empty alternative: the sequence reader stops at once.
        assert(body.len() == 0);
        assert(spec_char(s, pos) == Ok::<(Option<Regex>, int), ParseError>((None, pos))) by {
            if pos < n {
                assert(s[pos] == '|' || s[pos] == ')');
                assert(is_special(s[pos]));
            }
        };
        assert(spec_term(s, pos) == Ok::<(Option<Regex>, int), ParseError>((None, pos)));
        assert(spec_seq_items(s, pos) == Ok::<(Seq<Regex>, int), ParseError>((Seq::empty(), pos)));
        assert(crate::ast::fold_sequence(Seq::<Regex>::empty()) == Regex::Tail);
    } else if t is Sequence && !item_canon_safe(t) {
        lemma_flat_seq_decode(t, s, pos);
        lemma_sequence_items_fold(t);
        assert(crate::ast::fold_sequence(crate::ast::chain_items(t)) == t);
    } else {
        // A single element: the stop that follows is no quantifier.
        assert(e == n || !quant_start(s[e])) by {
            if e < n {
                assert(s[e] == '|' || s[e] == ')');
            }
        };
        lemma_item_decode(t, s, pos);
        let mid = pos + item_core_text(t).len() as int;
        assert(spec_char(s, e) == Ok::<(Option<Regex>, int), ParseError>((None, e))) by {
            if e < n {
                assert(s[e] == '|' || s[e] == ')');
                assert(is_special(s[e]));
            }
        };
        assert(spec_term(s, e) == Ok::<(Option<Regex>, int), ParseError>((None, e)));
        assert(spec_seq_items(s, e) == Ok::<(Seq<Regex>, int), ParseError>((Seq::empty(), e))) by {
            reveal_with_fuel(spec_seq_items, 2);
        };
        assert(pos < mid <= e) by {
            lemma_item_core_len(t);
        };
        assert(spec_seq_items(s, pos) == Ok::<(Seq<Regex>, int), ParseError>((seq![t], e))) by {
            reveal_with_fuel(spec_seq_items, 2);
            assert(forward(mid, pos + 1, n) == mid);
            assert(forward(e, mid, n) == e);
            assert(seq![t] + Seq::<Regex>::empty() =~= seq![t]);
        };
    }
}

/// Reading a pipe-joined chain back: at a position where the input carries
/// the chain's piped text up to the end of input or a closing paren, the
/// alternative reader returns the chain's alternatives, in order.
proof fn lemma_alts_decode(r: Regex, s: Seq<char>, pos: int, end: int)
    requires
        r is AnyOf,
        crate::ast::wf(r),
        alternation_canon_safe(r),
        0 <= pos,
        pos + piped_text(r).len() == end,
        end <= s.len(),
        s.subrange(pos, end) == piped_text(r),
        end == s.len() || s[end] == ')',
    ensures
        spec_alt_items(s, pos) == Ok::<(Seq<Regex>, int), ParseError>(
            (crate::ast::chain_items(r), end),
        ),
    decreases r, 3int,
{
    let n = s.len() as int;
    match r {
        Regex::AnyOf { head, rest } => {
            let hb = crate::render::spec_render(*head);
            let tb = crate::render::alt_tail(*rest);
            assert(piped_text(r) == hb + tb);
            let e = pos + hb.len() as int;
            assert forall|j: int| pos <= j < end implies #[trigger] s[j] == piped_text(r)[j - pos] by {
                assert(s.subrange(pos, end)[j - pos] == s[j]);
            }
            assert(s.subrange(pos, e) =~= hb);
            // After the alternative: the chain's end, or the `|` that opens
            // the next alternative.
            match *rest {
                Regex::Tail => {
                    assert(tb.len() == 0);
                    assert(piped_text(r).len() == hb.len() + tb.len());
                    assert(e == end);
                    lemma_alternative_decode(*head, s, pos);
                    assert(forward(e, pos, n) == e);
                    assert(crate::ast::chain_items(*rest) =~= Seq::<Regex>::empty());
                    assert(crate::ast::chain_items(r) =~= seq![*head]);
                }
                Regex::AnyOf { .. } => {
                    assert(tb =~= seq!['|'] + piped_text(*rest)) by {
                        reveal_with_fuel(crate::render::alt_tail, 2);
                    };
                    assert(s[e] == '|') by {
                        assert(piped_text(r)[e - pos] == tb[0]);
                    };
                    lemma_alternative_decode(*head, s, pos);
                    assert(forward(e, pos, n) == e);
                    assert(s.subrange(e + 1, end) =~= piped_text(*rest)) by {
                        assert forall|i: int| 0 <= i < end - e - 1 implies s[e + 1 + i]
                            == piped_text(*rest)[i] by {
                            assert(s[e + 1 + i] == piped_text(r)[e + 1 + i - pos]);
                            assert(piped_text(r)[hb.len() + 1 + i] == tb[1 + i]);
                        }
                    };
                    lemma_alts_decode(*rest, s, e + 1, end);
                    assert(crate::ast::chain_items(r) =~= seq![*head] + crate::ast::chain_items(*rest));
                }
                _ => {}
            }
        }
        _ => {}
    }
}

/// Round trip of pipe-joined alternation: a well-formed `AnyOf` chain of two
/// or more alternatives, not all lone literals and each a sequence element
/// or a flat chain of them, renders with `|` between the alternatives and
/// parses back to exactly itself.
proof fn lemma_alternation_render_parse(r: Regex)
    requires
        r is AnyOf,
        crate::ast::wf(r),
        alternation_canon_safe(r),
        !crate::ast::spec_only_literals(r),
        crate::ast::chain_items(r).len() >= 2,
    ensures
        spec_parse(crate::render::spec_render(r)) == Ok::<Regex, ParseError>(r),
{
    let s = crate::render::spec_render(r);
    let n = s.len() as int;
    assert(s == piped_text(r));
    assert(s.subrange(0, n) =~= s);
    lemma_alts_decode(r, s, 0, n);
    lemma_chain_items_fold(r);
    assert(crate::ast::fold_anyof(crate::ast::chain_items(r)) == r);
    assert(spec_expr_list(s, 0) == Ok::<(Regex, int), ParseError>((r, n)));
}

/// Does `c` begin a postfix quantifier?
pub open spec fn quant_start(c: char) -> bool {
    c == '+' || c == '*' || c == '?' || c == '{'
}

/// A quantifiable atom whose canonical text reads back as itself: a lone
/// literal, or a literal-only bracket class of two or more alternatives.
pub open spec fn atom_canon_safe(t: Regex) -> bool {
    ||| t is Literal
    ||| (t is AnyOf && crate::ast::wf(t) && crate::ast::spec_only_literals(t)
        && crate::ast::chain_items(t).len() >= 2)
}

/// A sequence element whose canonical text reads back as itself: an atom,
/// or — under sound repetition bounds other than the collapsed `(1, 1)` —
/// any inner pattern of the proved round-trip shapes; a non-atomic inner
/// pattern renders inside parentheses, so the nesting may go arbitrarily
/// deep.
pub open spec fn item_canon_safe(t: Regex) -> bool
    decreases t, 0int,
{
    ||| atom_canon_safe(t)
    ||| (t is Repeat
        && round_trip_shape(*t->Repeat_expr)
        && !(t->Repeat_min == 1 && t->Repeat_max == Some(1usize))
        && (t->Repeat_max matches Some(m) ==> t->Repeat_min <= m))
}

/// The text of an element's quantifiable core: a `Repeat`'s inner pattern as
/// it stands inside the element, else the whole rendering.
spec fn item_core_text(t: Regex) -> Seq<char> {
    if t is Repeat {
        crate::render::repeat_inner(*t->Repeat_expr)
    } else {
        crate::render::spec_render(t)
    }
}

/// The atom a sequence element is built from: the inner pattern of a
/// `Repeat`, else the element itself.
spec fn atom_of(t: Regex) -> Regex {
    if t is Repeat {
        *t->Repeat_expr
    } else {
        t
    }
}

/// A safe atom renders exactly as a `Repeat`'s inner pattern does.
proof fn lemma_repeat_inner_is_render(a: Regex)
    requires
        atom_canon_safe(a),
    ensures
        crate::render::repeat_inner(a) == crate::render::spec_render(a),
{
    reveal_with_fuel(crate::render::spec_render, 2);
}

/// A safe atom's rendering is nonempty, and neither its first character nor
/// the one of anything it prefixes reads as a quantifier or a group opener.
proof fn lemma_atom_render_head(a: Regex)
    requires
        atom_canon_safe(a),
    ensures
        crate::render::spec_render(a).len() >= 1,
        !quant_start(crate::render::spec_render(a)[0]),
        crate::render::spec_render(a)[0] != '|',
{
    if a is Literal {
        let c = a->Literal_0;
        let canon = crate::render::char_canon(c);
        assert(crate::render::spec_render(a) == canon);
        match c {
            Char::Just(x) => {
                if crate::render::needs_escape(x) {
                    assert(canon == seq!['\\', x]);
                    assert(canon[0] == '\\');
                } else {
                    assert(canon == seq![x]);
                    assert(!is_special(x));
                }
            }
            Char::Alphabet => {
                assert(canon[0] == '\\');
            }
            Char::Number => {
                assert(canon[0] == '\\');
            }
            Char::Any => {
                assert(canon == seq!['.']);
            }
        }
    } else {
        assert(crate::render::spec_render(a) == seq!['['] + crate::render::class_body(a)
            + seq![']']);
        assert(crate::render::spec_render(a)[0] == '[');
    }
}

/// A repeat's inner pattern of a proved shape that is not a bare atom
/// renders inside parentheses.
proof fn lemma_group_inner_text(a: Regex)
    requires
        round_trip_shape(a),
        !atom_canon_safe(a),
    ensures
        crate::render::repeat_inner(a) == seq!['('] + crate::render::spec_render(a) + seq![')'],
{
    if a is AnyOf {
        assert(!crate::ast::spec_only_literals(a));
    }
    assert(crate::render::repeat_inner(a) =~= seq!['('] + crate::render::spec_render(a)
        + seq![')']);
}

/// As `lemma_atom_render_head`, for a whole sequence element.
proof fn lemma_item_render_head(t: Regex)
    requires
        item_canon_safe(t),
    ensures
        crate::render::spec_render(t).len() >= 1,
        !quant_start(crate::render::spec_render(t)[0]),
        crate::render::spec_render(t)[0] != '|',
{
    if t is Repeat {
        let a = *t->Repeat_expr;
        assert(crate::render::spec_render(t) == crate::render::repeat_inner(a)
            + quant_suffix(t->Repeat_min, t->Repeat_max));
        if atom_canon_safe(a) {
            lemma_atom_render_head(a);
            lemma_repeat_inner_is_render(a);
            assert(crate::render::spec_render(t)[0] == crate::render::spec_render(a)[0]);
        } else {
            lemma_group_inner_text(a);
            assert(crate::render::spec_render(t)[0] == '(');
        }
    } else {
        lemma_atom_render_head(t);
    }
}

/// An element's core is nonempty and no longer than its whole rendering.
proof fn lemma_item_core_len(t: Regex)
    requires
        item_canon_safe(t),
    ensures
        1 <= item_core_text(t).len(),
        item_core_text(t).len() <= crate::render::spec_render(t).len(),
{
    if t is Repeat {
        let a = *t->Repeat_expr;
        assert(crate::render::spec_render(t) == crate::render::repeat_inner(a)
            + quant_suffix(t->Repeat_min, t->Repeat_max));
        if atom_canon_safe(a) {
            lemma_repeat_inner_is_render(a);
            lemma_atom_render_head(a);
        } else {
            lemma_group_inner_text(a);
        }
    } else {
        lemma_atom_render_head(t);
    }
}

/// A safe element renders the same alone and as a sequence element: only a
/// pipe-joined alternation takes sequence-position parentheses, and no safe
/// element is one.
proof fn lemma_seq_elem_is_render(t: Regex)
    requires
        item_canon_safe(t),
    ensures
        crate::render::seq_elem_text(t) == crate::render::spec_render(t),
{
}

/// An element's sequence-position rendering is nonempty and never starts
/// with a quantifier.
proof fn lemma_seq_elem_render_head(t: Regex)
    requires
        seq_elem_canon_safe(t),
    ensures
        crate::render::seq_elem_text(t).len() >= 1,
        !quant_start(crate::render::seq_elem_text(t)[0]),
{
    if item_canon_safe(t) {
        lemma_seq_elem_is_render(t);
        lemma_item_render_head(t);
    } else {
        assert(crate::render::seq_elem_text(t) == seq!['('] + crate::render::spec_render(t)
            + seq![')']);
        assert(crate::render::seq_elem_text(t)[0] == '(');
    }
}

/// Reading one atom back: at a position where the input carries its
/// rendering, the term reader returns exactly it.
proof fn lemma_atom_decode(a: Regex, s: Seq<char>, pos: int)
    requires
        atom_canon_safe(a),
        0 <= pos,
        pos + crate::render::spec_render(a).len() <= s.len(),
        s.subrange(pos, pos + crate::render::spec_render(a).len() as int) == crate::render::spec_render(a),
    ensures
        spec_term(s, pos) == Ok::<(Option<Regex>, int), ParseError>(
            (Some(a), pos + crate::render::spec_render(a).len() as int),
        ),
{
    let body = crate::render::spec_render(a);
    let e = pos + body.len() as int;
    if a is Literal {
        let c = a->Literal_0;
        let canon = crate::render::char_canon(c);
        assert(body == canon);
        assert(s.subrange(pos, pos + canon.len() as int) =~= canon);
        lemma_char_decode_at(c, s, pos);
        assert(s[pos] != '(' && s[pos] != '[') by {
            lemma_atom_render_head(a);
            assert(s.subrange(pos, e)[0] == s[pos + 0]);
            match c {
                Char::Just(x) => {
                    if crate::render::needs_escape(x) {
                        assert(canon == seq!['\\', x]);
                        assert(canon[0] == '\\');
                    } else {
                        assert(canon == seq![x]);
                        assert(!is_special(x));
                    }
                }
                Char::Alphabet => {
                    assert(canon[0] == '\\');
                }
                Char::Number => {
                    assert(canon[0] == '\\');
                }
                Char::Any => {
                    assert(canon == seq!['.']);
                }
            }
        };
    } else {
        let cb = crate::render::class_body(a);
        assert(body == seq!['['] + cb + seq![']']);
        assert(s[pos] == '[') by {
            assert(s.subrange(pos, e)[0] == s[pos + 0]);
        };
        assert(s.subrange(pos + 1, pos + 1 + cb.len() as int) =~= cb) by {
            assert forall|i: int| 0 <= i < cb.len() implies s.subrange(
                pos + 1,
                pos + 1 + cb.len() as int,
            )[i] == cb[i] by {
                assert(s.subrange(pos + 1, pos + 1 + cb.len() as int)[i] == s[pos + 1 + i]);
                assert(s.subrange(pos, e)[1 + i] == s[pos + (1 + i)]);
                assert(body[1 + i] == cb[i]);
            }
        };
        assert(s[pos + 1 + cb.len() as int] == ']') by {
            assert(s.subrange(pos, e)[1 + cb.len() as int] == s[pos + (1 + cb.len() as int)]);
        };
        lemma_class_decode(a, s, pos + 1);
        lemma_chain_items_fold(a);
        assert(crate::ast::fold_anyof(crate::ast::chain_items(a)) == a);
        assert(spec_expect(s, pos + 1 + cb.len() as int, ']') == Ok::<int, ParseError>(e));
    }
}

/// Reading a parenthesized group back: at a position where the input
/// carries `(`, the rendering of a proved-shape body, then `)`, the term
/// reader opens the group, parses its body as an expression list, and
/// returns exactly the body.
proof fn lemma_group_item_decode(a: Regex, s: Seq<char>, pos: int)
    requires
        round_trip_shape(a),
        0 <= pos,
        pos + crate::render::spec_render(a).len() + 2 <= s.len(),
        s[pos] == '(',
        s.subrange(pos + 1, pos + 1 + crate::render::spec_render(a).len() as int)
            == crate::render::spec_render(a),
        s[pos + 1 + crate::render::spec_render(a).len() as int] == ')',
    ensures
        spec_term(s, pos) == Ok::<(Option<Regex>, int), ParseError>(
            (Some(a), pos + crate::render::spec_render(a).len() + 2),
        ),
    decreases a, 4int,
{
    let n = s.len() as int;
    let ib = crate::render::spec_render(a);
    let body_end = pos + 1 + ib.len() as int;
    if a is Tail {
        assert(ib.len() == 0);
        assert(body_end == pos + 1);
        assert(spec_char(s, body_end) == Ok::<(Option<Regex>, int), ParseError>(
            (None, body_end),
        )) by {
            assert(is_special(')'));
        };
        assert(spec_term(s, body_end) == Ok::<(Option<Regex>, int), ParseError>((None, body_end)));
        assert(spec_seq_items(s, body_end) == Ok::<(Seq<Regex>, int), ParseError>(
            (Seq::empty(), body_end),
        ));
        assert(crate::ast::fold_sequence(Seq::<Regex>::empty()) == Regex::Tail);
        assert(spec_expr_seq(s, body_end) == Ok::<(Regex, int), ParseError>((Regex::Tail, body_end)));
        assert(spec_alt_items(s, body_end) == Ok::<(Seq<Regex>, int), ParseError>(
            (seq![Regex::Tail], body_end),
        )) by {
            assert(forward(body_end, body_end, n) == body_end);
        };
        assert(spec_expr_list(s, body_end) == Ok::<(Regex, int), ParseError>(
            (Regex::Tail, body_end),
        ));
    } else if alternative_canon_safe(a) {
        // A single alternative: one element, or a flat chain.
        lemma_alternative_decode(a, s, pos + 1);
        assert(spec_alt_items(s, pos + 1) == Ok::<(Seq<Regex>, int), ParseError>(
            (seq![a], body_end),
        )) by {
            assert(forward(body_end, pos + 1, n) == body_end);
        };
        assert(spec_expr_list(s, pos + 1) == Ok::<(Regex, int), ParseError>((a, body_end)));
    } else {
        // A pipe-joined alternation of two or more alternatives.
        assert(a is AnyOf && !crate::ast::spec_only_literals(a));
        assert(ib == piped_text(a));
        lemma_alts_decode(a, s, pos + 1, body_end);
        lemma_chain_items_fold(a);
        assert(crate::ast::fold_anyof(crate::ast::chain_items(a)) == a);
        assert(spec_expr_list(s, pos + 1) == Ok::<(Regex, int), ParseError>((a, body_end)));
    }
    assert(spec_expect(s, body_end, ')') == Ok::<int, ParseError>(body_end + 1));
}

/// Reading one sequence element back: the term reader returns the element's
/// core — the inner pattern of a `Repeat`, read through its parentheses
/// where it has them — and the quantifier reader then applies exactly the
/// element's bounds, provided no stray quantifier follows the element.
#[verifier::rlimit(60)]
proof fn lemma_item_decode(t: Regex, s: Seq<char>, pos: int)
    requires
        item_canon_safe(t),
        0 <= pos,
        pos + crate::render::spec_render(t).len() <= s.len(),
        s.subrange(pos, pos + crate::render::spec_render(t).len() as int) == crate::render::spec_render(t),
        pos + crate::render::spec_render(t).len() == s.len()
            || !quant_start(s[pos + crate::render::spec_render(t).len() as int]),
    ensures
        spec_term(s, pos) == Ok::<(Option<Regex>, int), ParseError>(
            (Some(atom_of(t)), pos + item_core_text(t).len() as int),
        ),
        spec_quantified(s, pos + item_core_text(t).len() as int, atom_of(t))
            == Ok::<(Regex, int), ParseError>(
            (t, pos + crate::render::spec_render(t).len() as int),
        ),
    decreases t, 0int,
{
    let body = crate::render::spec_render(t);
    let e = pos + body.len() as int;
    if t is Repeat {
        let a = *t->Repeat_expr;
        let min = t->Repeat_min;
        let max = t->Repeat_max;
        let core = crate::render::repeat_inner(a);
        let suffix = quant_suffix(min, max);
        assert(body == core + suffix);
        let mid = pos + core.len() as int;
        assert(s.subrange(pos, mid) =~= core) by {
            assert forall|i: int| 0 <= i < core.len() implies s.subrange(pos, mid)[i] == core[i] by {
                assert(s.subrange(pos, mid)[i] == s[pos + i]);
                assert(s.subrange(pos, e)[i] == s[pos + i]);
                assert(body[i] == core[i]);
            }
        };
        if atom_canon_safe(a) {
            lemma_repeat_inner_is_render(a);
            lemma_atom_decode(a, s, pos);
        } else {
            let ib = crate::render::spec_render(a);
            lemma_group_inner_text(a);
            assert(core == seq!['('] + ib + seq![')']);
            assert(s[pos] == '(') by {
                assert(s.subrange(pos, mid)[0] == s[pos + 0]);
            };
            assert(s[pos + 1 + ib.len() as int] == ')') by {
                assert(s.subrange(pos, mid)[core.len() - 1] == s[pos + (core.len() - 1)]);
            };
            assert(s.subrange(pos + 1, pos + 1 + ib.len() as int) =~= ib) by {
                assert forall|i: int| 0 <= i < ib.len() implies s.subrange(
                    pos + 1,
                    pos + 1 + ib.len() as int,
                )[i] == ib[i] by {
                    assert(s.subrange(pos + 1, pos + 1 + ib.len() as int)[i] == s[pos + 1 + i]);
                    assert(s.subrange(pos, mid)[1 + i] == s[pos + (1 + i)]);
                    assert(core[1 + i] == ib[i]);
                }
            };
            lemma_group_item_decode(a, s, pos);
        }
        assert(s.subrange(mid, mid + suffix.len() as int) =~= suffix) by {
            assert forall|i: int| 0 <= i < suffix.len() implies s.subrange(
                mid,
                mid + suffix.len() as int,
            )[i] == suffix[i] by {
                assert(s.subrange(mid, mid + suffix.len() as int)[i] == s[mid + i]);
                assert(s.subrange(pos, e)[core.len() + i] == s[pos + (core.len() + i)]);
                assert(body[core.len() + i] == suffix[i]);
            }
        };
        lemma_quant_suffix_round_trip(a, min, max, s, mid);
        assert(t == Regex::Repeat { expr: Box::new(a), min: min, max: max });
    } else {
        lemma_atom_decode(t, s, pos);
        assert(spec_quantified(s, e, t) == Ok::<(Regex, int), ParseError>((t, e))) by {
            if e < s.len() {
                assert(!quant_start(s[e]));
            }
        };
    }
}

/// A sequence element of the proved shapes: a safe element, or a pipe-joined
/// alternation, which renders inside parentheses at sequence position.
pub open spec fn seq_elem_canon_safe(t: Regex) -> bool
    decreases t, 5int,
{
    ||| item_canon_safe(t)
    ||| (t is AnyOf && crate::ast::wf(t) && alternation_canon_safe(t)
        && !crate::ast::spec_only_literals(t) && crate::ast::chain_items(t).len() >= 2)
}

/// A `Sequence` chain whose every element reads back as itself.
pub open spec fn flat_sequence_canon_safe(r: Regex) -> bool
    decreases r, 1int,
{
    match r {
        Regex::Tail => true,
        Regex::Sequence { head, rest } => seq_elem_canon_safe(*head) && flat_sequence_canon_safe(*rest),
        _ => false,
    }
}

/// Reading one element back at its chain position: the term reader returns
/// the element's core, and the quantifier reader completes exactly the
/// element, provided no stray quantifier follows it. Returns the core's end
/// position and the core node.
proof fn lemma_seq_elem_decode(t: Regex, s: Seq<char>, pos: int) -> (r: (int, Regex))
    requires
        seq_elem_canon_safe(t),
        0 <= pos,
        pos + crate::render::seq_elem_text(t).len() <= s.len(),
        s.subrange(pos, pos + crate::render::seq_elem_text(t).len() as int)
            == crate::render::seq_elem_text(t),
        pos + crate::render::seq_elem_text(t).len() == s.len()
            || !quant_start(s[pos + crate::render::seq_elem_text(t).len() as int]),
    ensures
        pos < r.0 <= pos + crate::render::seq_elem_text(t).len(),
        spec_term(s, pos) == Ok::<(Option<Regex>, int), ParseError>((Some(r.1), r.0)),
        spec_quantified(s, r.0, r.1) == Ok::<(Regex, int), ParseError>(
            (t, pos + crate::render::seq_elem_text(t).len() as int),
        ),
    decreases t, 5int,
{
    let n = s.len() as int;
    let hb = crate::render::seq_elem_text(t);
    let e1 = pos + hb.len() as int;
    if item_canon_safe(t) {
        lemma_seq_elem_is_render(t);
        lemma_item_decode(t, s, pos);
        lemma_item_core_len(t);
        (pos + item_core_text(t).len() as int, atom_of(t))
    } else {
        // A pipe-joined alternation: read through its parentheses.
        let ihb = crate::render::spec_render(t);
        assert(t is AnyOf && crate::ast::wf(t) && alternation_canon_safe(t)
            && !crate::ast::spec_only_literals(t) && crate::ast::chain_items(t).len() >= 2) by {
            reveal_with_fuel(seq_elem_canon_safe, 2);
        };
        assert(round_trip_shape(t)) by {
            reveal_with_fuel(round_trip_shape, 2);
        };
        assert(hb =~= seq!['('] + ihb + seq![')']);
        assert(s[pos] == '(') by {
            assert(s.subrange(pos, e1)[0] == s[pos + 0]);
        };
        assert(s[pos + 1 + ihb.len() as int] == ')') by {
            assert(s.subrange(pos, e1)[hb.len() - 1] == s[pos + (hb.len() - 1)]);
        };
        assert(s.subrange(pos + 1, pos + 1 + ihb.len() as int) =~= ihb) by {
            assert forall|i: int| 0 <= i < ihb.len() implies s.subrange(
                pos + 1,
                pos + 1 + ihb.len() as int,
            )[i] == ihb[i] by {
                assert(s.subrange(pos + 1, pos + 1 + ihb.len() as int)[i] == s[pos + 1 + i]);
                assert(s.subrange(pos, e1)[1 + i] == s[pos + (1 + i)]);
                assert(hb[1 + i] == ihb[i]);
            }
        };
        lemma_group_item_decode(t, s, pos);
        assert(spec_quantified(s, e1, t) == Ok::<(Regex, int), ParseError>((t, e1))) by {
            if e1 < n {
                assert(!quant_start(s[e1]));
            }
        };
        (e1, t)
    }
}

/// Reading a flat sequence back: at a position where the input carries the
/// chain's rendering up to a stop, the term reader returns the chain's
/// elements one by one, each under its own bounds.
proof fn lemma_flat_seq_decode(r: Regex, s: Seq<char>, pos: int)
    requires
        r is Sequence || r is Tail,
        crate::ast::wf(r),
        flat_sequence_canon_safe(r),
        0 <= pos,
        pos + crate::render::spec_render(r).len() <= s.len(),
        s.subrange(pos, pos + crate::render::spec_render(r).len() as int) == crate::render::spec_render(r),
        seq_stop(s, pos + crate::render::spec_render(r).len() as int),
    ensures
        spec_seq_items(s, pos) == Ok::<(Seq<Regex>, int), ParseError>(
            (crate::ast::chain_items(r), pos + crate::render::spec_render(r).len() as int),
        ),
    decreases r, 1int,
{
    let n = s.len() as int;
    let body = crate::render::spec_render(r);
    let e = pos + body.len() as int;
    match r {
        Regex::Tail => {
            assert(body.len() == 0);
            assert(pos == e);
            assert(spec_char(s, pos) == Ok::<(Option<Regex>, int), ParseError>((None, pos))) by {
                if pos < n {
                    assert(s[pos] == '|' || s[pos] == ')');
                    assert(is_special(s[pos]));
                }
            };
            assert(spec_term(s, pos) == Ok::<(Option<Regex>, int), ParseError>((None, pos)));
            assert(crate::ast::chain_items(r) =~= Seq::<Regex>::empty());
        }
        Regex::Sequence { head, rest } => {
            let hb = crate::render::seq_elem_text(*head);
            let tb = crate::render::spec_render(*rest);
            assert(body == hb + tb);
            let e1 = pos + hb.len() as int;
            assert(s.subrange(pos, e1) =~= hb) by {
                assert forall|i: int| 0 <= i < hb.len() implies s.subrange(pos, e1)[i] == hb[i] by {
                    assert(s.subrange(pos, e1)[i] == s[pos + i]);
                    assert(s.subrange(pos, e)[i] == s[pos + i]);
                    assert(body[i] == hb[i]);
                }
            };
            // After this element: the stop, or the next element's rendering,
            // neither of which reads as a quantifier.
            assert(e1 == n || !quant_start(s[e1])) by {
                if e1 < n {
                    if e1 == e {
                        assert(s[e1] == '|' || s[e1] == ')');
                    } else {
                        assert(*rest is Sequence) by {
                            assert(tb.len() > 0);
                        };
                        let h2 = *(*rest)->Sequence_head;
                        assert(seq_elem_canon_safe(h2)) by {
                            reveal_with_fuel(flat_sequence_canon_safe, 2);
                        };
                        lemma_seq_elem_render_head(h2);
                        assert(tb == crate::render::seq_elem_text(h2)
                            + crate::render::spec_render(*(*rest)->Sequence_rest));
                        assert(tb[0] == crate::render::seq_elem_text(h2)[0]);
                        assert(s[e1] == tb[0]) by {
                            assert(s.subrange(pos, e)[hb.len() as int] == s[pos + hb.len() as int]);
                            assert(body[hb.len() as int] == tb[0]);
                        };
                    }
                }
            };
            // Read this element back, bare or through its parentheses.
            let pair = lemma_seq_elem_decode(*head, s, pos);
            let mid = pair.0;
            assert(s.subrange(e1, e1 + tb.len() as int) =~= tb) by {
                assert forall|i: int| 0 <= i < tb.len() implies s.subrange(e1, e1 + tb.len() as int)[i]
                    == tb[i] by {
                    assert(s.subrange(e1, e1 + tb.len() as int)[i] == s[e1 + i]);
                    assert(s.subrange(pos, e)[hb.len() + i] == s[pos + (hb.len() + i)]);
                    assert(body[hb.len() + i] == tb[i]);
                }
            };
            lemma_flat_seq_decode(*rest, s, e1);
            assert(forward(mid, pos + 1, n) == mid);
            assert(forward(e1, mid, n) == e1);
            assert(crate::ast::chain_items(r) =~= seq![*head] + crate::ast::chain_items(*rest));
        }
        _ => {}
    }
}

/// Round trip of flat pattern text: a well-formed `Sequence` chain of two or
/// more elements — literals, classes, parenthesized alternations, and any
/// proved shape under repetition bounds — parses back from its rendering to
/// exactly itself.
proof fn lemma_flat_sequence_render_parse(r: Regex)
    requires
        r is Sequence,
        crate::ast::wf(r),
        flat_sequence_canon_safe(r),
        crate::ast::chain_items(r).len() >= 2,
    ensures
        spec_parse(crate::render::spec_render(r)) == Ok::<Regex, ParseError>(r),
{
    let s = crate::render::spec_render(r);
    let n = s.len() as int;
    assert(s.subrange(0, n) =~= s);
    lemma_flat_seq_decode(r, s, 0);
    lemma_sequence_items_fold(r);
    let items = crate::ast::chain_items(r);
    assert(crate::ast::fold_sequence(items) == r);
    assert(spec_expr_seq(s, 0) == Ok::<(Regex, int), ParseError>((r, n)));
    assert(spec_alt_items(s, 0) == Ok::<(Seq<Regex>, int), ParseError>((seq![r], n))) by {
        assert(forward(n, 0, n) == n);
    };
    assert(spec_expr_list(s, 0) == Ok::<(Regex, int), ParseError>((r, n)));
}

/// Round trip of a single-element pattern: a literal, a literal-only
/// class, or either under repetition bounds, parses back from its canonical
/// rendering to exactly itself.
proof fn lemma_item_render_parse(t: Regex)
    requires
        item_canon_safe(t),
    ensures
        spec_parse(crate::render::spec_render(t)) == Ok::<Regex, ParseError>(t),
{
    let s = crate::render::spec_render(t);
    let n = s.len() as int;
    assert(s.subrange(0, n) =~= s);
    lemma_item_decode(t, s, 0);
    let mid = item_core_text(t).len() as int;
    assert(spec_char(s, n) == Ok::<(Option<Regex>, int), ParseError>((None, n)));
    assert(spec_term(s, n) == Ok::<(Option<Regex>, int), ParseError>((None, n)));
    assert(spec_seq_items(s, n) == Ok::<(Seq<Regex>, int), ParseError>((Seq::empty(), n))) by {
        reveal_with_fuel(spec_seq_items, 2);
    };
    assert(0 < mid <= n) by {
        lemma_item_core_len(t);
    };
    assert(spec_seq_items(s, 0) == Ok::<(Seq<Regex>, int), ParseError>((seq![t], n))) by {
        reveal_with_fuel(spec_seq_items, 2);
        assert(forward(mid, 1, n) == mid);
        assert(forward(n, mid, n) == n);
        assert(seq![t] + Seq::<Regex>::empty() =~= seq![t]);
    };
    assert(spec_expr_seq(s, 0) == Ok::<(Regex, int), ParseError>((t, n)));
    assert(spec_alt_items(s, 0) == Ok::<(Seq<Regex>, int), ParseError>((seq![t], n))) by {
        assert(forward(n, 0, n) == n);
    };
    assert(spec_expr_list(s, 0) == Ok::<(Regex, int), ParseError>((t, n)));
}

/// Round trip of the empty pattern: it renders as the empty string, which
/// parses back to the empty match.
proof fn lemma_empty_render_parse()
    ensures
        spec_parse(crate::render::spec_render(Regex::Tail)) == Ok::<Regex, ParseError>(Regex::Tail),
{
    let s = crate::render::spec_render(Regex::Tail);
    assert(s.len() == 0);
    assert(spec_char(s, 0) == Ok::<(Option<Regex>, int), ParseError>((None, 0)));
    assert(spec_term(s, 0) == Ok::<(Option<Regex>, int), ParseError>((None, 0)));
    assert(spec_seq_items(s, 0) == Ok::<(Seq<Regex>, int), ParseError>((Seq::empty(), 0)));
    assert(crate::ast::fold_sequence(Seq::<Regex>::empty()) == Regex::Tail);
    assert(spec_expr_seq(s, 0) == Ok::<(Regex, int), ParseError>((Regex::Tail, 0)));
    assert(spec_alt_items(s, 0) == Ok::<(Seq<Regex>, int), ParseError>((seq![Regex::Tail], 0))) by {
        assert(forward(0, 0, 0) == 0);
    };
    assert(spec_expr_list(s, 0) == Ok::<(Regex, int), ParseError>((Regex::Tail, 0)));
}

/// The shapes for which re-parsing the canonical rendering is proved to give
/// back exactly the same tree: the empty match; one sequence element — a
/// literal, a literal-only class of two or more alternatives, or any shape
/// of this class under sound, non-collapsed repetition bounds, nested to any
/// depth through the parentheses the renderer places; a flat chain of two or
/// more such elements, a pipe-joined alternation allowed among them behind
/// the parentheses the renderer places; or a pipe-rendered alternation of
/// them. Still outside it: collapsed `{1,1}` bounds, which render as the
/// bare inner pattern and so re-read as a different tree, and chain elements
/// that are themselves unquantified chains, whose renderings re-read as
/// flatter trees of the same language.
pub open spec fn round_trip_shape(t: Regex) -> bool
    decreases t, 4int,
{
    ||| t is Tail
    ||| item_canon_safe(t)
    ||| (t is Sequence && crate::ast::wf(t) && flat_sequence_canon_safe(t)
        && crate::ast::chain_items(t).len() >= 2)
    ||| (t is AnyOf && crate::ast::wf(t) && alternation_canon_safe(t)
        && !crate::ast::spec_only_literals(t) && crate::ast::chain_items(t).len() >= 2)
}

/// Round trip: for every tree of a proved shape, parsing the canonical
/// rendering gives back exactly the same tree, so canonicalization is a
/// fixpoint for these patterns.
pub proof fn lemma_render_parse(t: Regex)
    requires
        round_trip_shape(t),
    ensures
        spec_parse(crate::render::spec_render(t)) == Ok::<Regex, ParseError>(t),
{
    if t is Tail {
        lemma_empty_render_parse();
    } else if item_canon_safe(t) {
        lemma_item_render_parse(t);
    } else if t is Sequence {
        lemma_flat_sequence_render_parse(t);
    } else {
        lemma_alternation_render_parse(t);
    }
}

/// Idempotent canonicalization: when a pattern parses to a tree of a proved
/// shape, re-parsing the tree's rendering returns exactly the same result as
/// the original parse — so rendering it a second time changes nothing.
pub proof fn lemma_canonicalization_stable(p: Seq<char>, t: Regex)
    requires
        spec_parse(p) == Ok::<Regex, ParseError>(t),
        round_trip_shape(t),
    ensures
        spec_parse(crate::render::spec_render(t)) == spec_parse(p),
{
    lemma_render_parse(t);
}

/// The `{,m}` form re-parses to `(0, Some(m))`.
proof fn lemma_brace_lower_empty(
    t: Regex,
    min: usize,
    max: Option<usize>,
    m: usize,
    s: Seq<char>,
    pos: int,
)
    requires
        max == Some(m),
        min == 0,
        !(min == 0 && m == 1),
        0 <= pos,
        pos + quant_suffix(min, max).len() <= s.len(),
        s.subrange(pos, pos + quant_suffix(min, max).len() as int) == quant_suffix(min, max),
    ensures
        spec_quantified(s, pos, t) == Ok::<(Regex, int), ParseError>(
            (Regex::Repeat { expr: Box::new(t), min: min, max: max },
            pos + quant_suffix(min, max).len() as int),
        ),
{
    let suffix = quant_suffix(min, max);
    let e = pos + suffix.len() as int;
    let d = dec_digits(m as nat);
    assert(suffix =~= seq!['{', ','] + d + seq!['}']);
    lemma_dec_digits_are_digits(m as nat);
    lemma_digits_val_inverse(m as nat);
    assert(s[pos] == '{' && s[pos + 1] == ',') by {
        assert(s.subrange(pos, e)[0] == s[pos + 0]);
        assert(s.subrange(pos, e)[1] == s[pos + 1]);
    };
    // The first number is empty: a `,` follows the brace directly.
    assert(digit_run_end(s, pos + 1) == pos + 1);
    assert(spec_number(s, pos + 1) == Ok::<(Option<usize>, int), ParseError>((None, pos + 1)));
    // The second number is the digits of `m`, ending at `}`.
    assert forall|i: int| 0 <= i < d.len() implies is_digit(#[trigger] s[pos + 2 + i]) by {
        assert(s.subrange(pos, e)[2 + i] == s[pos + (2 + i)]);
        assert(suffix[2 + i] == d[i]);
    }
    assert(s[pos + 2 + d.len() as int] == '}') by {
        assert(s.subrange(pos, e)[2 + d.len() as int] == s[pos + (2 + d.len() as int)]);
    };
    assert(!is_digit(s[pos + 2 + d.len() as int]));
    lemma_digit_run(s, pos + 2, d.len() as int);
    assert(s.subrange(pos + 2, pos + 2 + d.len() as int) =~= d) by {
        assert forall|i: int| 0 <= i < d.len() implies s.subrange(pos + 2, pos + 2 + d.len() as int)[i]
            == d[i] by {
            assert(s.subrange(pos + 2, pos + 2 + d.len() as int)[i] == s[pos + 2 + i]);
            assert(s.subrange(pos, e)[2 + i] == s[pos + (2 + i)]);
            assert(suffix[2 + i] == d[i]);
        }
    };
    assert(spec_number(s, pos + 2) == Ok::<(Option<usize>, int), ParseError>(
        (Some(m), pos + 2 + d.len() as int),
    ));
    assert(spec_expect(s, pos + 2 + d.len() as int, '}') == Ok::<int, ParseError>(e));
}

/// The `{n}` form re-parses to `(n, Some(n))`.
proof fn lemma_brace_exact(t: Regex, min: usize, max: Option<usize>, s: Seq<char>, pos: int)
    requires
        max == Some(min),
        min != 0,
        !(min == 1 && max == Some(1usize)),
        0 <= pos,
        pos + quant_suffix(min, max).len() <= s.len(),
        s.subrange(pos, pos + quant_suffix(min, max).len() as int) == quant_suffix(min, max),
    ensures
        spec_quantified(s, pos, t) == Ok::<(Regex, int), ParseError>(
            (Regex::Repeat { expr: Box::new(t), min: min, max: max },
            pos + quant_suffix(min, max).len() as int),
        ),
{
    let suffix = quant_suffix(min, max);
    let e = pos + suffix.len() as int;
    let d = dec_digits(min as nat);
    assert(suffix =~= seq!['{'] + d + seq!['}']);
    lemma_dec_digits_are_digits(min as nat);
    lemma_digits_val_inverse(min as nat);
    assert(s[pos] == '{') by {
        assert(s.subrange(pos, e)[0] == s[pos + 0]);
    };
    assert forall|i: int| 0 <= i < d.len() implies is_digit(#[trigger] s[pos + 1 + i]) by {
        assert(s.subrange(pos, e)[1 + i] == s[pos + (1 + i)]);
        assert(suffix[1 + i] == d[i]);
    }
    assert(s[pos + 1 + d.len() as int] == '}') by {
        assert(s.subrange(pos, e)[1 + d.len() as int] == s[pos + (1 + d.len() as int)]);
    };
    assert(!is_digit(s[pos + 1 + d.len() as int]));
    lemma_digit_run(s, pos + 1, d.len() as int);
    assert(s.subrange(pos + 1, pos + 1 + d.len() as int) =~= d) by {
        assert forall|i: int| 0 <= i < d.len() implies s.subrange(pos + 1, pos + 1 + d.len() as int)[i]
            == d[i] by {
            assert(s.subrange(pos + 1, pos + 1 + d.len() as int)[i] == s[pos + 1 + i]);
            assert(s.subrange(pos, e)[1 + i] == s[pos + (1 + i)]);
            assert(suffix[1 + i] == d[i]);
        }
    };
    assert(spec_number(s, pos + 1) == Ok::<(Option<usize>, int), ParseError>(
        (Some(min), pos + 1 + d.len() as int),
    ));
}

/// The `{n,}` form re-parses to `(n, None)`.
proof fn lemma_brace_open(t: Regex, min: usize, max: Option<usize>, s: Seq<char>, pos: int)
    requires
        max is None,
        min != 0,
        min != 1,
        0 <= pos,
        pos + quant_suffix(min, max).len() <= s.len(),
        s.subrange(pos, pos + quant_suffix(min, max).len() as int) == quant_suffix(min, max),
    ensures
        spec_quantified(s, pos, t) == Ok::<(Regex, int), ParseError>(
            (Regex::Repeat { expr: Box::new(t), min: min, max: max },
            pos + quant_suffix(min, max).len() as int),
        ),
{
    let suffix = quant_suffix(min, max);
    let e = pos + suffix.len() as int;
    let d = dec_digits(min as nat);
    assert(suffix =~= seq!['{'] + d + seq![',', '}']);
    lemma_dec_digits_are_digits(min as nat);
    lemma_digits_val_inverse(min as nat);
    assert(s[pos] == '{') by {
        assert(s.subrange(pos, e)[0] == s[pos + 0]);
    };
    assert forall|i: int| 0 <= i < d.len() implies is_digit(#[trigger] s[pos + 1 + i]) by {
        assert(s.subrange(pos, e)[1 + i] == s[pos + (1 + i)]);
        assert(suffix[1 + i] == d[i]);
    }
    assert(s[pos + 1 + d.len() as int] == ',') by {
        assert(s.subrange(pos, e)[1 + d.len() as int] == s[pos + (1 + d.len() as int)]);
    };
    assert(!is_digit(s[pos + 1 + d.len() as int]));
    lemma_digit_run(s, pos + 1, d.len() as int);
    assert(s.subrange(pos + 1, pos + 1 + d.len() as int) =~= d) by {
        assert forall|i: int| 0 <= i < d.len() implies s.subrange(pos + 1, pos + 1 + d.len() as int)[i]
            == d[i] by {
            assert(s.subrange(pos + 1, pos + 1 + d.len() as int)[i] == s[pos + 1 + i]);
            assert(s.subrange(pos, e)[1 + i] == s[pos + (1 + i)]);
            assert(suffix[1 + i] == d[i]);
        }
    };
    assert(spec_number(s, pos + 1) == Ok::<(Option<usize>, int), ParseError>(
        (Some(min), pos + 1 + d.len() as int),
    ));
    let p1 = pos + 1 + d.len() as int;
    // The second number is empty: `}` follows the comma directly.
    assert(s[p1 + 1] == '}') by {
        assert(s.subrange(pos, e)[p1 + 1 - pos] == s[pos + (p1 + 1 - pos)]);
    };
    assert(!is_digit(s[p1 + 1]));
    assert(digit_run_end(s, p1 + 1) == p1 + 1);
    assert(spec_number(s, p1 + 1) == Ok::<(Option<usize>, int), ParseError>((None, p1 + 1)));
    assert(spec_expect(s, p1 + 1, '}') == Ok::<int, ParseError>(e));
}

/// The `{n,m}` form re-parses to `(n, Some(m))`.
proof fn lemma_brace_pair(
    t: Regex,
    min: usize,
    max: Option<usize>,
    m: usize,
    s: Seq<char>,
    pos: int,
)
    requires
        max == Some(m),
        min != 0,
        min < m,
        0 <= pos,
        pos + quant_suffix(min, max).len() <= s.len(),
        s.subrange(pos, pos + quant_suffix(min, max).len() as int) == quant_suffix(min, max),
    ensures
        spec_quantified(s, pos, t) == Ok::<(Regex, int), ParseError>(
            (Regex::Repeat { expr: Box::new(t), min: min, max: max },
            pos + quant_suffix(min, max).len() as int),
        ),
{
    let suffix = quant_suffix(min, max);
    let e = pos + suffix.len() as int;
    let dl = dec_digits(min as nat);
    let du = dec_digits(m as nat);
    assert(suffix =~= seq!['{'] + dl + seq![','] + du + seq!['}']);
    lemma_dec_digits_are_digits(min as nat);
    lemma_dec_digits_are_digits(m as nat);
    lemma_digits_val_inverse(min as nat);
    lemma_digits_val_inverse(m as nat);
    assert(s[pos] == '{') by {
        assert(s.subrange(pos, e)[0] == s[pos + 0]);
    };
    assert forall|i: int| 0 <= i < dl.len() implies is_digit(#[trigger] s[pos + 1 + i]) by {
        assert(s.subrange(pos, e)[1 + i] == s[pos + (1 + i)]);
        assert(suffix[1 + i] == dl[i]);
    }
    assert(s[pos + 1 + dl.len() as int] == ',') by {
        assert(s.subrange(pos, e)[1 + dl.len() as int] == s[pos + (1 + dl.len() as int)]);
    };
    assert(!is_digit(s[pos + 1 + dl.len() as int]));
    lemma_digit_run(s, pos + 1, dl.len() as int);
    assert(s.subrange(pos + 1, pos + 1 + dl.len() as int) =~= dl) by {
        assert forall|i: int| 0 <= i < dl.len() implies s.subrange(
            pos + 1,
            pos + 1 + dl.len() as int,
        )[i] == dl[i] by {
            assert(s.subrange(pos + 1, pos + 1 + dl.len() as int)[i] == s[pos + 1 + i]);
            assert(s.subrange(pos, e)[1 + i] == s[pos + (1 + i)]);
            assert(suffix[1 + i] == dl[i]);
        }
    };
    assert(spec_number(s, pos + 1) == Ok::<(Option<usize>, int), ParseError>(
        (Some(min), pos + 1 + dl.len() as int),
    ));
    let p1 = pos + 1 + dl.len() as int;
    let p2 = p1 + 1;
    assert forall|i: int| 0 <= i < du.len() implies is_digit(#[trigger] s[p2 + i]) by {
        assert(s.subrange(pos, e)[p2 + i - pos] == s[pos + (p2 + i - pos)]);
        assert(suffix[p2 + i - pos] == du[i]);
    }
    assert(s[p2 + du.len() as int] == '}') by {
        assert(s.subrange(pos, e)[p2 + du.len() as int - pos] == s[pos + (p2 + du.len() as int
            - pos)]);
    };
    assert(!is_digit(s[p2 + du.len() as int]));
    lemma_digit_run(s, p2, du.len() as int);
    assert(s.subrange(p2, p2 + du.len() as int) =~= du) by {
        assert forall|i: int| 0 <= i < du.len() implies s.subrange(p2, p2 + du.len() as int)[i]
            == du[i] by {
            assert(s.subrange(p2, p2 + du.len() as int)[i] == s[p2 + i]);
            assert(s.subrange(pos, e)[p2 + i - pos] == s[pos + (p2 + i - pos)]);
            assert(suffix[p2 + i - pos] == du[i]);
        }
    };
    assert(spec_number(s, p2) == Ok::<(Option<usize>, int), ParseError>(
        (Some(m), p2 + du.len() as int),
    ));
    assert(spec_expect(s, p2 + du.len() as int, '}') == Ok::<int, ParseError>(e));
}

/// A right-folded `AnyOf` chain over well-formed items is well-formed.
proof fn lemma_anyof_chain_wf(items: Seq<Regex>)
    requires
        forall|i: int| 0 <= i < items.len() ==> crate::ast::wf(#[trigger] items[i]),
    ensures
        crate::ast::wf(crate::ast::anyof_chain(items)),
        crate::ast::anyof_chain(items) is AnyOf || crate::ast::anyof_chain(items) is Tail,
    decreases items.len(),
{
    if items.len() > 0 {
        assert(crate::ast::wf(items[0]));
        assert forall|i: int| 0 <= i < items.drop_first().len() implies crate::ast::wf(
            #[trigger] items.drop_first()[i],
        ) by {
            assert(items.drop_first()[i] == items[i + 1]);
        }
        lemma_anyof_chain_wf(items.drop_first());
    }
}

/// A right-folded `Sequence` chain over well-formed items is well-formed.
proof fn lemma_sequence_chain_wf(items: Seq<Regex>)
    requires
        forall|i: int| 0 <= i < items.len() ==> crate::ast::wf(#[trigger] items[i]),
    ensures
        crate::ast::wf(crate::ast::sequence_chain(items)),
        crate::ast::sequence_chain(items) is Sequence || crate::ast::sequence_chain(items) is Tail,
    decreases items.len(),
{
    if items.len() > 0 {
        assert(crate::ast::wf(items[0]));
        assert forall|i: int| 0 <= i < items.drop_first().len() implies crate::ast::wf(
            #[trigger] items.drop_first()[i],
        ) by {
            assert(items.drop_first()[i] == items[i + 1]);
        }
        lemma_sequence_chain_wf(items.drop_first());
    }
}

/// Whatever the grammar accepts is structurally well-formed: chains are
/// uniform and end in `Tail`.
pub proof fn lemma_parse_wf(s: Seq<char>)
    ensures
        spec_parse(s) matches Ok(t) ==> crate::ast::wf(t),
{
    lemma_expr_list_wf(s, 0);
}

proof fn lemma_expr_list_wf(s: Seq<char>, pos: int)
    ensures
        spec_expr_list(s, pos) matches Ok((t, _)) ==> crate::ast::wf(t),
    decreases s.len() - pos, 7int,
{
    lemma_alt_items_wf(s, pos);
    match spec_alt_items(s, pos) {
        Ok((items, _)) => {
            if items.len() == 1 {
                assert(crate::ast::wf(items[0]));
            } else {
                lemma_anyof_chain_wf(items);
            }
        }
        Err(_) => {}
    }
}

proof fn lemma_alt_items_wf(s: Seq<char>, pos: int)
    ensures
        spec_alt_items(s, pos) matches Ok((items, _)) ==> forall|i: int|
            0 <= i < items.len() ==> crate::ast::wf(#[trigger] items[i]),
    decreases s.len() - pos, 5int,
{
    if 0 <= pos <= s.len() {
        lemma_expr_seq_wf(s, pos);
        match spec_expr_seq(s, pos) {
            Err(_) => {}
            Ok((node, p0)) => {
                let p = forward(p0, pos, s.len() as int);
                if p < s.len() && s[p] == '|' {
                    lemma_alt_items_wf(s, p + 1);
                    match spec_alt_items(s, p + 1) {
                        Err(_) => {}
                        Ok((rest, _)) => {
                            let items = seq![node] + rest;
                            assert forall|i: int| 0 <= i < items.len() implies crate::ast::wf(
                                #[trigger] items[i],
                            ) by {
                                if i > 0 {
                                    assert(items[i] == rest[i - 1]);
                                }
                            }
                        }
                    }
                }
            }
        }
    }
}

proof fn lemma_expr_seq_wf(s: Seq<char>, pos: int)
    ensures
        spec_expr_seq(s, pos) matches Ok((t, _)) ==> crate::ast::wf(t),
    decreases s.len() - pos, 4int,
{
    lemma_seq_items_wf(s, pos);
    match spec_seq_items(s, pos) {
        Ok((items, _)) => {
            if items.len() == 1 {
                assert(crate::ast::wf(items[0]));
            } else {
                lemma_sequence_chain_wf(items);
            }
        }
        Err(_) => {}
    }
}

proof fn lemma_seq_items_wf(s: Seq<char>, pos: int)
    ensures
        spec_seq_items(s, pos) matches Ok((items, _)) ==> forall|i: int|
            0 <= i < items.len() ==> crate::ast::wf(#[trigger] items[i]),
    decreases s.len() - pos, 3int,
{
    if 0 <= pos <= s.len() {
        lemma_term_wf(s, pos);
        match spec_term(s, pos) {
            Err(_) => {}
            Ok((None, _)) => {}
            Ok((Some(t), p0)) => {
                let p = forward(p0, pos + 1, s.len() as int);
                match spec_quantified(s, p, t) {
                    Err(_) => {}
                    Ok((item, q0)) => {
                        assert(crate::ast::wf(item));
                        let q = forward(q0, p, s.len() as int);
                        if q > pos {
                            lemma_seq_items_wf(s, q);
                            match spec_seq_items(s, q) {
                                Err(_) => {}
                                Ok((rest, _)) => {
                                    let items = seq![item] + rest;
                                    assert forall|i: int| 0 <= i < items.len() implies crate::ast::wf(
                                        #[trigger] items[i],
                                    ) by {
                                        if i > 0 {
                                            assert(items[i] == rest[i - 1]);
                                        }
                                    }
                                }
                            }
                        }
                    }
                }
            }
        }
    }
}

proof fn lemma_term_wf(s: Seq<char>, pos: int)
    ensures
        spec_term(s, pos) matches Ok((Some(t), _)) ==> crate::ast::wf(t),
    decreases s.len() - pos, 2int,
{
    if 0 <= pos <= s.len() {
        if pos < s.len() && s[pos] == '(' {
            lemma_expr_list_wf(s, pos + 1);
        } else if pos < s.len() && s[pos] == '[' {
            lemma_class_items_wf(s, pos + 1);
            match spec_class_items(s, pos + 1) {
                Err(_) => {}
                Ok((items, _)) => {
                    if items.len() == 1 {
                        assert(crate::ast::wf(items[0]));
                    } else {
                        lemma_anyof_chain_wf(items);
                    }
                }
            }
        }
    }
}

proof fn lemma_class_items_wf(s: Seq<char>, pos: int)
    ensures
        spec_class_items(s, pos) matches Ok((items, _)) ==> forall|i: int|
            0 <= i < items.len() ==> crate::ast::wf(#[trigger] items[i]),
    decreases s.len() - pos, 1int,
{
    if 0 <= pos <= s.len() {
        match spec_char(s, pos) {
            Err(_) => {}
            Ok((None, _)) => {}
            Ok((Some(c), p)) => {
                lemma_class_items_wf(s, p);
                match spec_class_items(s, p) {
                    Err(_) => {}
                    Ok((rest, _)) => {
                        let items = seq![c] + rest;
                        assert forall|i: int| 0 <= i < items.len() implies crate::ast::wf(
                            #[trigger] items[i],
                        ) by {
                            if i > 0 {
                                assert(items[i] == rest[i - 1]);
                            }
                        }
                    }
                }
            }
        }
    }
}

/// A right-folded `AnyOf` chain over items with sound bounds has sound
/// bounds.
proof fn lemma_anyof_chain_bounds(items: Seq<Regex>)
    requires
        forall|i: int| 0 <= i < items.len() ==> crate::ast::bounds_ok(#[trigger] items[i]),
    ensures
        crate::ast::bounds_ok(crate::ast::anyof_chain(items)),
    decreases items.len(),
{
    if items.len() > 0 {
        assert(crate::ast::bounds_ok(items[0]));
        assert forall|i: int| 0 <= i < items.drop_first().len() implies crate::ast::bounds_ok(
            #[trigger] items.drop_first()[i],
        ) by {
            assert(items.drop_first()[i] == items[i + 1]);
        }
        lemma_anyof_chain_bounds(items.drop_first());
    }
}

/// A right-folded `Sequence` chain over items with sound bounds has sound
/// bounds.
proof fn lemma_sequence_chain_bounds(items: Seq<Regex>)
    requires
        forall|i: int| 0 <= i < items.len() ==> crate::ast::bounds_ok(#[trigger] items[i]),
    ensures
        crate::ast::bounds_ok(crate::ast::sequence_chain(items)),
    decreases items.len(),
{
    if items.len() > 0 {
        assert(crate::ast::bounds_ok(items[0]));
        assert forall|i: int| 0 <= i < items.drop_first().len() implies crate::ast::bounds_ok(
            #[trigger] items.drop_first()[i],
        ) by {
            assert(items.drop_first()[i] == items[i + 1]);
        }
        lemma_sequence_chain_bounds(items.drop_first());
    }
}

/// Whatever the grammar accepts satisfies the repeat-bounds invariant:
/// `min <= max` wherever a bound is given. The generation precondition's
/// bounded case therefore holds of every parsed tree.
pub proof fn lemma_parse_bounds(s: Seq<char>)
    ensures
        spec_parse(s) matches Ok(t) ==> crate::ast::bounds_ok(t),
{
    lemma_expr_list_bounds(s, 0);
}

proof fn lemma_expr_list_bounds(s: Seq<char>, pos: int)
    ensures
        spec_expr_list(s, pos) matches Ok((t, _)) ==> crate::ast::bounds_ok(t),
    decreases s.len() - pos, 7int,
{
    lemma_alt_items_bounds(s, pos);
    match spec_alt_items(s, pos) {
        Ok((items, _)) => {
            if items.len() == 1 {
                assert(crate::ast::bounds_ok(items[0]));
            } else {
                lemma_anyof_chain_bounds(items);
            }
        }
        Err(_) => {}
    }
}

proof fn lemma_alt_items_bounds(s: Seq<char>, pos: int)
    ensures
        spec_alt_items(s, pos) matches Ok((items, _)) ==> forall|i: int|
            0 <= i < items.len() ==> crate::ast::bounds_ok(#[trigger] items[i]),
    decreases s.len() - pos, 5int,
{
    if 0 <= pos <= s.len() {
        lemma_expr_seq_bounds(s, pos);
        match spec_expr_seq(s, pos) {
            Err(_) => {}
            Ok((node, p0)) => {
                let p = forward(p0, pos, s.len() as int);
                if p < s.len() && s[p] == '|' {
                    lemma_alt_items_bounds(s, p + 1);
                    match spec_alt_items(s, p + 1) {
                        Err(_) => {}
                        Ok((rest, _)) => {
                            let items = seq![node] + rest;
                            assert forall|i: int| 0 <= i < items.len() implies crate::ast::bounds_ok(
                                #[trigger] items[i],
                            ) by {
                                if i > 0 {
                                    assert(items[i] == rest[i - 1]);
                                }
                            }
                        }
                    }
                }
            }
        }
    }
}

proof fn lemma_expr_seq_bounds(s: Seq<char>, pos: int)
    ensures
        spec_expr_seq(s, pos) matches Ok((t, _)) ==> crate::ast::bounds_ok(t),
    decreases s.len() - pos, 4int,
{
    lemma_seq_items_bounds(s, pos);
    match spec_seq_items(s, pos) {
        Ok((items, _)) => {
            if items.len() == 1 {
                assert(crate::ast::bounds_ok(items[0]));
            } else {
                lemma_sequence_chain_bounds(items);
            }
        }
        Err(_) => {}
    }
}

proof fn lemma_seq_items_bounds(s: Seq<char>, pos: int)
    ensures
        spec_seq_items(s, pos) matches Ok((items, _)) ==> forall|i: int|
            0 <= i < items.len() ==> crate::ast::bounds_ok(#[trigger] items[i]),
    decreases s.len() - pos, 3int,
{
    if 0 <= pos <= s.len() {
        lemma_term_bounds(s, pos);
        match spec_term(s, pos) {
            Err(_) => {}
            Ok((None, _)) => {}
            Ok((Some(t), p0)) => {
                let p = forward(p0, pos + 1, s.len() as int);
                match spec_quantified(s, p, t) {
                    Err(_) => {}
                    Ok((item, q0)) => {
                        assert(crate::ast::bounds_ok(item));
                        let q = forward(q0, p, s.len() as int);
                        if q > pos {
                            lemma_seq_items_bounds(s, q);
                            match spec_seq_items(s, q) {
                                Err(_) => {}
                                Ok((rest, _)) => {
                                    let items = seq![item] + rest;
                                    assert forall|i: int| 0 <= i < items.len() implies crate::ast::bounds_ok(
                                        #[trigger] items[i],
                                    ) by {
                                        if i > 0 {
                                            assert(items[i] == rest[i - 1]);
                                        }
                                    }
                                }
                            }
                        }
                    }
                }
            }
        }
    }
}

proof fn lemma_term_bounds(s: Seq<char>, pos: int)
    ensures
        spec_term(s, pos) matches Ok((Some(t), _)) ==> crate::ast::bounds_ok(t),
    decreases s.len() - pos, 2int,
{
    if 0 <= pos <= s.len() {
        if pos < s.len() && s[pos] == '(' {
            lemma_expr_list_bounds(s, pos + 1);
        } else if pos < s.len() && s[pos] == '[' {
            lemma_class_items_bounds(s, pos + 1);
            match spec_class_items(s, pos + 1) {
                Err(_) => {}
                Ok((items, _)) => {
                    if items.len() == 1 {
                        assert(crate::ast::bounds_ok(items[0]));
                    } else {
                        lemma_anyof_chain_bounds(items);
                    }
                }
            }
        }
    }
}

proof fn lemma_class_items_bounds(s: Seq<char>, pos: int)
    ensures
        spec_class_items(s, pos) matches Ok((items, _)) ==> forall|i: int|
            0 <= i < items.len() ==> crate::ast::bounds_ok(#[trigger] items[i]),
    decreases s.len() - pos, 1int,
{
    if 0 <= pos <= s.len() {
        match spec_char(s, pos) {
            Err(_) => {}
            Ok((None, _)) => {}
            Ok((Some(c), p)) => {
                lemma_class_items_bounds(s, p);
                match spec_class_items(s, p) {
                    Err(_) => {}
                    Ok((rest, _)) => {
                        let items = seq![c] + rest;
                        assert forall|i: int| 0 <= i < items.len() implies crate::ast::bounds_ok(
                            #[trigger] items[i],
                        ) by {
                            if i > 0 {
                                assert(items[i] == rest[i - 1]);
                            }
                        }
                    }
                }
            }
        }
    }
}

/// The executable step agrees with its specification twin: same error, or
/// same value with the same in-range continuation position.
pub open spec fn agrees<T>(
    r: Result<(T, usize), ParseError>,
    sr: Result<(T, int), ParseError>,
    lo: int,
    len: int,
) -> bool {
    match (r, sr) {
        (Ok((v, p)), Ok((sv, sp))) => v == sv && p as int == sp && lo <= p as int <= len,
        (Err(e), Err(se)) => e == se,
        _ => false,
    }
}

/// As `agrees`, for a list-valued step.
pub open spec fn agrees_vec<T>(
    r: Result<(Vec<T>, usize), ParseError>,
    sr: Result<(Seq<T>, int), ParseError>,
    lo: int,
    len: int,
) -> bool {
    match (r, sr) {
        (Ok((v, p)), Ok((sv, sp))) => v@ == sv && p as int == sp && lo <= p as int <= len,
        (Err(e), Err(se)) => e == se,
        _ => false,
    }
}

/// Parses `CHAR`.
fn parse_char(chars: &Vec<char>, pos: usize) -> (r: Result<(Option<Regex>, usize), ParseError>)
    requires
        pos <= chars@.len(),
    ensures
        agrees(r, spec_char(chars@, pos as int), pos as int, chars@.len() as int),
        (match r {
            Ok((Some(_), p)) => pos < p,
            _ => true,
        }),
{
    if pos >= chars.len() {
        return Ok((None, pos));
    }
    let c = chars[pos];
    match c {
        '+' | '?' | '*' | '(' | ')' | '[' | ']' | '{' | '}' | '|' => Ok((None, pos)),
        '.' => Ok((Some(Regex::Literal(Char::Any)), pos + 1)),
        '\\' => {
            if pos + 1 >= chars.len() {
                return Err(ParseError::UnexpectedEos);
            }
            let e = chars[pos + 1];
            match e {
                'd' => Ok((Some(Regex::Literal(Char::Number)), pos + 2)),
                'w' => Ok((Some(Regex::Literal(Char::Alphabet)), pos + 2)),
                _ => Ok((Some(Regex::Literal(Char::Just(e))), pos + 2)),
            }
        }
        _ => Ok((Some(Regex::Literal(Char::Just(c))), pos + 1)),
    }
}

/// Expects a specific delimiter at `pos`.
pub fn expect_char(chars: &Vec<char>, pos: usize, c: char) -> (r: Result<usize, ParseError>)
    requires
        pos <= chars@.len(),
    ensures
        (match (r, spec_expect(chars@, pos as int, c)) {
            (Ok(p), Ok(sp)) => p as int == sp && pos < p <= chars@.len(),
            (Err(e), Err(se)) => e == se,
            _ => false,
        }),
{
    if pos >= chars.len() {
        return Err(ParseError::UnexpectedEos);
    }
    let actual = chars[pos];
    if actual == c {
        Ok(pos + 1)
    } else {
        Err(ParseError::UnexpectedChar { expected: c, actual })
    }
}

/// The numeric value of a digit character.
fn digit_of(c: char) -> (d: usize)
    requires
        is_digit(c),
    ensures
        d == digit_val(c),
{
    match c {
        '0' => 0,
        '1' => 1,
        '2' => 2,
        '3' => 3,
        '4' => 4,
        '5' => 5,
        '6' => 6,
        '7' => 7,
        '8' => 8,
        _ => 9,
    }
}

/// Parses a possibly-empty number before a `,` or `}` delimiter.
pub fn parse_number(chars: &Vec<char>, pos: usize) -> (r: Result<(Option<usize>, usize), ParseError>)
    requires
        pos <= chars@.len(),
    ensures
        agrees(r, spec_number(chars@, pos as int), pos as int, chars@.len() as int),
{
    let ghost s = chars@;
    let mut i = pos;
    let mut acc: usize = 0;
    let mut over = false;
    loop
        invariant
            pos <= i <= s.len(),
            s == chars@,
            digit_run_end(s, pos as int) == digit_run_end(s, i as int),
            !over ==> acc as nat == digits_val(s.subrange(pos as int, i as int)),
            over ==> digits_val(s.subrange(pos as int, i as int)) > usize::MAX,
        decreases s.len() - i,
    {
        if i >= chars.len() {
            return Err(ParseError::UnexpectedEos);
        }
        let c = chars[i];
        if '0' <= c && c <= '9' {
            let d = digit_of(c);
            proof {
                assert(is_digit(s[i as int]));
                assert(s.subrange(pos as int, i + 1).drop_last() =~= s.subrange(pos as int, i as int));
                assert(s.subrange(pos as int, i + 1).last() == s[i as int]);
            }
            let limit = (usize::MAX - d) / 10;
            if over || acc > limit {
                proof {
                    if !over {
                        let m = usize::MAX as int;
                        let x = m - d;
                        assert(x == 10 * (x / 10) + x % 10) by {
                            vstd::arithmetic::div_mod::lemma_fundamental_div_mod(x, 10);
                        };
                        assert(0 <= x % 10 < 10) by {
                            vstd::arithmetic::div_mod::lemma_mod_bound(x, 10);
                        };
                        assert(acc * 10 + d > m);
                    }
                }
                over = true;
            } else {
                proof {
                    let m = usize::MAX as int;
                    let x = m - d;
                    assert(x == 10 * (x / 10) + x % 10) by {
                        vstd::arithmetic::div_mod::lemma_fundamental_div_mod(x, 10);
                    };
                    assert(0 <= x % 10 < 10) by {
                        vstd::arithmetic::div_mod::lemma_mod_bound(x, 10);
                    };
                    assert(acc * 10 + d <= m);
                }
                acc = acc * 10 + d;
            }
            i = i + 1;
        } else if c == ',' || c == '}' {
            assert(digit_run_end(s, i as int) == i as int);
            if i == pos {
                return Ok((None, i));
            }
            if over {
                return Err(ParseError::ShouldEscape);
            }
            return Ok((Some(acc), i));
        } else {
            assert(digit_run_end(s, i as int) == i as int);
            return Err(ParseError::UnexpectedChar { expected: '0', actual: c });
        }
    }
}

/// Parses the optional postfix quantifier and applies it to `t`.
fn parse_quantified(chars: &Vec<char>, pos: usize, t: Regex) -> (r: Result<(Regex, usize), ParseError>)
    requires
        pos <= chars@.len(),
    ensures
        agrees(r, spec_quantified(chars@, pos as int, t), pos as int, chars@.len() as int),
{
    if pos < chars.len() {
        let c = chars[pos];
        if c == '+' {
            return Ok((Regex::Repeat { expr: Box::new(t), min: 1, max: None }, pos + 1));
        }
        if c == '*' {
            return Ok((Regex::Repeat { expr: Box::new(t), min: 0, max: None }, pos + 1));
        }
        if c == '?' {
            return Ok((Regex::Repeat { expr: Box::new(t), min: 0, max: Some(1) }, pos + 1));
        }
        if c == '{' {
            let (lower_opt, p1) = match parse_number(chars, pos + 1) {
                Ok(v) => v,
                Err(e) => {
                    return Err(e);
                }
            };
            let lower = match lower_opt {
                Some(n) => n,
                None => 0,
            };
            if p1 >= chars.len() {
                return Err(ParseError::UnexpectedEos);
            }
            let sep = chars[p1];
            if sep == ',' {
                let (upper, p2) = match parse_number(chars, p1 + 1) {
                    Ok(v) => v,
                    Err(e) => {
                        return Err(e);
                    }
                };
                let p3 = match expect_char(chars, p2, '}') {
                    Ok(v) => v,
                    Err(e) => {
                        return Err(e);
                    }
                };
                let bound_ok = match upper {
                    Some(u) => lower <= u,
                    None => true,
                };
                if !bound_ok {
                    return Err(ParseError::ShouldEscape);
                }
                return Ok((Regex::Repeat { expr: Box::new(t), min: lower, max: upper }, p3));
            }
            if sep == '}' {
                return Ok((Regex::Repeat { expr: Box::new(t), min: lower, max: Some(lower) }, p1 + 1));
            }
            return Err(ParseError::ShouldEscape);
        }
    }
    Ok((t, pos))
}

/// Parses `EXPRLIST`.
fn parse_expr_list(chars: &Vec<char>, pos: usize) -> (r: Result<(Regex, usize), ParseError>)
    requires
        pos <= chars@.len(),
    ensures
        agrees(r, spec_expr_list(chars@, pos as int), pos as int, chars@.len() as int),
    decreases chars@.len() - pos, 6int,
{
    match parse_alt_items(chars, pos) {
        Err(e) => Err(e),
        Ok((items, p)) => Ok((Regex::anyof_from_iter(items), p)),
    }
}

/// Parses the `|`-separated alternatives of an `EXPRLIST`.
fn parse_alt_items(chars: &Vec<char>, pos: usize) -> (r: Result<(Vec<Regex>, usize), ParseError>)
    requires
        pos <= chars@.len(),
    ensures
        agrees_vec(r, spec_alt_items(chars@, pos as int), pos as int, chars@.len() as int),
    decreases chars@.len() - pos, 5int,
{
    let (node, p) = match parse_expr_seq(chars, pos) {
        Ok(v) => v,
        Err(e) => {
            return Err(e);
        }
    };
    if p < chars.len() && chars[p] == '|' {
        let (rest, p2) = match parse_alt_items(chars, p + 1) {
            Ok(v) => v,
            Err(e) => {
                return Err(e);
            }
        };
        let mut items = rest;
        let ghost tail_seq = items@;
        items.insert(0, node);
        assert(items@ =~= seq![node] + tail_seq);
        Ok((items, p2))
    } else {
        let mut items: Vec<Regex> = Vec::new();
        items.push(node);
        assert(items@ =~= seq![node]);
        Ok((items, p))
    }
}

/// Parses `EXPRSEQ`.
fn parse_expr_seq(chars: &Vec<char>, pos: usize) -> (r: Result<(Regex, usize), ParseError>)
    requires
        pos <= chars@.len(),
    ensures
        agrees(r, spec_expr_seq(chars@, pos as int), pos as int, chars@.len() as int),
    decreases chars@.len() - pos, 4int,
{
    match parse_seq_items(chars, pos) {
        Err(e) => Err(e),
        Ok((items, p)) => Ok((Regex::sequence_from_iter(items), p)),
    }
}

/// Parses the quantified terms of an `EXPRSEQ`.
fn parse_seq_items(chars: &Vec<char>, pos: usize) -> (r: Result<(Vec<Regex>, usize), ParseError>)
    requires
        pos <= chars@.len(),
    ensures
        agrees_vec(r, spec_seq_items(chars@, pos as int), pos as int, chars@.len() as int),
    decreases chars@.len() - pos, 3int,
{
    let (t_opt, p0) = match parse_term(chars, pos) {
        Ok(v) => v,
        Err(e) => {
            return Err(e);
        }
    };
    let t = match t_opt {
        None => {
            let items: Vec<Regex> = Vec::new();
            assert(items@ =~= Seq::<Regex>::empty());
            return Ok((items, p0));
        }
        Some(t) => t,
    };
    let (item, q) = match parse_quantified(chars, p0, t) {
        Ok(v) => v,
        Err(e) => {
            return Err(e);
        }
    };
    let (rest, p2) = match parse_seq_items(chars, q) {
        Ok(v) => v,
        Err(e) => {
            return Err(e);
        }
    };
    let mut items = rest;
    let ghost tail_seq = items@;
    items.insert(0, item);
    assert(items@ =~= seq![item] + tail_seq);
    Ok((items, p2))
}

/// Parses `TERM`.
fn parse_term(chars: &Vec<char>, pos: usize) -> (r: Result<(Option<Regex>, usize), ParseError>)
    requires
        pos <= chars@.len(),
    ensures
        agrees(r, spec_term(chars@, pos as int), pos as int, chars@.len() as int),
        (match r {
            Ok((Some(_), p)) => pos < p,
            _ => true,
        }),
    decreases chars@.len() - pos, 2int,
{
    if pos < chars.len() && chars[pos] == '(' {
        let (node, p0) = match parse_expr_list(chars, pos + 1) {
            Ok(v) => v,
            Err(e) => {
                return Err(e);
            }
        };
        let p2 = match expect_char(chars, p0, ')') {
            Ok(v) => v,
            Err(e) => {
                return Err(e);
            }
        };
        return Ok((Some(node), p2));
    }
    if pos < chars.len() && chars[pos] == '[' {
        let (items, p0) = match parse_class_items(chars, pos + 1) {
            Ok(v) => v,
            Err(e) => {
                return Err(e);
            }
        };
        let p2 = match expect_char(chars, p0, ']') {
            Ok(v) => v,
            Err(e) => {
                return Err(e);
            }
        };
        return Ok((Some(Regex::anyof_from_iter(items)), p2));
    }
    parse_char(chars, pos)
}

/// Parses the characters of a `[...]` class.
fn parse_class_items(chars: &Vec<char>, pos: usize) -> (r: Result<(Vec<Regex>, usize), ParseError>)
    requires
        pos <= chars@.len(),
    ensures
        agrees_vec(r, spec_class_items(chars@, pos as int), pos as int, chars@.len() as int),
    decreases chars@.len() - pos, 1int,
{
    let (c_opt, p) = match parse_char(chars, pos) {
        Ok(v) => v,
        Err(e) => {
            return Err(e);
        }
    };
    match c_opt {
        None => {
            let items: Vec<Regex> = Vec::new();
            assert(items@ =~= Seq::<Regex>::empty());
            Ok((items, p))
        }
        Some(c) => {
            let (rest, p2) = match parse_class_items(chars, p) {
                Ok(v) => v,
                Err(e) => {
                    return Err(e);
                }
            };
            let mut items = rest;
            let ghost tail_seq = items@;
            items.insert(0, c);
            assert(items@ =~= seq![c] + tail_seq);
            Ok((items, p2))
        }
    }
}

/// Relies on `str::chars` and `Iterator` collection into a `Vec`: the result
/// holds exactly the string's characters, in order.
#[verifier::external_body]
fn str_to_chars(s: &str) -> (v: Vec<char>)
    ensures
        v@ == s@,
{
    s.chars().collect()
}

/// The pattern parser. An instance performs at most one parse.
pub struct Parser {
    in_use: bool,
}

impl Parser {
    /// Has this instance already begun a parse?
    pub closed spec fn spec_in_use(&self) -> bool {
        self.in_use
    }

    /// Creates a new parser instance.
    pub fn new() -> (p: Parser)
        ensures
            !p.spec_in_use(),
    {
        Parser { in_use: false }
    }

    /// Parses a pattern. A fresh instance returns exactly what the grammar
    /// gives for the input; a used instance refuses with `AlreadyInUse`.
    pub fn parse(&mut self, re: &str) -> (r: Result<Regex, ParseError>)
        ensures
            old(self).spec_in_use() ==> r == Err::<Regex, ParseError>(ParseError::AlreadyInUse),
            !old(self).spec_in_use() ==> r == spec_parse(re@),
            final(self).spec_in_use(),
    {
        if self.in_use {
            return Err(ParseError::AlreadyInUse);
        }
        self.in_use = true;
        let chars = str_to_chars(re);
        match parse_expr_list(&chars, 0) {
            Err(e) => Err(e),
            Ok((node, p)) => {
                if p == chars.len() {
                    Ok(node)
                } else {
                    Err(ParseError::ShouldEscape)
                }
            }
        }
    }
}

} // verus!
