//! The canonicalizing renderer: turns a pattern tree back into the shortest
//! unambiguous textual form.

use vstd::prelude::*;

use crate::ast::Char;
use crate::ast::Regex;
use crate::ast::is_special;
use crate::ast::spec_only_literals;

verus! {

/// The decimal digit `d` as a character.
pub open spec fn digit_char(d: nat) -> char {
    if d == 0 { '0' }
    else if d == 1 { '1' }
    else if d == 2 { '2' }
    else if d == 3 { '3' }
    else if d == 4 { '4' }
    else if d == 5 { '5' }
    else if d == 6 { '6' }
    else if d == 7 { '7' }
    else if d == 8 { '8' }
    else { '9' }
}

/// The decimal digits of `n`, most significant first.
pub open spec fn dec_digits(n: nat) -> Seq<char>
    decreases n,
{
    if n < 10 {
        seq![digit_char(n)]
    } else {
        dec_digits(n / 10) + seq![digit_char(n % 10)]
    }
}

/// Does a specific character need an escape to stand for itself in pattern
/// text? True of the structural characters, of the any-char marker `.`, and
/// of the escape character itself.
pub open spec fn needs_escape(c: char) -> bool {
    is_special(c) || c == '.' || c == '\\'
}

/// The canonical spelling of a character class. A specific character that
/// would read as structure is spelled behind an escape, so that every
/// spelling re-reads as the class it came from.
pub open spec fn char_canon(c: Char) -> Seq<char> {
    match c {
        Char::Just(x) => if needs_escape(x) {
            seq!['\\', x]
        } else {
            seq![x]
        },
        Char::Alphabet => seq!['\\', 'w'],
        Char::Number => seq!['\\', 'd'],
        Char::Any => seq!['.'],
    }
}

/// The shortest canonical quantifier suffix for bounds `(min, max)`.
pub open spec fn quant_suffix(min: usize, max: Option<usize>) -> Seq<char> {
    match max {
        Option::Some(m) => {
            if min == 0 && m == 1 { seq!['?'] }
            else if min == 1 && m == 1 { Seq::empty() }
            else if min == 0 { seq!['{', ','] + dec_digits(m as nat) + seq!['}'] }
            else if min == m { seq!['{'] + dec_digits(min as nat) + seq!['}'] }
            else { seq!['{'] + dec_digits(min as nat) + seq![','] + dec_digits(m as nat) + seq!['}'] }
        }
        Option::None => {
            if min == 0 { seq!['*'] }
            else if min == 1 { seq!['+'] }
            else { seq!['{'] + dec_digits(min as nat) + seq![',', '}'] }
        }
    }
}

/// The canonical rendering of a pattern.
pub open spec fn spec_render(r: Regex) -> Seq<char>
    decreases r, 1int,
{
    match r {
        Regex::Tail => Seq::empty(),
        Regex::Literal(c) => char_canon(c),
        Regex::Sequence { head, rest } => seq_elem_text(*head) + spec_render(*rest),
        Regex::AnyOf { head, rest } => {
            if spec_only_literals(r) {
                seq!['['] + class_body(r) + seq![']']
            } else {
                spec_render(*head) + alt_tail(*rest)
            }
        }
        Regex::Repeat { expr, min, max } => repeat_inner(*expr) + quant_suffix(min, max),
    }
}

/// A sequence element as it stands inside the chain: a pipe-joined
/// alternation takes parentheses, so that its bars do not swallow the
/// neighbouring elements on a re-parse; everything else renders plain.
pub open spec fn seq_elem_text(x: Regex) -> Seq<char>
    decreases x, 2int,
{
    match x {
        Regex::AnyOf { .. } => {
            if spec_only_literals(x) {
                spec_render(x)
            } else {
                seq!['('] + spec_render(x) + seq![')']
            }
        }
        _ => spec_render(x),
    }
}

/// Body of a bracket class: the chain's literal items, concatenated.
pub open spec fn class_body(r: Regex) -> Seq<char>
    decreases r, 0int,
{
    match r {
        Regex::Tail => Seq::empty(),
        Regex::Literal(c) => char_canon(c),
        Regex::AnyOf { head, rest } => spec_render(*head) + class_body(*rest),
        _ => Seq::empty(),
    }
}

/// The remaining alternatives of a pipe-joined chain, each preceded by `|`.
pub open spec fn alt_tail(r: Regex) -> Seq<char>
    decreases r, 2int,
{
    match r {
        Regex::Tail => Seq::empty(),
        Regex::AnyOf { head, rest } => seq!['|'] + spec_render(*head) + alt_tail(*rest),
        _ => seq!['|'] + spec_render(r),
    }
}

/// A `Repeat`'s inner pattern, parenthesized where re-parsing needs it: a
/// sequence, a pipe-joined alternation, and a nested repeat all take parens,
/// so that the following quantifier binds to the whole inner pattern again.
pub open spec fn repeat_inner(e: Regex) -> Seq<char>
    decreases e, 2int,
{
    match e {
        Regex::Tail => seq!['(', ')'],
        Regex::Literal(c) => char_canon(c),
        Regex::Sequence { .. } => seq!['('] + spec_render(e) + seq![')'],
        Regex::AnyOf { .. } => {
            if spec_only_literals(e) {
                spec_render(e)
            } else {
                seq!['('] + spec_render(e) + seq![')']
            }
        }
        Regex::Repeat { .. } => seq!['('] + spec_render(e) + seq![')'],
    }
}

/// Relies on `String`'s `FromIterator` impl: collecting characters yields the
/// string of exactly those characters, in order.
#[verifier::external_body]
pub(crate) fn chars_to_string(v: &Vec<char>) -> (s: String)
    ensures
        s@ == v@,
{
    v.iter().collect()
}

/// The decimal digit `d` as a character.
fn digit_char_of(d: usize) -> (c: char)
    requires
        d < 10,
    ensures
        c == digit_char(d as nat),
{
    match d {
        0 => '0',
        1 => '1',
        2 => '2',
        3 => '3',
        4 => '4',
        5 => '5',
        6 => '6',
        7 => '7',
        8 => '8',
        _ => '9',
    }
}

/// Appends the decimal digits of `n`.
fn push_dec(n: usize, out: &mut Vec<char>)
    ensures
        final(out)@ == old(out)@ + dec_digits(n as nat),
    decreases n,
{
    if n < 10 {
        out.push(digit_char_of(n));
    } else {
        push_dec(n / 10, out);
        out.push(digit_char_of(n % 10));
        assert(out@ =~= old(out)@ + dec_digits(n as nat));
    }
}

/// Must this specific character be escaped in pattern text?
fn must_escape(c: char) -> (b: bool)
    ensures
        b == needs_escape(c),
{
    match c {
        '+' | '?' | '*' | '(' | ')' | '[' | ']' | '{' | '}' | '|' | '.' | '\\' => true,
        _ => false,
    }
}

/// Appends the canonical spelling of a character class.
fn push_char_canon(c: &Char, out: &mut Vec<char>)
    ensures
        final(out)@ == old(out)@ + char_canon(*c),
{
    match c {
        Char::Just(x) => {
            if must_escape(*x) {
                out.push('\\');
            }
            out.push(*x);
        }
        Char::Alphabet => {
            out.push('\\');
            out.push('w');
        }
        Char::Number => {
            out.push('\\');
            out.push('d');
        }
        Char::Any => {
            out.push('.');
        }
    }
    assert(out@ =~= old(out)@ + char_canon(*c));
}

/// Appends the canonical quantifier suffix.
fn push_quant(min: usize, max: Option<usize>, out: &mut Vec<char>)
    ensures
        final(out)@ == old(out)@ + quant_suffix(min, max),
{
    match max {
        Option::Some(m) => {
            if min == 0 && m == 1 {
                out.push('?');
            } else if min == 1 && m == 1 {
            } else if min == 0 {
                out.push('{');
                out.push(',');
                push_dec(m, out);
                out.push('}');
            } else if min == m {
                out.push('{');
                push_dec(min, out);
                out.push('}');
            } else {
                out.push('{');
                push_dec(min, out);
                out.push(',');
                push_dec(m, out);
                out.push('}');
            }
        }
        Option::None => {
            if min == 0 {
                out.push('*');
            } else if min == 1 {
                out.push('+');
            } else {
                out.push('{');
                push_dec(min, out);
                out.push(',');
                out.push('}');
            }
        }
    }
    assert(out@ =~= old(out)@ + quant_suffix(min, max));
}

/// Appends the canonical rendering of `r`.
fn render_into(r: &Regex, out: &mut Vec<char>)
    ensures
        final(out)@ == old(out)@ + spec_render(*r),
    decreases *r, 1int,
{
    match r {
        Regex::Tail => {
            assert(out@ =~= old(out)@ + spec_render(*r));
        }
        Regex::Literal(c) => {
            push_char_canon(c, out);
        }
        Regex::AnyOf { head, rest } => {
            if r.has_only_literals() {
                out.push('[');
                class_into(r, out);
                out.push(']');
            } else {
                render_into(&**head, out);
                alt_tail_into(&**rest, out);
            }
            assert(out@ =~= old(out)@ + spec_render(*r));
        }
        Regex::Sequence { head, rest } => {
            seq_elem_into(&**head, out);
            render_into(&**rest, out);
            assert(out@ =~= old(out)@ + spec_render(*r));
        }
        Regex::Repeat { expr, min, max } => {
            repeat_inner_into(&**expr, out);
            push_quant(*min, *max, out);
            assert(out@ =~= old(out)@ + spec_render(*r));
        }
    }
}

/// Appends a sequence element, parenthesized where the chain needs it.
fn seq_elem_into(x: &Regex, out: &mut Vec<char>)
    ensures
        final(out)@ == old(out)@ + seq_elem_text(*x),
    decreases *x, 2int,
{
    match x {
        Regex::AnyOf { .. } => {
            if x.has_only_literals() {
                render_into(x, out);
            } else {
                out.push('(');
                render_into(x, out);
                out.push(')');
            }
            assert(out@ =~= old(out)@ + seq_elem_text(*x));
        }
        _ => {
            render_into(x, out);
        }
    }
}

/// Appends the body of a bracket class.
fn class_into(r: &Regex, out: &mut Vec<char>)
    ensures
        final(out)@ == old(out)@ + class_body(*r),
    decreases *r, 0int,
{
    match r {
        Regex::Tail => {
            assert(out@ =~= old(out)@ + class_body(*r));
        }
        Regex::Literal(c) => {
            push_char_canon(c, out);
        }
        Regex::AnyOf { head, rest } => {
            render_into(&**head, out);
            class_into(&**rest, out);
            assert(out@ =~= old(out)@ + class_body(*r));
        }
        _ => {
            assert(out@ =~= old(out)@ + class_body(*r));
        }
    }
}

/// Appends the remaining pipe-joined alternatives.
fn alt_tail_into(r: &Regex, out: &mut Vec<char>)
    ensures
        final(out)@ == old(out)@ + alt_tail(*r),
    decreases *r, 2int,
{
    match r {
        Regex::Tail => {
            assert(out@ =~= old(out)@ + alt_tail(*r));
        }
        Regex::AnyOf { head, rest } => {
            out.push('|');
            render_into(&**head, out);
            alt_tail_into(&**rest, out);
            assert(out@ =~= old(out)@ + alt_tail(*r));
        }
        _ => {
            out.push('|');
            render_into(r, out);
            assert(out@ =~= old(out)@ + alt_tail(*r));
        }
    }
}

/// Appends a `Repeat`'s inner pattern, parenthesized where needed.
fn repeat_inner_into(e: &Regex, out: &mut Vec<char>)
    ensures
        final(out)@ == old(out)@ + repeat_inner(*e),
    decreases *e, 2int,
{
    match e {
        Regex::Tail => {
            out.push('(');
            out.push(')');
            assert(out@ =~= old(out)@ + repeat_inner(*e));
        }
        Regex::Literal(c) => {
            push_char_canon(c, out);
        }
        Regex::Sequence { .. } => {
            out.push('(');
            render_into(e, out);
            out.push(')');
            assert(out@ =~= old(out)@ + repeat_inner(*e));
        }
        Regex::AnyOf { .. } => {
            if e.has_only_literals() {
                render_into(e, out);
            } else {
                out.push('(');
                render_into(e, out);
                out.push(')');
            }
            assert(out@ =~= old(out)@ + repeat_inner(*e));
        }
        Regex::Repeat { .. } => {
            out.push('(');
            render_into(e, out);
            out.push(')');
            assert(out@ =~= old(out)@ + repeat_inner(*e));
        }
    }
}

impl Regex {
    /// Renders this pattern in its canonical textual form.
    pub fn render(&self) -> (s: String)
        ensures
            s@ == spec_render(*self),
    {
        let mut out: Vec<char> = Vec::new();
        render_into(self, &mut out);
        assert(out@ =~= spec_render(*self));
        chars_to_string(&out)
    }
}

} // verus!
