//! The language of a pattern: which strings a pattern can produce, with a
//! caller-supplied ceiling standing in for a missing repetition bound.

use vstd::prelude::*;

use crate::ast::Char;
use crate::ast::Regex;
use crate::ast::chain_items;

verus! {

/// Does character `ch` belong to class `c`?
pub open spec fn char_in_class(c: Char, ch: char) -> bool {
    match c {
        Char::Just(x) => ch == x,
        Char::Alphabet => 'a' as int <= ch as int <= 'z' as int,
        Char::Number => '0' as int <= ch as int <= '9' as int,
        Char::Any => ('a' as int <= ch as int <= 'z' as int) || ('0' as int <= ch as int <= '9' as int),
    }
}

/// The repetition ceiling: the given bound where there is one, else `upper`.
pub open spec fn rep_cap(max: Option<usize>, upper: nat) -> nat {
    match max {
        Option::Some(m) => m as nat,
        Option::None => upper,
    }
}

/// `s` is one of the strings pattern `r` can produce, with `upper` standing
/// in for a missing repetition bound.
pub open spec fn in_lang(r: Regex, s: Seq<char>, upper: nat) -> bool
    decreases r, 0nat, 0int,
{
    match r {
        Regex::Tail => s.len() == 0,
        Regex::Literal(c) => s.len() == 1 && char_in_class(c, s[0]),
        Regex::Sequence { head, rest } => exists|i: int|
            0 <= i <= s.len() && in_lang(*head, #[trigger] s.take(i), upper) && in_lang(*rest, s.skip(i), upper),
        Regex::AnyOf { head, rest } => in_lang(*head, s, upper) || alt_lang(*rest, s, upper),
        Regex::Repeat { expr, min, max } => rep_match(*expr, min as nat, rep_cap(max, upper), s, upper),
    }
}

/// Some alternative of the chain `r` matches `s`.
pub open spec fn alt_lang(r: Regex, s: Seq<char>, upper: nat) -> bool
    decreases r, 0nat, 1int,
{
    match r {
        Regex::Tail => false,
        Regex::AnyOf { head, rest } => in_lang(*head, s, upper) || alt_lang(*rest, s, upper),
        _ => in_lang(r, s, upper),
    }
}

/// `s` is the concatenation of at least `min` and at most `cap` strings, each
/// in the language of `e`.
pub open spec fn rep_match(e: Regex, min: nat, cap: nat, s: Seq<char>, upper: nat) -> bool
    decreases e, cap, 1int,
{
    ||| (min == 0 && s.len() == 0)
    ||| (cap > 0 && exists|i: int|
        0 <= i <= s.len() && in_lang(e, #[trigger] s.take(i), upper)
            && rep_match(e, if min == 0 { 0 } else { (min - 1) as nat }, (cap - 1) as nat, s.skip(i), upper))
}

/// `s` is the concatenation of exactly `k` strings, each in the language of `e`.
pub open spec fn reps(e: Regex, k: nat, s: Seq<char>, upper: nat) -> bool
    decreases k,
{
    if k == 0 {
        s.len() == 0
    } else {
        exists|i: int|
            0 <= i <= s.len() && in_lang(e, #[trigger] s.take(i), upper) && reps(e, (k - 1) as nat, s.skip(i), upper)
    }
}

/// Every `Repeat` in `r` admits generation with ceiling `upper`: `min <= max`
/// where a bound is given, `min <= upper` where none is.
pub open spec fn gen_ready(r: Regex, upper: nat) -> bool
    decreases r,
{
    match r {
        Regex::Tail => true,
        Regex::Literal(_) => true,
        Regex::Sequence { head, rest } => gen_ready(*head, upper) && gen_ready(*rest, upper),
        Regex::AnyOf { head, rest } => gen_ready(*head, upper) && gen_ready(*rest, upper),
        Regex::Repeat { expr, min, max } => gen_ready(*expr, upper) && min as nat <= rep_cap(max, upper),
    }
}

impl Regex {
    /// Judges whether every `Repeat` in this pattern admits generation with
    /// ceiling `upper`.
    pub fn is_generable(&self, upper: usize) -> (b: bool)
        ensures
            b == gen_ready(*self, upper as nat),
        decreases *self,
    {
        match self {
            Regex::Tail => true,
            Regex::Literal(_) => true,
            Regex::Sequence { head, rest } => head.is_generable(upper) && rest.is_generable(upper),
            Regex::AnyOf { head, rest } => head.is_generable(upper) && rest.is_generable(upper),
            Regex::Repeat { expr, min, max } => {
                let bound_ok = match max {
                    Some(m) => *min <= *m,
                    None => *min <= upper,
                };
                bound_ok && expr.is_generable(upper)
            }
        }
    }
}

/// Appending one more matching piece extends a block of `k` repetitions to
/// `k + 1`.
pub proof fn lemma_reps_snoc(e: Regex, k: nat, s: Seq<char>, piece: Seq<char>, upper: nat)
    requires
        reps(e, k, s, upper),
        in_lang(e, piece, upper),
    ensures
        reps(e, k + 1, s + piece, upper),
    decreases k,
{
    if k == 0 {
        assert((s + piece).take(piece.len() as int) =~= piece);
        assert((s + piece).skip(piece.len() as int) =~= Seq::<char>::empty());
        assert(reps(e, 0, (s + piece).skip(piece.len() as int), upper));
    } else {
        let i = choose|i: int|
            0 <= i <= s.len() && in_lang(e, #[trigger] s.take(i), upper) && reps(e, (k - 1) as nat, s.skip(i), upper);
        lemma_reps_snoc(e, (k - 1) as nat, s.skip(i), piece, upper);
        assert((s + piece).take(i) =~= s.take(i));
        assert((s + piece).skip(i) =~= s.skip(i) + piece);
    }
}

/// A block of exactly `k` repetitions, `min <= k <= cap`, is a valid
/// repetition match for those bounds.
pub proof fn lemma_reps_to_rep_match(e: Regex, k: nat, min: nat, cap: nat, s: Seq<char>, upper: nat)
    requires
        reps(e, k, s, upper),
        min <= k <= cap,
    ensures
        rep_match(e, min, cap, s, upper),
    decreases k,
{
    if k == 0 {
        assert(min == 0 && s.len() == 0);
    } else {
        let i = choose|i: int|
            0 <= i <= s.len() && in_lang(e, #[trigger] s.take(i), upper) && reps(e, (k - 1) as nat, s.skip(i), upper);
        let min1: nat = if min == 0 { 0 } else { (min - 1) as nat };
        lemma_reps_to_rep_match(e, (k - 1) as nat, min1, (cap - 1) as nat, s.skip(i), upper);
    }
}

/// Conversely, every repetition match for bounds `min..=cap` consists of some
/// exact count `k` of repetitions with `min <= k <= cap`.
pub proof fn lemma_rep_match_to_reps(e: Regex, min: nat, cap: nat, s: Seq<char>, upper: nat)
    requires
        rep_match(e, min, cap, s, upper),
    ensures
        exists|k: nat| min <= k && k <= cap && #[trigger] reps(e, k, s, upper),
    decreases cap,
{
    if min == 0 && s.len() == 0 {
        assert(reps(e, 0, s, upper));
    } else {
        let i = choose|i: int|
            0 <= i <= s.len() && in_lang(e, #[trigger] s.take(i), upper)
                && rep_match(e, if min == 0 { 0 } else { (min - 1) as nat }, (cap - 1) as nat, s.skip(i), upper);
        let min1: nat = if min == 0 { 0 } else { (min - 1) as nat };
        lemma_rep_match_to_reps(e, min1, (cap - 1) as nat, s.skip(i), upper);
        let k1 = choose|k1: nat| min1 <= k1 && k1 <= (cap - 1) as nat && #[trigger] reps(e, k1, s.skip(i), upper);
        assert(s.take(i) + s.skip(i) =~= s);
        lemma_reps_prepend(e, k1, s, i, upper);
        assert(min <= k1 + 1 && k1 + 1 <= cap && reps(e, k1 + 1, s, upper));
    }
}

/// Putting one matching piece in front of a block of `k` repetitions gives a
/// block of `k + 1`.
proof fn lemma_reps_prepend(e: Regex, k: nat, s: Seq<char>, i: int, upper: nat)
    requires
        0 <= i <= s.len(),
        in_lang(e, s.take(i), upper),
        reps(e, k, s.skip(i), upper),
    ensures
        reps(e, k + 1, s, upper),
{
}

/// Repeat bounds: every string that a `Repeat` admits consists of between
/// `min` and `max` repetitions of the inner pattern, with the ceiling `upper`
/// standing in where no `max` is given.
pub proof fn lemma_repeat_bounds(r: Regex, s: Seq<char>, upper: nat)
    requires
        r is Repeat,
        in_lang(r, s, upper),
    ensures
        exists|k: nat|
            r->Repeat_min <= k && k <= rep_cap(r->Repeat_max, upper) && #[trigger] reps(*r->Repeat_expr, k, s, upper),
{
    lemma_rep_match_to_reps(*r->Repeat_expr, r->Repeat_min as nat, rep_cap(r->Repeat_max, upper), s, upper);
}

/// Alternation exclusivity: a string is in the language of an `AnyOf` exactly
/// when one single alternative of the chain produces all of it.
pub proof fn lemma_alternation_one_branch(r: Regex, s: Seq<char>, upper: nat)
    requires
        r is AnyOf,
        crate::ast::wf(r),
    ensures
        in_lang(r, s, upper) <==> exists|i: int|
            0 <= i < chain_items(r).len() && in_lang(#[trigger] chain_items(r)[i], s, upper),
{
    lemma_alt_chain(r, s, upper);
}

/// A chain node matches exactly when one of its elements does.
proof fn lemma_alt_chain(r: Regex, s: Seq<char>, upper: nat)
    requires
        r is AnyOf,
        crate::ast::wf(r),
    ensures
        in_lang(r, s, upper) <==> exists|i: int|
            0 <= i < chain_items(r).len() && in_lang(#[trigger] chain_items(r)[i], s, upper),
    decreases r,
{
    match r {
        Regex::AnyOf { head, rest } => {
            lemma_alt_tail(*rest, s, upper);
            assert(chain_items(r) == seq![*head] + chain_items(*rest));
            if in_lang(r, s, upper) {
                if in_lang(*head, s, upper) {
                    assert(chain_items(r)[0] == *head);
                    assert(in_lang(chain_items(r)[0], s, upper));
                } else {
                    let j = choose|j: int|
                        0 <= j < chain_items(*rest).len() && in_lang(#[trigger] chain_items(*rest)[j], s, upper);
                    assert(chain_items(r)[j + 1] == chain_items(*rest)[j]);
                }
            }
            if exists|i: int|
                0 <= i < chain_items(r).len() && in_lang(#[trigger] chain_items(r)[i], s, upper) {
                let i = choose|i: int|
                    0 <= i < chain_items(r).len() && in_lang(#[trigger] chain_items(r)[i], s, upper);
                if i == 0 {
                    assert(in_lang(*head, s, upper));
                } else {
                    assert(chain_items(*rest)[i - 1] == chain_items(r)[i]);
                }
            }
        }
        _ => {}
    }
}

/// `alt_lang` holds of a chain tail exactly when one of its elements matches.
proof fn lemma_alt_tail(r: Regex, s: Seq<char>, upper: nat)
    requires
        r is AnyOf || r is Tail,
        crate::ast::wf(r),
    ensures
        alt_lang(r, s, upper) <==> exists|i: int|
            0 <= i < chain_items(r).len() && in_lang(#[trigger] chain_items(r)[i], s, upper),
    decreases r,
{
    match r {
        Regex::Tail => {
            assert(chain_items(r).len() == 0);
        }
        Regex::AnyOf { head, rest } => {
            lemma_alt_tail(*rest, s, upper);
            assert(chain_items(r) == seq![*head] + chain_items(*rest));
            if alt_lang(r, s, upper) {
                if in_lang(*head, s, upper) {
                    assert(chain_items(r)[0] == *head);
                    assert(in_lang(chain_items(r)[0], s, upper));
                } else {
                    let j = choose|j: int|
                        0 <= j < chain_items(*rest).len() && in_lang(#[trigger] chain_items(*rest)[j], s, upper);
                    assert(chain_items(r)[j + 1] == chain_items(*rest)[j]);
                }
            }
            if exists|i: int|
                0 <= i < chain_items(r).len() && in_lang(#[trigger] chain_items(r)[i], s, upper) {
                let i = choose|i: int|
                    0 <= i < chain_items(r).len() && in_lang(#[trigger] chain_items(r)[i], s, upper);
                if i == 0 {
                    assert(in_lang(*head, s, upper));
                } else {
                    assert(chain_items(*rest)[i - 1] == chain_items(r)[i]);
                }
            }
        }
        _ => {}
    }
}

} // verus!
