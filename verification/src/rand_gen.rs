//! The weighted random generator: walks a pattern tree and emits a string in
//! the pattern's language, drawing from a caller-supplied random generator.

use vstd::prelude::*;

use rand::rngs::StdRng;

use crate::ast::Regex;
use crate::ast::wf;
use crate::lang::char_in_class;
use crate::lang::gen_ready;
use crate::lang::in_lang;
use crate::lang::lemma_reps_snoc;
use crate::lang::lemma_reps_to_rep_match;
use crate::lang::rep_cap;
use crate::lang::reps;
use crate::render::chars_to_string;

verus! {

#[verifier::external_type_specification]
#[verifier::external_body]
pub struct ExStdRng(StdRng);

/// Relies on `rand`'s `RngExt::random_range` over an inclusive integer range:
/// the draw lies within the given bounds.
#[verifier::external_body]
fn gen_range_incl(rng: &mut StdRng, lo: usize, hi: usize) -> (n: usize)
    requires
        lo <= hi,
    ensures
        lo <= n && n <= hi,
{
    rand::RngExt::random_range(rng, lo..=hi)
}

/// The alphanumeric pool: indices `0..26` are `a`-`z`, `26..36` are `0`-`9`.
fn alnum_char(i: usize) -> (c: char)
    requires
        i < 36,
    ensures
        i < 26 ==> 'a' as int <= c as int <= 'z' as int,
        26 <= i ==> '0' as int <= c as int <= '9' as int,
{
    match i {
        0 => 'a',
        1 => 'b',
        2 => 'c',
        3 => 'd',
        4 => 'e',
        5 => 'f',
        6 => 'g',
        7 => 'h',
        8 => 'i',
        9 => 'j',
        10 => 'k',
        11 => 'l',
        12 => 'm',
        13 => 'n',
        14 => 'o',
        15 => 'p',
        16 => 'q',
        17 => 'r',
        18 => 's',
        19 => 't',
        20 => 'u',
        21 => 'v',
        22 => 'w',
        23 => 'x',
        24 => 'y',
        25 => 'z',
        26 => '0',
        27 => '1',
        28 => '2',
        29 => '3',
        30 => '4',
        31 => '5',
        32 => '6',
        33 => '7',
        34 => '8',
        _ => '9',
    }
}

/// The total weight of an `AnyOf` chain's alternatives, saturating at
/// `usize::MAX`; at least 1 for a nonempty chain.
fn alt_total(r: &Regex) -> (w: usize)
    requires
        *r is AnyOf || *r is Tail,
    ensures
        *r is AnyOf ==> w >= 1,
    decreases *r,
{
    match r {
        Regex::AnyOf { head, rest } => {
            let hw = head.random_weight();
            let rw = match &**rest {
                Regex::AnyOf { .. } | Regex::Tail => alt_total(&**rest),
                _ => 1,
            };
            assert(hw >= 1);
            if hw > usize::MAX - rw {
                usize::MAX
            } else {
                hw + rw
            }
        }
        _ => 0,
    }
}

/// Generates random strings matching a parsed pattern, substituting
/// `quantity_upper` for a missing repetition bound.
pub struct RandomGenerator {
    rng: StdRng,
    quantity_upper: usize,
}

impl RandomGenerator {
    /// The ceiling substituted for a missing repetition bound.
    pub closed spec fn upper(&self) -> nat {
        self.quantity_upper as nat
    }

    /// Creates a generator around a random source and a repetition ceiling.
    pub fn new(rng: StdRng, quantity_upper: usize) -> (g: RandomGenerator)
        ensures
            g.upper() == quantity_upper as nat,
    {
        RandomGenerator { rng, quantity_upper }
    }

    /// Generates one random string in the language of `regex`.
    pub fn generate(&mut self, regex: &Regex) -> (s: String)
        requires
            wf(*regex),
            gen_ready(*regex, old(self).upper()),
        ensures
            in_lang(*regex, s@, old(self).upper()),
            final(self).upper() == old(self).upper(),
    {
        let mut out: Vec<char> = Vec::new();
        self.write_regex(&mut out, regex);
        assert(out@.skip(0) =~= out@);
        chars_to_string(&out)
    }

    /// Appends one random string in the language of `regex`.
    fn write_regex(&mut self, out: &mut Vec<char>, regex: &Regex)
        requires
            wf(*regex),
            gen_ready(*regex, old(self).upper()),
        ensures
            final(self).upper() == old(self).upper(),
            old(out)@.is_prefix_of(final(out)@),
            in_lang(*regex, final(out)@.skip(old(out)@.len() as int), old(self).upper()),
        decreases *regex, 1int,
    {
        let ghost base = out@;
        match regex {
            Regex::Tail => {
                assert(out@.skip(base.len() as int) =~= Seq::<char>::empty());
            }
            Regex::Literal(c) => {
                let ch = match c {
                    crate::ast::Char::Just(x) => *x,
                    crate::ast::Char::Alphabet => {
                        let i = gen_range_incl(&mut self.rng, 0, 25);
                        alnum_char(i)
                    }
                    crate::ast::Char::Number => {
                        let i = gen_range_incl(&mut self.rng, 26, 35);
                        alnum_char(i)
                    }
                    crate::ast::Char::Any => {
                        let i = gen_range_incl(&mut self.rng, 0, 35);
                        alnum_char(i)
                    }
                };
                out.push(ch);
                assert(out@.skip(base.len() as int) =~= seq![ch]);
                assert(char_in_class(*c, ch));
            }
            Regex::Sequence { head, rest } => {
                self.write_regex(out, &**head);
                let ghost mid = out@;
                self.write_regex(out, &**rest);
                proof {
                    let emitted = out@.skip(base.len() as int);
                    let cut = mid.len() - base.len();
                    assert(mid == out@.take(mid.len() as int));
                    assert(emitted.take(cut) =~= mid.skip(base.len() as int));
                    assert(emitted.skip(cut) =~= out@.skip(mid.len() as int));
                    assert(in_lang(**head, emitted.take(cut), old(self).upper()));
                    assert(in_lang(**rest, emitted.skip(cut), old(self).upper()));
                }
            }
            Regex::AnyOf { .. } => {
                let total = alt_total(regex);
                let t = gen_range_incl(&mut self.rng, 0, total - 1);
                self.write_anyof(out, regex, t);
            }
            Regex::Repeat { expr, min, max } => {
                let cap = match max {
                    Some(m) => *m,
                    None => self.quantity_upper,
                };
                assert(cap as nat == rep_cap(*max, old(self).upper()));
                let k = gen_range_incl(&mut self.rng, *min, cap);
                self.write_reps(out, &**expr, k);
                proof {
                    let emitted = out@.skip(base.len() as int);
                    lemma_reps_to_rep_match(
                        **expr,
                        k as nat,
                        *min as nat,
                        rep_cap(*max, old(self).upper()),
                        emitted,
                        old(self).upper(),
                    );
                }
            }
        }
    }

    /// Appends `k` consecutive random strings, each in the language of `e`.
    fn write_reps(&mut self, out: &mut Vec<char>, e: &Regex, k: usize)
        requires
            wf(*e),
            gen_ready(*e, old(self).upper()),
        ensures
            final(self).upper() == old(self).upper(),
            old(out)@.is_prefix_of(final(out)@),
            reps(*e, k as nat, final(out)@.skip(old(out)@.len() as int), old(self).upper()),
        decreases *e, 2int,
    {
        let ghost base = out@;
        let mut j: usize = 0;
        assert(out@.skip(base.len() as int) =~= Seq::<char>::empty());
        while j < k
            invariant
                j <= k,
                wf(*e),
                gen_ready(*e, old(self).upper()),
                self.upper() == old(self).upper(),
                base.is_prefix_of(out@),
                reps(*e, j as nat, out@.skip(base.len() as int), old(self).upper()),
            decreases k - j,
        {
            let ghost sofar = out@;
            self.write_regex(out, e);
            proof {
                let done = sofar.skip(base.len() as int);
                let piece = out@.skip(sofar.len() as int);
                lemma_reps_snoc(*e, j as nat, done, piece, old(self).upper());
                assert(sofar =~= out@.take(sofar.len() as int));
                assert(out@.skip(base.len() as int) =~= done + piece);
            }
            j = j + 1;
        }
    }

    /// Realizes exactly one alternative of the `AnyOf` chain `r`, picked by
    /// walking the chain with the drawn weight `t`.
    fn write_anyof(&mut self, out: &mut Vec<char>, r: &Regex, t: usize)
        requires
            *r is AnyOf,
            wf(*r),
            gen_ready(*r, old(self).upper()),
        ensures
            final(self).upper() == old(self).upper(),
            old(out)@.is_prefix_of(final(out)@),
            in_lang(*r, final(out)@.skip(old(out)@.len() as int), old(self).upper()),
        decreases *r, 0int,
    {
        match r {
            Regex::AnyOf { head, rest } => {
                let w = head.random_weight();
                let take_rest = match &**rest {
                    Regex::AnyOf { .. } => t >= w,
                    _ => false,
                };
                if take_rest {
                    self.write_anyof(out, &**rest, t - w);
                    proof {
                        let emitted = out@.skip(old(out)@.len() as int);
                        assert(crate::lang::alt_lang(**rest, emitted, old(self).upper()));
                    }
                } else {
                    self.write_regex(out, &**head);
                }
            }
            _ => {
                proof {
                    assert(false);
                }
            }
        }
    }
}

} // verus!
