//! The pattern tree: node types, construction helpers, and the structural
//! predicates that the renderer and the generator rely on.

use vstd::prelude::*;

verus! {

/// A single-character class in a pattern.
#[derive(Debug, PartialEq, Eq, Structural, Clone, Copy)]
pub enum Char {
    /// A specific character.
    Just(char),
    /// Any lowercase letter `a`-`z` (written `\w`).
    Alphabet,
    /// Any digit `0`-`9` (written `\d`).
    Number,
    /// Any of the 36 alphanumerics `a`-`z`, `0`-`9` (written `.`).
    Any,
}

/// The characters that carry structure in pattern text and must be escaped
/// to stand for themselves.
pub open spec fn is_special(c: char) -> bool {
    c == '+' || c == '?' || c == '*' || c == '(' || c == ')' || c == '['
        || c == ']' || c == '{' || c == '}' || c == '|'
}

/// Weight of a character class for random generation: the number of
/// characters the class can produce.
pub open spec fn char_weight(c: Char) -> nat {
    match c {
        Char::Just(_) => 1,
        Char::Alphabet => 26,
        Char::Number => 10,
        Char::Any => 36,
    }
}

impl Char {
    /// Returns the weight of this `Char` instance for random generation.
    pub fn random_weight(&self) -> (w: usize)
        ensures
            w == char_weight(*self),
    {
        match self {
            Char::Just(_) => 1,
            Char::Alphabet => 26,
            Char::Number => 10,
            Char::Any => 36,
        }
    }
}

/// A node of a parsed pattern. `Sequence` and `AnyOf` lists are head/rest
/// chains whose final `rest` is `Tail`.
#[derive(Debug, PartialEq, Eq)]
pub enum Regex {
    /// The empty match.
    Tail,
    /// Exactly one character from a class.
    Literal(Char),
    /// Concatenation of the chain's elements, in order.
    Sequence { head: Box<Regex>, rest: Box<Regex> },
    /// Exactly one of the chain's elements (`[xyz]` or `x|y|z`).
    AnyOf { head: Box<Regex>, rest: Box<Regex> },
    /// `expr` repeated between `min` and `max` times inclusive; a missing
    /// `max` means unbounded.
    Repeat { expr: Box<Regex>, min: usize, max: Option<usize> },
}

/// Weight of a node for the alternation's weighted choice: a literal counts
/// its class weight, every other alternative counts 1.
pub open spec fn node_weight(r: Regex) -> nat {
    match r {
        Regex::Literal(c) => char_weight(c),
        _ => 1,
    }
}

/// The elements of a `Sequence` or `AnyOf` chain, in order.
pub open spec fn chain_items(r: Regex) -> Seq<Regex>
    decreases r,
{
    match r {
        Regex::Tail => Seq::empty(),
        Regex::Sequence { head, rest } => seq![*head] + chain_items(*rest),
        Regex::AnyOf { head, rest } => seq![*head] + chain_items(*rest),
        _ => seq![r],
    }
}

/// Structural well-formedness: every chain is built from nodes of its own
/// kind and ends in `Tail`.
pub open spec fn wf(r: Regex) -> bool
    decreases r,
{
    match r {
        Regex::Tail => true,
        Regex::Literal(_) => true,
        Regex::Sequence { head, rest } => wf(*head) && wf(*rest) && (*rest is Sequence || *rest is Tail),
        Regex::AnyOf { head, rest } => wf(*head) && wf(*rest) && (*rest is AnyOf || *rest is Tail),
        Regex::Repeat { expr, .. } => wf(*expr),
    }
}

/// The repeat-bounds invariant: every `Repeat` whose bound is given
/// satisfies `min <= max`.
pub open spec fn bounds_ok(r: Regex) -> bool
    decreases r,
{
    match r {
        Regex::Tail => true,
        Regex::Literal(_) => true,
        Regex::Sequence { head, rest } => bounds_ok(*head) && bounds_ok(*rest),
        Regex::AnyOf { head, rest } => bounds_ok(*head) && bounds_ok(*rest),
        Regex::Repeat { expr, min, max } => (max matches Some(m) ==> min <= m) && bounds_ok(*expr),
    }
}

/// Only literals, recursively: true of `Tail` and `Literal`, true of a chain
/// whose every element is a `Literal`, false of any `Repeat`.
pub open spec fn spec_only_literals(r: Regex) -> bool
    decreases r,
{
    match r {
        Regex::Tail => true,
        Regex::Literal(_) => true,
        Regex::Sequence { head, rest } => *head is Literal && spec_only_literals(*rest),
        Regex::AnyOf { head, rest } => *head is Literal && spec_only_literals(*rest),
        Regex::Repeat { .. } => false,
    }
}

/// The right-folded `Sequence` chain over `items`, ending in `Tail`.
pub open spec fn sequence_chain(items: Seq<Regex>) -> Regex
    decreases items.len(),
{
    if items.len() == 0 {
        Regex::Tail
    } else {
        Regex::Sequence { head: Box::new(items[0]), rest: Box::new(sequence_chain(items.drop_first())) }
    }
}

/// The right-folded `AnyOf` chain over `items`, ending in `Tail`.
pub open spec fn anyof_chain(items: Seq<Regex>) -> Regex
    decreases items.len(),
{
    if items.len() == 0 {
        Regex::Tail
    } else {
        Regex::AnyOf { head: Box::new(items[0]), rest: Box::new(anyof_chain(items.drop_first())) }
    }
}

/// What `sequence_from_iter` builds: no items fold to `Tail`, a single item
/// stands alone, two or more become a chain.
pub open spec fn fold_sequence(items: Seq<Regex>) -> Regex {
    if items.len() == 1 {
        items[0]
    } else {
        sequence_chain(items)
    }
}

/// What `anyof_from_iter` builds, with the same folding rule.
pub open spec fn fold_anyof(items: Seq<Regex>) -> Regex {
    if items.len() == 1 {
        items[0]
    } else {
        anyof_chain(items)
    }
}

impl Regex {
    /// Returns the weight of this node for the alternation's weighted choice.
    pub fn random_weight(&self) -> (w: usize)
        ensures
            w == node_weight(*self),
    {
        match self {
            Regex::Literal(c) => c.random_weight(),
            _ => 1,
        }
    }

    /// Judges structural well-formedness: every chain is built from nodes of
    /// its own kind and ends in `Tail`.
    pub fn is_well_formed(&self) -> (b: bool)
        ensures
            b == wf(*self),
        decreases *self,
    {
        match self {
            Regex::Tail => true,
            Regex::Literal(_) => true,
            Regex::Sequence { head, rest } => {
                let shape = match &**rest {
                    Regex::Sequence { .. } | Regex::Tail => true,
                    _ => false,
                };
                shape && head.is_well_formed() && rest.is_well_formed()
            }
            Regex::AnyOf { head, rest } => {
                let shape = match &**rest {
                    Regex::AnyOf { .. } | Regex::Tail => true,
                    _ => false,
                };
                shape && head.is_well_formed() && rest.is_well_formed()
            }
            Regex::Repeat { expr, .. } => expr.is_well_formed(),
        }
    }

    /// Judges whether this instance consists only of literals.
    pub fn has_only_literals(&self) -> (b: bool)
        ensures
            b == spec_only_literals(*self),
        decreases *self,
    {
        match self {
            Regex::Tail => true,
            Regex::Literal(_) => true,
            Regex::Sequence { head, rest } => match &**head {
                Regex::Literal(_) => rest.has_only_literals(),
                _ => false,
            },
            Regex::AnyOf { head, rest } => match &**head {
                Regex::Literal(_) => rest.has_only_literals(),
                _ => false,
            },
            Regex::Repeat { .. } => false,
        }
    }

    /// Constructs a `Sequence` chain from a list of nodes.
    pub fn sequence_from_iter(items: Vec<Regex>) -> (r: Regex)
        ensures
            r == fold_sequence(items@),
    {
        let ghost orig = items@;
        let mut items = items;
        if items.len() == 1 {
            let r = items.pop().unwrap();
            assert(orig.drop_last() =~= Seq::<Regex>::empty());
            return r;
        }
        let mut acc = Regex::Tail;
        assert(orig.skip(orig.len() as int) =~= Seq::<Regex>::empty());
        while items.len() > 0
            invariant
                items@.len() <= orig.len(),
                items@ == orig.take(items@.len() as int),
                acc == sequence_chain(orig.skip(items@.len() as int)),
            decreases items@.len(),
        {
            let ghost k = items@.len() as int;
            let h = items.pop().unwrap();
            assert(items@ =~= orig.take(k - 1));
            assert(orig.take(k)[k - 1] == orig[k - 1]);
            acc = Regex::Sequence { head: Box::new(h), rest: Box::new(acc) };
            assert(orig.skip(k - 1).drop_first() =~= orig.skip(k));
            assert(orig.skip(k - 1)[0] == orig[k - 1]);
        }
        assert(orig.skip(0) =~= orig);
        acc
    }

    /// Constructs an `AnyOf` chain from a list of nodes.
    pub fn anyof_from_iter(items: Vec<Regex>) -> (r: Regex)
        ensures
            r == fold_anyof(items@),
    {
        let ghost orig = items@;
        let mut items = items;
        if items.len() == 1 {
            let r = items.pop().unwrap();
            assert(orig.drop_last() =~= Seq::<Regex>::empty());
            return r;
        }
        let mut acc = Regex::Tail;
        assert(orig.skip(orig.len() as int) =~= Seq::<Regex>::empty());
        while items.len() > 0
            invariant
                items@.len() <= orig.len(),
                items@ == orig.take(items@.len() as int),
                acc == anyof_chain(orig.skip(items@.len() as int)),
            decreases items@.len(),
        {
            let ghost k = items@.len() as int;
            let h = items.pop().unwrap();
            assert(items@ =~= orig.take(k - 1));
            assert(orig.take(k)[k - 1] == orig[k - 1]);
            acc = Regex::AnyOf { head: Box::new(h), rest: Box::new(acc) };
            assert(orig.skip(k - 1).drop_first() =~= orig.skip(k));
            assert(orig.skip(k - 1)[0] == orig[k - 1]);
        }
        assert(orig.skip(0) =~= orig);
        acc
    }
}

impl Clone for Regex {
    /// Deep copy: the clone equals the original.
    fn clone(&self) -> (r: Regex)
        ensures
            r == *self,
        decreases *self,
    {
        match self {
            Regex::Tail => Regex::Tail,
            Regex::Literal(c) => Regex::Literal(*c),
            Regex::Sequence { head, rest } => Regex::Sequence {
                head: Box::new((**head).clone()),
                rest: Box::new((**rest).clone()),
            },
            Regex::AnyOf { head, rest } => Regex::AnyOf {
                head: Box::new((**head).clone()),
                rest: Box::new((**rest).clone()),
            },
            Regex::Repeat { expr, min, max } => Regex::Repeat {
                expr: Box::new((**expr).clone()),
                min: *min,
                max: *max,
            },
        }
    }
}

/// Iterator over the elements of a `Sequence` or `AnyOf` chain.
#[derive(Debug)]
pub struct Iter {
    rest: Regex,
}

impl Iter {
    /// The elements not yet returned.
    pub closed spec fn remaining(&self) -> Seq<Regex> {
        chain_items(self.rest)
    }

    /// Returns the next element of the chain, if any.
    pub fn next(&mut self) -> (r: Option<Regex>)
        ensures
            match r {
                Option::None => old(self).remaining().len() == 0
                    && final(self).remaining() == old(self).remaining(),
                Option::Some(x) => old(self).remaining().len() > 0
                    && x == old(self).remaining()[0]
                    && final(self).remaining() == old(self).remaining().drop_first(),
            },
    {
        let mut cur = Regex::Tail;
        core::mem::swap(&mut cur, &mut self.rest);
        match cur {
            Regex::Tail => None,
            Regex::Sequence { head, rest } => {
                self.rest = *rest;
                assert(old(self).remaining().drop_first() =~= final(self).remaining());
                Some(*head)
            }
            Regex::AnyOf { head, rest } => {
                self.rest = *rest;
                assert(old(self).remaining().drop_first() =~= final(self).remaining());
                Some(*head)
            }
            other => {
                assert(chain_items(old(self).rest) =~= seq![old(self).rest]);
                assert(chain_items(old(self).rest).drop_first() =~= chain_items(Regex::Tail));
                Some(other)
            }
        }
    }
}

impl Regex {
    /// For `Sequence` and `AnyOf`, creates an iterator over the chain's
    /// elements.
    pub fn iter(&self) -> (r: Option<Iter>)
        ensures
            (r is Some) == (*self is Sequence || *self is AnyOf),
            r matches Option::Some(it) ==> it.remaining() == chain_items(*self),
    {
        match self {
            Regex::Sequence { .. } | Regex::AnyOf { .. } => Some(Iter { rest: self.clone() }),
            _ => None,
        }
    }
}

} // verus!
