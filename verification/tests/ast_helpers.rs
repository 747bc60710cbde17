use regex_gen::ast::{Char, Regex};
use regex_gen::parser::Parser;

fn parse(pattern: &str) -> Regex {
    let mut p = Parser::new();
    p.parse(pattern).expect("pattern should parse")
}

#[test]
fn sequence_from_iter_folding() {
    assert_eq!(Regex::sequence_from_iter(vec![]), Regex::Tail);

    let single = Regex::sequence_from_iter(vec![Regex::Literal(Char::Just('a'))]);
    assert_eq!(single, Regex::Literal(Char::Just('a')));

    let pair = Regex::sequence_from_iter(vec![
        Regex::Literal(Char::Just('a')),
        Regex::Literal(Char::Just('b')),
    ]);
    assert_eq!(
        pair,
        Regex::Sequence {
            head: Box::new(Regex::Literal(Char::Just('a'))),
            rest: Box::new(Regex::Sequence {
                head: Box::new(Regex::Literal(Char::Just('b'))),
                rest: Box::new(Regex::Tail),
            }),
        }
    );
}

#[test]
fn anyof_from_iter_folding() {
    assert_eq!(Regex::anyof_from_iter(vec![]), Regex::Tail);

    let single = Regex::anyof_from_iter(vec![Regex::Literal(Char::Just('a'))]);
    assert_eq!(single, Regex::Literal(Char::Just('a')));

    let pair = Regex::anyof_from_iter(vec![
        Regex::Literal(Char::Just('a')),
        Regex::Literal(Char::Just('b')),
    ]);
    assert_eq!(
        pair,
        Regex::AnyOf {
            head: Box::new(Regex::Literal(Char::Just('a'))),
            rest: Box::new(Regex::AnyOf {
                head: Box::new(Regex::Literal(Char::Just('b'))),
                rest: Box::new(Regex::Tail),
            }),
        }
    );
}

#[test]
fn iter_walks_a_sequence_chain() {
    let ast = parse("abc");
    let mut it = ast.iter().expect("a sequence chain has an iterator");
    assert_eq!(it.next(), Some(Regex::Literal(Char::Just('a'))));
    assert_eq!(it.next(), Some(Regex::Literal(Char::Just('b'))));
    assert_eq!(it.next(), Some(Regex::Literal(Char::Just('c'))));
    assert_eq!(it.next(), None);
    assert_eq!(it.next(), None);
}

#[test]
fn iter_walks_an_alternation_chain() {
    let ast = parse("a|b");
    let mut it = ast.iter().expect("an alternation chain has an iterator");
    assert_eq!(it.next(), Some(Regex::Literal(Char::Just('a'))));
    assert_eq!(it.next(), Some(Regex::Literal(Char::Just('b'))));
    assert_eq!(it.next(), None);
}

#[test]
fn iter_is_absent_on_other_nodes() {
    assert!(parse("a").iter().is_none());
    assert!(parse("").iter().is_none());
    assert!(parse("a+").iter().is_none());
}

#[test]
fn has_only_literals_on_literal_shapes() {
    assert!(parse("").has_only_literals());
    assert!(parse("a").has_only_literals());
    assert!(parse("abc").has_only_literals());
    assert!(parse("a|b|c").has_only_literals());
}

#[test]
fn has_only_literals_rejects_composites() {
    assert!(!parse("a+").has_only_literals());
    assert!(!parse("ab|cd").has_only_literals());
    assert!(!parse("a(b)+").has_only_literals());
}

#[test]
fn parsed_trees_are_well_formed() {
    for p in ["", "a", "abc", "a|b|c", "(ab)+", "[abc]{2,3}", "ab|cd", "()*"] {
        assert!(parse(p).is_well_formed(), "pattern {:?}", p);
    }
}

#[test]
fn hand_built_chain_of_the_wrong_kind_is_not_well_formed() {
    let bad = Regex::Sequence {
        head: Box::new(Regex::Literal(Char::Just('a'))),
        rest: Box::new(Regex::Literal(Char::Just('b'))),
    };
    assert!(!bad.is_well_formed());
}

#[test]
fn generability_depends_on_the_ceiling() {
    let ast = parse("a{3,}");
    assert!(ast.is_generable(3));
    assert!(!ast.is_generable(2));

    let bounded = Regex::Repeat {
        expr: Box::new(Regex::Literal(Char::Just('a'))),
        min: 3,
        max: Some(1),
    };
    assert!(!bounded.is_generable(9));

    let fine = parse("a{1,3}");
    assert!(fine.is_generable(0));
}

#[test]
fn clone_is_deep_equality() {
    let ast = parse("(a|b){2,3}c");
    assert_eq!(ast.clone(), ast);
}
