use rand::SeedableRng;
use rand::rngs::StdRng;

use regex_gen::ast::{Char, Regex};
use regex_gen::parser::Parser;
use regex_gen::rand_gen::RandomGenerator;

fn parse(pattern: &str) -> Regex {
    let mut p = Parser::new();
    p.parse(pattern).expect("pattern should parse")
}

fn generator(seed: u64, upper: usize) -> RandomGenerator {
    RandomGenerator::new(StdRng::seed_from_u64(seed), upper)
}

#[test]
fn three_digits_exactly() {
    let ast = parse("\\d{3}");
    for seed in 0..20 {
        let mut g = generator(seed, 5);
        let s = g.generate(&ast);
        assert_eq!(s.len(), 3);
        assert!(s.chars().all(|c| c.is_ascii_digit()), "got {:?}", s);
    }
}

#[test]
fn alphabet_shorthand_yields_lowercase() {
    let ast = parse("\\w");
    for seed in 0..20 {
        let mut g = generator(seed, 5);
        let s = g.generate(&ast);
        assert_eq!(s.len(), 1);
        assert!(s.chars().all(|c| c.is_ascii_lowercase()), "got {:?}", s);
    }
}

#[test]
fn any_class_yields_alphanumerics() {
    let ast = parse(".");
    for seed in 0..20 {
        let mut g = generator(seed, 5);
        let s = g.generate(&ast);
        assert_eq!(s.len(), 1);
        assert!(
            s.chars().all(|c| c.is_ascii_lowercase() || c.is_ascii_digit()),
            "got {:?}",
            s
        );
    }
}

#[test]
fn bounded_repeat_count_stays_in_range() {
    let ast = parse("a{2,4}");
    for seed in 0..30 {
        let mut g = generator(seed, 9);
        let s = g.generate(&ast);
        assert!((2..=4).contains(&s.len()), "got {:?}", s);
        assert!(s.chars().all(|c| c == 'a'));
    }
}

#[test]
fn unbounded_repeat_respects_the_ceiling() {
    let ast = parse("x*");
    for seed in 0..30 {
        let mut g = generator(seed, 5);
        let s = g.generate(&ast);
        assert!(s.len() <= 5, "got {:?}", s);
        assert!(s.chars().all(|c| c == 'x'));
    }
}

#[test]
fn plus_generates_at_least_one() {
    let ast = parse("x+");
    for seed in 0..30 {
        let mut g = generator(seed, 4);
        let s = g.generate(&ast);
        assert!((1..=4).contains(&s.len()), "got {:?}", s);
        assert!(s.chars().all(|c| c == 'x'));
    }
}

#[test]
fn alternation_realizes_exactly_one_branch() {
    let ast = parse("a|b");
    let mut seen_a = false;
    let mut seen_b = false;
    for seed in 0..40 {
        let mut g = generator(seed, 5);
        let s = g.generate(&ast);
        assert!(s == "a" || s == "b", "got {:?}", s);
        seen_a = seen_a || s == "a";
        seen_b = seen_b || s == "b";
    }
    assert!(seen_a && seen_b, "both branches should be reachable");
}

#[test]
fn alternation_order_does_not_change_the_language() {
    let forward = parse("a|b");
    let backward = parse("b|a");
    for seed in 0..20 {
        let mut g1 = generator(seed, 5);
        let mut g2 = generator(seed, 5);
        let s1 = g1.generate(&forward);
        let s2 = g2.generate(&backward);
        assert!(s1 == "a" || s1 == "b", "got {:?}", s1);
        assert!(s2 == "a" || s2 == "b", "got {:?}", s2);
    }
}

#[test]
fn grouped_repeat_concatenates_whole_copies() {
    let ast = parse("(ab)+");
    for seed in 0..20 {
        let mut g = generator(seed, 3);
        let s = g.generate(&ast);
        assert!(s.len() % 2 == 0 && !s.is_empty(), "got {:?}", s);
        for chunk in s.as_bytes().chunks(2) {
            assert_eq!(chunk, b"ab");
        }
    }
}

#[test]
fn empty_pattern_generates_the_empty_string() {
    let ast = parse("");
    let mut g = generator(1, 5);
    assert_eq!(g.generate(&ast), "");
}

#[test]
fn sequence_keeps_order() {
    let ast = parse("a\\db");
    for seed in 0..10 {
        let mut g = generator(seed, 5);
        let s: Vec<char> = g.generate(&ast).chars().collect();
        assert_eq!(s.len(), 3);
        assert_eq!(s[0], 'a');
        assert!(s[1].is_ascii_digit());
        assert_eq!(s[2], 'b');
    }
}

#[test]
fn class_weights() {
    assert_eq!(Char::Just('q').random_weight(), 1);
    assert_eq!(Char::Alphabet.random_weight(), 26);
    assert_eq!(Char::Number.random_weight(), 10);
    assert_eq!(Char::Any.random_weight(), 36);
}

#[test]
fn node_weights() {
    assert_eq!(Regex::Literal(Char::Number).random_weight(), 10);
    assert_eq!(Regex::Tail.random_weight(), 1);
    let composite = parse("(ab)+");
    assert_eq!(composite.random_weight(), 1);
}

#[test]
fn generated_sample_from_mixed_pattern() {
    let ast = parse("\\w{5}you(0\\d){2,}");
    for seed in 0..10 {
        let mut g = generator(seed, 4);
        let s: Vec<char> = g.generate(&ast).chars().collect();
        assert!(s.len() >= 5 + 3 + 4, "got {:?}", s);
        assert!(s[0..5].iter().all(|c| c.is_ascii_lowercase()));
        assert_eq!(&s[5..8], &['y', 'o', 'u']);
        let tail = &s[8..];
        assert!(tail.len() % 2 == 0 && tail.len() >= 4 && tail.len() <= 8);
        for pair in tail.chunks(2) {
            assert_eq!(pair[0], '0');
            assert!(pair[1].is_ascii_digit());
        }
    }
}
