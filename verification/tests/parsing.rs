use regex_gen::ast::{Char, Regex};
use regex_gen::parser::{ParseError, Parser};

fn parse(pattern: &str) -> Result<Regex, ParseError> {
    let mut p = Parser::new();
    p.parse(pattern)
}

fn render_of(pattern: &str) -> String {
    parse(pattern).expect("pattern should parse").render()
}

#[test]
fn single_literal() {
    let ast = parse("a").unwrap();
    assert_eq!(ast, Regex::Literal(Char::Just('a')));
    assert_eq!(ast.render(), "a");
}

#[test]
fn digit_shorthand_with_count() {
    let ast = parse("\\d{3}").unwrap();
    assert_eq!(
        ast,
        Regex::Repeat {
            expr: Box::new(Regex::Literal(Char::Number)),
            min: 3,
            max: Some(3),
        }
    );
    assert_eq!(ast.render(), "\\d{3}");
}

#[test]
fn alternation_of_literals_renders_as_class() {
    let ast = parse("a|b|c").unwrap();
    assert_eq!(
        ast,
        Regex::AnyOf {
            head: Box::new(Regex::Literal(Char::Just('a'))),
            rest: Box::new(Regex::AnyOf {
                head: Box::new(Regex::Literal(Char::Just('b'))),
                rest: Box::new(Regex::AnyOf {
                    head: Box::new(Regex::Literal(Char::Just('c'))),
                    rest: Box::new(Regex::Tail),
                }),
            }),
        }
    );
    assert_eq!(ast.render(), "[abc]");
}

#[test]
fn group_with_plus() {
    let ast = parse("(ab)+").unwrap();
    assert_eq!(
        ast,
        Regex::Repeat {
            expr: Box::new(Regex::Sequence {
                head: Box::new(Regex::Literal(Char::Just('a'))),
                rest: Box::new(Regex::Sequence {
                    head: Box::new(Regex::Literal(Char::Just('b'))),
                    rest: Box::new(Regex::Tail),
                }),
            }),
            min: 1,
            max: None,
        }
    );
    assert_eq!(ast.render(), "(ab)+");
}

#[test]
fn double_star_is_an_error() {
    assert_eq!(parse("a**"), Err(ParseError::ShouldEscape));
}

#[test]
fn unterminated_group_is_an_error() {
    assert_eq!(parse("(ab"), Err(ParseError::UnexpectedEos));
}

#[test]
fn empty_pattern_is_the_empty_match() {
    let ast = parse("").unwrap();
    assert_eq!(ast, Regex::Tail);
    assert_eq!(ast.render(), "");
}

#[test]
fn dot_is_the_any_class() {
    assert_eq!(parse(".").unwrap(), Regex::Literal(Char::Any));
    assert_eq!(render_of("."), ".");
}

#[test]
fn escapes() {
    assert_eq!(parse("\\w").unwrap(), Regex::Literal(Char::Alphabet));
    assert_eq!(parse("\\d").unwrap(), Regex::Literal(Char::Number));
    assert_eq!(parse("\\+").unwrap(), Regex::Literal(Char::Just('+')));
}

#[test]
fn bracket_class_is_alternation_of_literals() {
    let ast = parse("[ab]").unwrap();
    assert_eq!(
        ast,
        Regex::AnyOf {
            head: Box::new(Regex::Literal(Char::Just('a'))),
            rest: Box::new(Regex::AnyOf {
                head: Box::new(Regex::Literal(Char::Just('b'))),
                rest: Box::new(Regex::Tail),
            }),
        }
    );
    assert_eq!(ast.render(), "[ab]");
}

#[test]
fn singleton_class_collapses_to_its_literal() {
    assert_eq!(parse("[a]").unwrap(), Regex::Literal(Char::Just('a')));
    assert_eq!(render_of("[a]"), "a");
}

#[test]
fn quantifier_bounds() {
    assert_eq!(render_of("a?"), "a?");
    assert_eq!(render_of("a*"), "a*");
    assert_eq!(render_of("a+"), "a+");
    assert_eq!(render_of("a{1}"), "a");
    assert_eq!(render_of("a{0,1}"), "a?");
    assert_eq!(render_of("a{,5}"), "a{,5}");
    assert_eq!(render_of("a{2,}"), "a{2,}");
    assert_eq!(render_of("a{2,2}"), "a{2}");
    assert_eq!(render_of("a{2,5}"), "a{2,5}");
    assert_eq!(render_of("a{0,}"), "a*");
    assert_eq!(render_of("a{1,}"), "a+");
}

#[test]
fn missing_lower_bound_defaults_to_zero() {
    assert_eq!(
        parse("a{,4}").unwrap(),
        Regex::Repeat {
            expr: Box::new(Regex::Literal(Char::Just('a'))),
            min: 0,
            max: Some(4),
        }
    );
}

#[test]
fn open_upper_bound() {
    assert_eq!(
        parse("a{2,}").unwrap(),
        Regex::Repeat {
            expr: Box::new(Regex::Literal(Char::Just('a'))),
            min: 2,
            max: None,
        }
    );
}

#[test]
fn parser_is_single_use() {
    let mut p = Parser::new();
    assert!(p.parse("a").is_ok());
    assert_eq!(p.parse("b"), Err(ParseError::AlreadyInUse));
}

#[test]
fn unexpected_char_in_quantifier() {
    assert_eq!(
        parse("a{2x}"),
        Err(ParseError::UnexpectedChar { expected: '0', actual: 'x' })
    );
}

#[test]
fn mismatched_class_delimiter() {
    assert_eq!(
        parse("[a)"),
        Err(ParseError::UnexpectedChar { expected: ']', actual: ')' })
    );
}

#[test]
fn dangling_escape_is_an_error() {
    assert_eq!(parse("\\"), Err(ParseError::UnexpectedEos));
    assert_eq!(parse("a{"), Err(ParseError::UnexpectedEos));
}

#[test]
fn oversized_repeat_count_is_an_error() {
    assert_eq!(
        parse("a{99999999999999999999999999}"),
        Err(ParseError::ShouldEscape)
    );
}

#[test]
fn non_literal_alternation_renders_with_pipes() {
    assert_eq!(render_of("ab|cd"), "ab|cd");
    assert_eq!(render_of("(ab|cd)*"), "(ab|cd)*");
    assert_eq!(render_of("(a|b)*"), "[ab]*");
}

#[test]
fn alternation_inside_a_sequence_keeps_its_parentheses() {
    let t = parse("a(bc|d)e").unwrap();
    assert_eq!(t.render(), "a(bc|d)e");
    assert_eq!(parse(&t.render()).unwrap(), t);
    // A literal-only alternation needs no parentheses: it renders as a class.
    assert_eq!(render_of("a(b|c)e"), "a[bc]e");
}

#[test]
fn empty_group_repeat() {
    assert_eq!(render_of("()*"), "()*");
}

#[test]
fn structural_literals_render_escaped() {
    assert_eq!(render_of("\\["), "\\[");
    assert_eq!(render_of("\\+"), "\\+");
    assert_eq!(render_of("\\."), "\\.");
    assert_eq!(render_of("\\\\"), "\\\\");
    assert_eq!(parse("\\[").unwrap(), Regex::Literal(Char::Just('[')));
    let twice = parse(&render_of("\\[")).unwrap();
    assert_eq!(twice, Regex::Literal(Char::Just('[')));
}

#[test]
fn double_quantifier_is_rejected() {
    assert_eq!(parse("a{2,3}{2}"), Err(ParseError::ShouldEscape));
    assert_eq!(parse("a**"), Err(ParseError::ShouldEscape));
}

#[test]
fn nested_repeats_render_parenthesized() {
    let star_star = parse("(a*)*").unwrap();
    assert_eq!(
        star_star,
        Regex::Repeat {
            expr: Box::new(Regex::Repeat {
                expr: Box::new(Regex::Literal(Char::Just('a'))),
                min: 0,
                max: None,
            }),
            min: 0,
            max: None,
        }
    );
    assert_eq!(star_star.render(), "(a*)*");
    assert_eq!(parse(&star_star.render()).unwrap(), star_star);

    let counted = parse("(a{2})+").unwrap();
    assert_eq!(counted.render(), "(a{2})+");
    assert_eq!(parse(&counted.render()).unwrap(), counted);

    let deep = parse("((\\d?)*)+").unwrap();
    assert_eq!(deep.render(), "((\\d?)*)+");
    assert_eq!(parse(&deep.render()).unwrap(), deep);
}

#[test]
fn unit_repeat_keeps_its_node_but_renders_bare() {
    let t = parse("a{1}").unwrap();
    assert!(matches!(t, Regex::Repeat { .. }));
    assert_eq!(t.render(), "a");
    assert_eq!(parse("a").unwrap(), Regex::Literal(Char::Just('a')));
}

#[test]
fn inverted_repeat_bounds_are_rejected() {
    assert_eq!(parse("a{3,1}"), Err(ParseError::ShouldEscape));
    assert!(parse("a{2,2}").is_ok());
    assert!(parse("a{1,3}").is_ok());
    assert!(parse("a{2,}").is_ok());
}

#[test]
fn error_messages() {
    assert_eq!(ParseError::AlreadyInUse.message(), "Parser already in use");
    assert_eq!(
        ParseError::UnexpectedChar { expected: ')', actual: 'x' }.message(),
        "Unexpected char 'x', expected ')'"
    );
    assert_eq!(ParseError::ShouldEscape.message(), "Unexpected control char detected");
    assert_eq!(ParseError::UnexpectedEos.message(), "Unexpected EOS detected");
}

#[test]
fn round_trip_is_idempotent() {
    let patterns = [
        "a",
        "\\d{3}",
        "a|b|c",
        "(ab)+",
        "",
        "x|",
        "[a]",
        "[abc]{2,3}",
        "ab|cd",
        "(a|b)*",
        ".",
        "\\w\\d",
        "a?",
        "a{2,}",
        "a{,5}",
        "(a)(b)",
        "()*",
        "\\w{5}you(0\\d){2,}",
        "a\\d{3}[ab]x*",
        "x+|[ab]|\\d{2,3}",
        "[ab]{2}\\w?",
        "\\[",
        "\\\\",
        "\\.",
        "a\\+b",
        "[\\[\\]]",
        "(a*)*",
        "(a{2})+",
        "x(a*)*b",
        "(a*)*|b",
        "([ab]+)?",
        "a(bc|d)e",
        "(ab|cd)x*",
        "((ab)+c)*",
        "(a|bc){2,}",
        "(()?)*",
        "(a|bc)(d|ef)",
        "x(ab|cd)+y",
        "ab|",
        "(x|)+",
    ];
    for p in patterns {
        let first = render_of(p);
        let second = render_of(&first);
        assert_eq!(second, first, "canonical form of {:?} must be stable", p);
    }
}
