use sat_solver::parser::{parse, parse_literal};
use sat_solver::types::{Formula, Variable};

#[test]
fn test_parse() {
    let input = "(x1 OR x2) AND (-x2 OR x3) AND (x1 OR -x3)";
    let expected = Formula::from(vec![
        vec![Variable::Positive(1), Variable::Positive(2)],
        vec![Variable::Negative(2), Variable::Positive(3)],
        vec![Variable::Positive(1), Variable::Negative(3)],
    ]);
    assert_eq!(parse(input), Some(expected));
}

#[test]
fn parser_test_parse() {
    let input = "(x1 OR x2) AND (-x2 OR x3) AND (x1 OR -x3)";
    let expected = Formula::from(vec![
        vec![Variable::Positive(1), Variable::Positive(2)],
        vec![Variable::Negative(2), Variable::Positive(3)],
        vec![Variable::Positive(1), Variable::Negative(3)],
    ]);
    assert_eq!(parse(input), Some(expected));
}

#[test]
fn test_parse_literal() {
    assert_eq!(parse_literal("x1"), Some(1));
    assert_eq!(parse_literal("x2"), Some(2));
    assert_eq!(parse_literal("x3"), Some(3));
}

#[test]
fn parser_test_parse_literal() {
    assert_eq!(parse_literal("x1"), Some(1));
    assert_eq!(parse_literal("x2"), Some(2));
    assert_eq!(parse_literal("x3"), Some(3));
}

#[test]
fn test_parse_single_variable() {
    let expected = Formula::from(vec![vec![Variable::Positive(42)]]);
    assert_eq!(parse("x42"), Some(expected));
}

#[test]
fn test_parse_case_insensitive() {
    let expected = Formula::from(vec![
        vec![Variable::Positive(1)],
        vec![Variable::Negative(2), Variable::Positive(3)],
    ]);
    assert_eq!(parse("X1 AnD (-X2 oR x3)"), Some(expected));
}

#[test]
fn test_parse_double_negation_marker() {
    // `trim_start_matches` removes every leading marker, so a doubled
    // marker still reads as one negation.
    let expected = Formula::from(vec![vec![Variable::Negative(7)]]);
    assert_eq!(parse("--x7"), Some(expected));
}

#[test]
fn test_parse_plus_sign_number() {
    // The number is read as `u32::from_str` reads it, which accepts one
    // leading plus sign.
    let expected = Formula::from(vec![vec![Variable::Positive(5)]]);
    assert_eq!(parse("x+5"), Some(expected));
}

#[test]
fn test_parse_token_inside_text() {
    // The connective tokens are matched anywhere in the text, not only
    // between spaces.
    let expected = Formula::from(vec![vec![
        Variable::Positive(1),
        Variable::Positive(2),
    ]]);
    assert_eq!(parse("x1ORx2"), Some(expected));
    let expected2 = Formula::from(vec![vec![Variable::Positive(1)], vec![Variable::Positive(2)]]);
    assert_eq!(parse("x1ANDx2"), Some(expected2));
}

#[test]
fn test_parse_whitespace() {
    let expected = Formula::from(vec![vec![Variable::Positive(1)], vec![Variable::Negative(2)]]);
    assert_eq!(parse("  \t x1 \t AND\n -x2  "), Some(expected));
    // Non-breaking spaces are white space too.
    let expected2 = Formula::from(vec![vec![Variable::Positive(3)]]);
    assert_eq!(parse("\u{a0}x3\u{a0}"), Some(expected2));
}

#[test]
fn test_parse_missing_variable() {
    assert_eq!(parse(""), None);
    assert_eq!(parse("x1 OR"), None);
    assert_eq!(parse("x1 AND"), None);
}

#[test]
fn test_parse_invalid_variable() {
    assert_eq!(parse("y1"), None);
    assert_eq!(parse("x1 OR y2"), None);
    assert_eq!(parse("1"), None);
}

#[test]
fn test_parse_invalid_number() {
    assert_eq!(parse("xa"), None);
    assert_eq!(parse("x"), None);
    assert_eq!(parse("x1b"), None);
}

#[test]
fn test_parse_number_overflow() {
    assert_eq!(parse("x4294967295"), Some(Formula::from(vec![vec![Variable::Positive(4294967295)]])));
    assert_eq!(parse("x4294967296"), None);
}

#[test]
fn test_parse_literal_rejects() {
    assert_eq!(parse_literal(""), None);
    assert_eq!(parse_literal("  "), None);
    assert_eq!(parse_literal("y1"), None);
    assert_eq!(parse_literal("x"), None);
    assert_eq!(parse_literal("x 1"), None);
    assert_eq!(parse_literal("  x12  "), Some(12));
    assert_eq!(parse_literal("X3"), Some(3));
}
