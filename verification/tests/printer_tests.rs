use sat_solver::printer::PrintStyle;

#[test]
fn test_lit_style() {
    assert_eq!(PrintStyle::Normal.lit_style(1), "X1");
    assert_eq!(PrintStyle::Programmatic.lit_style(1), "X1");
    assert_eq!(PrintStyle::Mathematical.lit_style(1), "𝑋₁");
    assert_eq!(PrintStyle::Normal.lit_style(10), "X10");
    assert_eq!(PrintStyle::Programmatic.lit_style(10), "X10");
    assert_eq!(PrintStyle::Mathematical.lit_style(10), "𝑋₁₀");
    assert_eq!(PrintStyle::Normal.lit_style(100), "X100");
    assert_eq!(PrintStyle::Programmatic.lit_style(100), "X100");
    assert_eq!(PrintStyle::Mathematical.lit_style(100), "𝑋₁₀₀");
}

#[test]
fn test_neg_sign() {
    assert_eq!(PrintStyle::Normal.neg_sign(), "-");
    assert_eq!(PrintStyle::Programmatic.neg_sign(), "!");
    assert_eq!(PrintStyle::Mathematical.neg_sign(), "¬");
}

#[test]
fn test_bool_style() {
    assert_eq!(PrintStyle::Normal.bool_style(true), "T");
    assert_eq!(PrintStyle::Normal.bool_style(false), "F");
    assert_eq!(PrintStyle::Programmatic.bool_style(true), "1");
    assert_eq!(PrintStyle::Programmatic.bool_style(false), "0");
    assert_eq!(PrintStyle::Mathematical.bool_style(true), "⊤");
    assert_eq!(PrintStyle::Mathematical.bool_style(false), "⊥");
}

#[test]
fn test_connective_styles() {
    assert_eq!(PrintStyle::Normal.and_style(), "and");
    assert_eq!(PrintStyle::Normal.or_style(), "or");
    assert_eq!(PrintStyle::Programmatic.and_style(), "&");
    assert_eq!(PrintStyle::Programmatic.or_style(), "|");
    assert_eq!(PrintStyle::Mathematical.and_style(), "∧");
    assert_eq!(PrintStyle::Mathematical.or_style(), "∨");
}

#[test]
fn test_default_style() {
    assert_eq!(PrintStyle::default(), PrintStyle::Normal);
}
