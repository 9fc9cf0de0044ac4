use expr_parser::ast::{Expr, ExprBox};
use expr_parser::grammar::ErrorKind;
use expr_parser::parser::{atom, expr, literal};

fn value_of(e: &Expr) -> i64 {
    match e.node() {
        ExprBox::Literal(v) => *v,
        other => panic!("not a literal: {:?}", other),
    }
}

#[test]
fn literal_with_separators_decodes_to_the_digits_alone() {
    let (rest, e) = literal("1_000").unwrap();
    assert_eq!(rest, "");
    assert_eq!(value_of(&e), 1000);
    let (rest, e) = literal("42").unwrap();
    assert_eq!(rest, "");
    assert_eq!(value_of(&e), 42);
    let (rest, e) = literal("0_0").unwrap();
    assert_eq!(rest, "");
    assert_eq!(value_of(&e), 0);
}

#[test]
fn literal_joins_all_its_digit_runs() {
    let (rest, e) = literal("12_3_4567_8").unwrap();
    assert_eq!(rest, "");
    assert_eq!(value_of(&e), 12345678);
}

#[test]
fn literal_stops_where_the_digits_stop() {
    let (rest, e) = literal("12ab").unwrap();
    assert_eq!(rest, "ab");
    assert_eq!(value_of(&e), 12);
    let (rest, e) = literal("7 8").unwrap();
    assert_eq!(rest, " 8");
    assert_eq!(value_of(&e), 7);
}

#[test]
fn literal_leaves_a_separator_that_no_digit_follows() {
    let (rest, e) = literal("1_").unwrap();
    assert_eq!(rest, "_");
    assert_eq!(value_of(&e), 1);
    let (rest, e) = literal("1__2").unwrap();
    assert_eq!(rest, "__2");
    assert_eq!(value_of(&e), 1);
    let (rest, e) = literal("1_2_x").unwrap();
    assert_eq!(rest, "_x");
    assert_eq!(value_of(&e), 12);
}

#[test]
fn literal_needs_a_leading_digit() {
    for input in ["", "_1", "a1", " 1", "-1", "+1", "(1)", ":1"] {
        let err = literal(input).unwrap_err();
        assert_eq!(err.rest, input);
        assert_eq!(err.kind, ErrorKind::Syntax);
    }
}

#[test]
fn literal_takes_ascii_digits_only() {
    // ARABIC-INDIC DIGIT THREE is a digit to Unicode, but not to the grammar.
    let err = literal("\u{663}").unwrap_err();
    assert_eq!(err.rest, "\u{663}");
    assert_eq!(err.kind, ErrorKind::Syntax);
    let (rest, e) = literal("4\u{663}").unwrap();
    assert_eq!(rest, "\u{663}");
    assert_eq!(value_of(&e), 4);
}

#[test]
fn literal_accepts_leading_zeros() {
    let (rest, e) = literal("000_000_000_000_000_000_000_000_017").unwrap();
    assert_eq!(rest, "");
    assert_eq!(value_of(&e), 17);
}

#[test]
fn literal_reaches_the_largest_value() {
    let (rest, e) = literal("9223372036854775807").unwrap();
    assert_eq!(rest, "");
    assert_eq!(value_of(&e), i64::MAX);
    let (rest, e) = literal("9_223_372_036_854_775_807").unwrap();
    assert_eq!(rest, "");
    assert_eq!(value_of(&e), i64::MAX);
}

#[test]
fn literal_beyond_the_range_is_a_numeric_failure() {
    for input in [
        "9223372036854775808",
        "9_223_372_036_854_775_808",
        "9223372036854775810",
        "10000000000000000000",
        "99999999999999999999999999999999999999",
        "9223372036854775807_0",
    ] {
        let err = literal(input).unwrap_err();
        assert_eq!(err.rest, input);
        assert_eq!(err.kind, ErrorKind::Numeric);
    }
}

#[test]
fn literal_beyond_the_range_fails_with_what_follows_it() {
    let err = literal("9223372036854775808 rest").unwrap_err();
    assert_eq!(err.rest, "9223372036854775808 rest");
    assert_eq!(err.kind, ErrorKind::Numeric);
}

#[test]
fn too_large_literal_is_a_syntax_failure_of_the_expression() {
    let err = atom("9223372036854775808").unwrap_err();
    assert_eq!(err.rest, "9223372036854775808");
    assert_eq!(err.kind, ErrorKind::Syntax);
    let err = expr("9223372036854775808").unwrap_err();
    assert_eq!(err.rest, "9223372036854775808");
    assert_eq!(err.kind, ErrorKind::Syntax);
}

#[test]
fn too_large_literal_ends_a_list() {
    let (rest, e) = expr("1 9223372036854775808").unwrap();
    assert_eq!(rest, " 9223372036854775808");
    assert!(e.same(&Expr::list(vec![Expr::literal(1)])));
}
