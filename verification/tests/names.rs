use expr_parser::ast::{Expr, ExprBox, Sym};
use expr_parser::grammar::ErrorKind;
use expr_parser::parser::{atom, expr, is_reserved, list, name};

fn spelling_of(e: &Expr) -> String {
    match e.node() {
        ExprBox::Name(s) => s.as_str().to_string(),
        other => panic!("not a name: {:?}", other),
    }
}

#[test]
fn identifier_parses_to_a_name_with_its_spelling() {
    for input in ["x", "abc", "a1", "a_", "a_b_c", "x__", "camelCase", "A", "Z9_z", "a1b2c3"] {
        let (rest, e) = name(input).unwrap();
        assert_eq!(rest, "");
        assert_eq!(spelling_of(&e), input);
    }
}

#[test]
fn name_stops_where_the_identifier_stops() {
    let (rest, e) = name("ab1_c d").unwrap();
    assert_eq!(rest, " d");
    assert_eq!(spelling_of(&e), "ab1_c");
    let (rest, e) = name("x-y").unwrap();
    assert_eq!(rest, "-y");
    assert_eq!(spelling_of(&e), "x");
    let (rest, e) = name("f(x)").unwrap();
    assert_eq!(rest, "(x)");
    assert_eq!(spelling_of(&e), "f");
    let (rest, e) = name("a:b").unwrap();
    assert_eq!(rest, ":b");
    assert_eq!(spelling_of(&e), "a");
}

#[test]
fn name_needs_a_leading_letter() {
    for input in ["", "1a", "_a", " a", "(a)", ":a", "-"] {
        let err = name(input).unwrap_err();
        assert_eq!(err.rest, input);
        assert_eq!(err.kind, ErrorKind::Syntax);
    }
}

#[test]
fn name_takes_ascii_letters_only() {
    let err = name("\u{e9}t\u{e9}").unwrap_err();
    assert_eq!(err.rest, "\u{e9}t\u{e9}");
    let (rest, e) = name("caf\u{e9}").unwrap();
    assert_eq!(rest, "\u{e9}");
    assert_eq!(spelling_of(&e), "caf");
}

#[test]
fn each_keyword_alone_is_no_name() {
    for input in ["fn", "macro", "lam", "let", "set", "do"] {
        assert!(is_reserved(input));
        let err = name(input).unwrap_err();
        assert_eq!(err.rest, input);
        assert_eq!(err.kind, ErrorKind::Syntax);
        let err = atom(input).unwrap_err();
        assert_eq!(err.rest, input);
        assert_eq!(err.kind, ErrorKind::Syntax);
        let err = list(input).unwrap_err();
        assert_eq!(err.rest, input);
        let err = expr(input).unwrap_err();
        assert_eq!(err.rest, input);
        assert_eq!(err.kind, ErrorKind::Syntax);
    }
}

#[test]
fn keyword_is_no_name_whatever_follows_the_lexeme() {
    let err = name("let x").unwrap_err();
    assert_eq!(err.rest, "let x");
    let err = name("do)").unwrap_err();
    assert_eq!(err.rest, "do)");
    let err = expr("fn f x").unwrap_err();
    assert_eq!(err.rest, "fn f x");
    assert_eq!(err.kind, ErrorKind::Syntax);
}

#[test]
fn keyword_inside_a_longer_identifier_is_a_name() {
    for input in ["fnx", "letter", "do_", "set1", "lambda", "macros", "xfn", "FN", "Let", "DO"] {
        assert!(!is_reserved(input));
        let (rest, e) = name(input).unwrap();
        assert_eq!(rest, "");
        assert_eq!(spelling_of(&e), input);
    }
}

#[test]
fn keyword_ends_a_list() {
    let (rest, e) = expr("f let x").unwrap();
    assert_eq!(rest, " let x");
    assert!(e.same(&Expr::list(vec![Expr::name(Sym::new("f"))])));
}

#[test]
fn reserved_spellings_are_exactly_six() {
    for input in ["", "f", "n", "fn ", " fn", "f n", "exit", "define", "lambda", "quote"] {
        assert!(!is_reserved(input));
    }
}
