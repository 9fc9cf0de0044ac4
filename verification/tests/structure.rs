use expr_parser::ast::{Expr, ExprBox, Sym};
use expr_parser::grammar::ErrorKind;
use expr_parser::parser::{atom, expr, list, paren, quote, skip_spaces};

fn lit(v: i64) -> Expr {
    Expr::literal(v)
}

fn sym(s: &str) -> Expr {
    Expr::name(Sym::new(s))
}

fn items(xs: Vec<Expr>) -> Expr {
    Expr::list(xs)
}

fn parsed(input: &str) -> Expr {
    let (rest, e) = expr(input).unwrap();
    assert_eq!(rest, "");
    e
}

#[test]
fn single_literal_is_wrapped_in_a_list() {
    let e = parsed("42");
    assert!(e.same(&items(vec![lit(42)])));
    match e.node() {
        ExprBox::List(xs) => {
            assert_eq!(xs.len(), 1);
            assert!(matches!(xs[0].node(), ExprBox::Literal(42)));
        },
        other => panic!("not a list: {:?}", other),
    }
}

#[test]
fn single_name_and_single_quote_are_wrapped_in_a_list() {
    assert!(parsed("x").same(&items(vec![sym("x")])));
    assert!(parsed(":x").same(&items(vec![Expr::quote(sym("x"))])));
}

#[test]
fn group_yields_the_node_of_the_expression_inside() {
    let (rest, grouped) = paren("(42)").unwrap();
    assert_eq!(rest, "");
    let plain = parsed("42");
    assert!(grouped.same(&plain));
    assert!(grouped.same(&items(vec![lit(42)])));
    let (rest, grouped) = atom("(42)").unwrap();
    assert_eq!(rest, "");
    assert!(grouped.same(&plain));
}

#[test]
fn group_is_one_element_of_the_list_around_it() {
    assert!(parsed("(42)").same(&items(vec![items(vec![lit(42)])])));
    assert!(parsed("((1))").same(&items(vec![items(vec![items(vec![lit(1)])])])));
    assert!(parsed("f (g x) 1").same(
        &items(vec![sym("f"), items(vec![sym("g"), sym("x")]), lit(1)])
    ));
}

#[test]
fn quote_then_name() {
    assert!(parsed(":x y").same(&items(vec![Expr::quote(sym("x")), sym("y")])));
}

#[test]
fn quote_wraps_one_atom() {
    let (rest, e) = quote(":x y").unwrap();
    assert_eq!(rest, " y");
    assert!(e.same(&Expr::quote(sym("x"))));
    let (rest, e) = quote(":12_3").unwrap();
    assert_eq!(rest, "");
    assert!(e.same(&Expr::quote(lit(123))));
    let (rest, e) = quote("::x").unwrap();
    assert_eq!(rest, "");
    assert!(e.same(&Expr::quote(Expr::quote(sym("x")))));
}

#[test]
fn quote_of_a_list_needs_parentheses() {
    let (rest, e) = quote(":(x y)").unwrap();
    assert_eq!(rest, "");
    assert!(e.same(&Expr::quote(items(vec![sym("x"), sym("y")]))));
    assert!(parsed(":(x y) z").same(
        &items(vec![Expr::quote(items(vec![sym("x"), sym("y")])), sym("z")])
    ));
}

#[test]
fn quote_allows_whitespace_behind_the_marker() {
    for input in [":x", ": x", ":   x", ":\tx", ":\n\r x"] {
        let (rest, e) = quote(input).unwrap();
        assert_eq!(rest, "");
        assert!(e.same(&Expr::quote(sym("x"))));
    }
}

#[test]
fn quote_fails_where_its_atom_fails() {
    let err = quote("x").unwrap_err();
    assert_eq!(err.rest, "x");
    assert_eq!(err.kind, ErrorKind::Syntax);
    let err = quote(":").unwrap_err();
    assert_eq!(err.rest, "");
    assert_eq!(err.kind, ErrorKind::Syntax);
    let err = quote(": )").unwrap_err();
    assert_eq!(err.rest, ")");
    let err = quote(":let").unwrap_err();
    assert_eq!(err.rest, "let");
    let err = quote(":(x").unwrap_err();
    assert_eq!(err.rest, "");
}

#[test]
fn atom_reports_the_failure_of_its_last_alternative() {
    let err = atom(":").unwrap_err();
    assert_eq!(err.rest, ":");
    assert_eq!(err.kind, ErrorKind::Syntax);
    let err = atom(": )").unwrap_err();
    assert_eq!(err.rest, ": )");
    let err = atom("(x").unwrap_err();
    assert_eq!(err.rest, "");
    let err = atom("(x ]").unwrap_err();
    assert_eq!(err.rest, "]");
    let err = atom("").unwrap_err();
    assert_eq!(err.rest, "");
    let err = atom("  x").unwrap_err();
    assert_eq!(err.rest, "  x");
}

#[test]
fn whitespace_inside_parentheses_is_insignificant() {
    let spaced = parsed("(  x   y )");
    let tight = parsed("(x y)");
    assert!(spaced.same(&tight));
    assert!(tight.same(&items(vec![items(vec![sym("x"), sym("y")])])));
    assert!(parsed("(\t\n x\r\n\ty\n)").same(&tight));
}

#[test]
fn any_run_of_whitespace_separates_atoms() {
    let expected = items(vec![sym("a"), sym("b"), sym("c")]);
    for input in ["a b c", "a  b   c", "a\tb\nc", "a \t\r\n b\r\nc"] {
        assert!(parsed(input).same(&expected));
    }
}

#[test]
fn atoms_without_whitespace_between_them_are_not_joined() {
    let (rest, e) = expr("a(b)").unwrap();
    assert_eq!(rest, "(b)");
    assert!(e.same(&items(vec![sym("a")])));
    let (rest, e) = expr("1:x").unwrap();
    assert_eq!(rest, ":x");
    assert!(e.same(&items(vec![lit(1)])));
    let (rest, e) = expr("(a)(b)").unwrap();
    assert_eq!(rest, "(b)");
    assert!(e.same(&items(vec![items(vec![sym("a")])])));
}

#[test]
fn only_the_four_blank_characters_separate() {
    let (rest, e) = expr("a\u{a0}b").unwrap();
    assert_eq!(rest, "\u{a0}b");
    assert!(e.same(&items(vec![sym("a")])));
    let (rest, e) = expr("a\u{b}b").unwrap();
    assert_eq!(rest, "\u{b}b");
    assert!(e.same(&items(vec![sym("a")])));
    assert_eq!(skip_spaces(" \t\r\n\u{a0}x"), "\u{a0}x");
    assert_eq!(skip_spaces("x "), "x ");
    assert_eq!(skip_spaces("   "), "");
    assert_eq!(skip_spaces(""), "");
}

#[test]
fn list_leaves_trailing_whitespace_and_what_does_not_parse() {
    let (rest, e) = list("a b ").unwrap();
    assert_eq!(rest, " ");
    assert!(e.same(&items(vec![sym("a"), sym("b")])));
    let (rest, e) = expr("a b )").unwrap();
    assert_eq!(rest, " )");
    assert!(e.same(&items(vec![sym("a"), sym("b")])));
    let (rest, e) = expr("a b # c").unwrap();
    assert_eq!(rest, " # c");
    assert!(e.same(&items(vec![sym("a"), sym("b")])));
}

#[test]
fn list_keeps_the_order_of_its_atoms() {
    assert!(parsed("3 1 2").same(&items(vec![lit(3), lit(1), lit(2)])));
    assert!(!parsed("3 1 2").same(&items(vec![lit(1), lit(2), lit(3)])));
    assert!(parsed("x 1 :y (z)").same(
        &items(vec![sym("x"), lit(1), Expr::quote(sym("y")), items(vec![sym("z")])])
    ));
}

#[test]
fn group_fails_without_its_closing_parenthesis() {
    let err = paren("(x").unwrap_err();
    assert_eq!(err.rest, "");
    assert_eq!(err.kind, ErrorKind::Syntax);
    let err = paren("(x y  ").unwrap_err();
    assert_eq!(err.rest, "");
    let err = paren("(x y ] z").unwrap_err();
    assert_eq!(err.rest, "] z");
    let err = paren("x)").unwrap_err();
    assert_eq!(err.rest, "x)");
    let err = expr("(a (b c)").unwrap_err();
    assert_eq!(err.rest, "");
    assert_eq!(err.kind, ErrorKind::Syntax);
}

#[test]
fn group_fails_where_nothing_is_inside() {
    let err = paren("()").unwrap_err();
    assert_eq!(err.rest, ")");
    assert_eq!(err.kind, ErrorKind::Syntax);
    let err = paren("(   )").unwrap_err();
    assert_eq!(err.rest, ")");
    let err = expr("(").unwrap_err();
    assert_eq!(err.rest, "");
    let err = expr(")").unwrap_err();
    assert_eq!(err.rest, ")");
    let err = expr("(let)").unwrap_err();
    assert_eq!(err.rest, "let)");
}

#[test]
fn group_leaves_what_follows_the_closing_parenthesis() {
    let (rest, e) = paren("( a ) b").unwrap();
    assert_eq!(rest, " b");
    assert!(e.same(&items(vec![sym("a")])));
}

#[test]
fn empty_input_is_a_syntax_failure() {
    let err = expr("").unwrap_err();
    assert_eq!(err.rest, "");
    assert_eq!(err.kind, ErrorKind::Syntax);
    let err = list("").unwrap_err();
    assert_eq!(err.rest, "");
    assert_eq!(err.kind, ErrorKind::Syntax);
}

#[test]
fn leading_whitespace_is_not_skipped_by_the_rules() {
    let err = expr(" x").unwrap_err();
    assert_eq!(err.rest, " x");
    assert_eq!(err.kind, ErrorKind::Syntax);
}

#[test]
fn deeply_nested_groups_parse() {
    let depth = 200;
    let mut input = String::new();
    for _ in 0..depth {
        input.push('(');
    }
    input.push('7');
    for _ in 0..depth {
        input.push(')');
    }
    let (rest, e) = expr(&input).unwrap();
    assert_eq!(rest, "");
    let mut expected = items(vec![lit(7)]);
    for _ in 0..depth {
        expected = items(vec![expected]);
    }
    assert!(e.same(&expected));
}

#[test]
fn parsing_one_input_does_not_depend_on_another() {
    let first = parsed("a (b 1) :c");
    assert!(expr("(").is_err());
    let second = parsed("a (b 1) :c");
    assert!(first.same(&second));
}

#[test]
fn unclosed_nesting_fails_without_parsing_anything_twice() {
    let depth = 300;
    let mut input = String::new();
    for _ in 0..depth {
        input.push_str("( ");
    }
    input.push('x');
    let err = expr(&input).unwrap_err();
    assert_eq!(err.rest, "");
    assert_eq!(err.kind, ErrorKind::Syntax);
    input.push_str(" ]");
    let err = expr(&input).unwrap_err();
    assert_eq!(err.rest, "]");
}

#[test]
fn nodes_compare_with_the_equality_operator() {
    let e = parsed("f (g 1) :x");
    let expected = items(vec![sym("f"), items(vec![sym("g"), lit(1)]), Expr::quote(sym("x"))]);
    assert_eq!(e, expected);
    assert_ne!(e, parsed("f (g 2) :x"));
    assert!(e == e.clone());
}

#[test]
fn success_and_failure_render_differently() {
    let ok = format!("{:?}", expr("42"));
    let err = format!("{:?}", expr(")"));
    assert!(ok.starts_with("Ok("));
    assert!(ok.contains("Literal(42)"));
    assert!(err.starts_with("Err("));
    assert!(err.contains("Syntax"));
    assert_eq!(ok, format!("{:?}", expr("42")));
}

#[test]
fn group_yields_the_same_whatever_follows_it() {
    let (rest, alone) = paren("(f (g 1) :x)").unwrap();
    assert_eq!(rest, "");
    for tail in ["", " y", ")", "(", "z", "1", ":", "_", " )", "\n"] {
        let input = format!("(f (g 1) :x){}", tail);
        let (rest, e) = paren(&input).unwrap();
        assert_eq!(rest, tail);
        assert_eq!(e, alone);
    }
}

#[test]
fn atom_yields_the_same_before_anything_that_does_not_continue_it() {
    for (text, tails) in [
        ("12_3", vec!["", " 4", ")", "(", ":", "-", " _5", "\t"]),
        ("ab_1", vec!["", " c", ")", "(", ":", "-", "\n"]),
        (":q", vec!["", " r", ")", "(", "::", "+"]),
        (": (a b)", vec!["", "c", "1", "_", ")", " d"]),
    ] {
        let (rest, alone) = atom(text).unwrap();
        assert_eq!(rest, "");
        for tail in tails {
            let input = format!("{}{}", text, tail);
            let (rest, e) = atom(&input).unwrap();
            assert_eq!(rest, tail);
            assert_eq!(e, alone);
        }
    }
}

#[test]
fn expression_yields_the_same_before_anything_that_ends_a_list() {
    let (rest, alone) = expr("f (g 1) :x").unwrap();
    assert_eq!(rest, "");
    for tail in [")", " )", "  ) y", ")(", "\t\n)", " ]", " let", "-", " 9223372036854775808"] {
        let input = format!("f (g 1) :x{}", tail);
        let (rest, e) = expr(&input).unwrap();
        assert_eq!(rest, tail);
        assert_eq!(e, alone);
    }
}

#[test]
fn whitespace_before_the_closing_parenthesis_is_insignificant() {
    let (rest, tight) = paren("(a (b) 1)").unwrap();
    assert_eq!(rest, "");
    for input in ["(a (b) 1 )", "(a (b) 1\t\n )", "( a (b) 1   )", "(\ta (b)   1)"] {
        let (rest, e) = paren(input).unwrap();
        assert_eq!(rest, "");
        assert_eq!(e, tight);
    }
    let (_, inner_spaced) = paren("(a (b ) 1)").unwrap();
    assert_eq!(inner_spaced, tight);
}
