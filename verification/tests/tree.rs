use std::rc::Rc;
use expr_parser::ast::{Expr, ExprBox, Sym};

#[test]
fn symbols_are_equal_by_their_spelling() {
    let a = Sym::new("abc");
    let b = Sym::new("abc");
    let c = Sym::new("abd");
    assert!(!Rc::ptr_eq(a.as_rc(), b.as_rc()));
    assert!(a == b);
    assert!(a != c);
    assert_eq!(a.as_str(), "abc");
}

#[test]
fn clone_of_a_symbol_shares_the_string() {
    let a = Sym::new("abc");
    let b = a.clone();
    assert!(Rc::ptr_eq(a.as_rc(), b.as_rc()));
    assert_eq!(Rc::strong_count(a.as_rc()), 2);
    assert!(a == b);
}

#[test]
fn clone_of_a_node_shares_the_node() {
    let e = Expr::list(vec![Expr::literal(1), Expr::quote(Expr::name(Sym::new("x")))]);
    let f = e.clone();
    assert!(Rc::ptr_eq(e.as_rc(), f.as_rc()));
    assert_eq!(Rc::strong_count(e.as_rc()), 2);
    assert!(e.same(&f));
    drop(f);
    assert_eq!(Rc::strong_count(e.as_rc()), 1);
}

#[test]
fn constructors_make_the_variant_they_name() {
    assert!(matches!(Expr::literal(-5).node(), ExprBox::Literal(-5)));
    match Expr::name(Sym::new("n")).node() {
        ExprBox::Name(s) => assert_eq!(s.as_str(), "n"),
        other => panic!("not a name: {:?}", other),
    }
    match Expr::quote(Expr::literal(3)).node() {
        ExprBox::Quote(e) => assert!(matches!(e.node(), ExprBox::Literal(3))),
        other => panic!("not a quote: {:?}", other),
    }
    match Expr::list(vec![Expr::literal(1), Expr::literal(2)]).node() {
        ExprBox::List(xs) => {
            assert_eq!(xs.len(), 2);
            assert!(matches!(xs[0].node(), ExprBox::Literal(1)));
            assert!(matches!(xs[1].node(), ExprBox::Literal(2)));
        },
        other => panic!("not a list: {:?}", other),
    }
}

#[test]
fn same_compares_trees_node_by_node() {
    let x = || Expr::name(Sym::new("x"));
    let a = Expr::list(vec![Expr::literal(1), Expr::quote(x()), Expr::list(vec![x()])]);
    let b = Expr::list(vec![Expr::literal(1), Expr::quote(x()), Expr::list(vec![x()])]);
    assert!(a.same(&b));
    assert!(b.same(&a));
    assert!(a.same(&a));
}

#[test]
fn same_tells_different_trees_apart() {
    let x = || Expr::name(Sym::new("x"));
    let y = || Expr::name(Sym::new("y"));
    assert!(!Expr::literal(1).same(&Expr::literal(2)));
    assert!(!x().same(&y()));
    assert!(!x().same(&Expr::literal(1)));
    assert!(!x().same(&Expr::quote(x())));
    assert!(!x().same(&Expr::list(vec![x()])));
    assert!(!Expr::quote(x()).same(&Expr::quote(y())));
    assert!(!Expr::quote(x()).same(&Expr::list(vec![x()])));
    assert!(!Expr::list(vec![x(), y()]).same(&Expr::list(vec![y(), x()])));
    assert!(!Expr::list(vec![x()]).same(&Expr::list(vec![x(), x()])));
    assert!(!Expr::list(vec![x(), x()]).same(&Expr::list(vec![x()])));
    assert!(!Expr::list(vec![]).same(&Expr::list(vec![x()])));
    assert!(Expr::list(vec![]).same(&Expr::list(vec![])));
    assert!(!Expr::list(vec![Expr::list(vec![x()])]).same(&Expr::list(vec![x()])));
}

#[test]
fn clone_of_a_tree_shares_every_node_below() {
    let inner = Expr::list(vec![Expr::literal(1)]);
    let outer = Expr::list(vec![inner.clone(), Expr::quote(inner.clone())]);
    let copy = outer.clone();
    assert_eq!(Rc::strong_count(inner.as_rc()), 3);
    match copy.node() {
        ExprBox::List(xs) => assert!(Rc::ptr_eq(xs[0].as_rc(), inner.as_rc())),
        other => panic!("not a list: {:?}", other),
    }
}

#[test]
fn symbol_takes_over_a_string() {
    let s = Sym::from_string(String::from("name_1"));
    assert_eq!(s.as_str(), "name_1");
    assert!(s == Sym::new("name_1"));
}
