//! The syntax tree: shared, immutable nodes and their mathematical model.
//!
//! A node is reached through a handle, `Expr`, and a handle gives no way to
//! change what it points to: a tree, once built, stays as it is.
use vstd::prelude::*;
use std::rc::Rc;

verus! {

/// The mathematical model of a syntax tree.
pub enum Tree {
    /// A signed 64-bit integer.
    Literal(i64),
    /// An identifier, by its spelling.
    Name(Seq<char>),
    /// Expressions written side by side, in their order.
    List(Seq<Tree>),
    /// One quoted expression.
    Quote(Box<Tree>),
}

/// Calls `Rc::clone`. Trusted: the new handle points to the same value.
#[verifier::external_body]
fn share<T>(rc: &Rc<T>) -> (r: Rc<T>)
    ensures
        r == *rc,
{
    Rc::clone(rc)
}

/// An identifier: an immutable, shared string. Two symbols are equal where
/// their spellings are.
#[derive(Debug)]
pub struct Sym(Rc<String>);

impl View for Sym {
    type V = Seq<char>;

    closed spec fn view(&self) -> Seq<char> {
        self.0@
    }
}

impl Sym {
    /// The symbol spelled `s`.
    pub fn new(s: &str) -> (r: Sym)
        ensures
            r@ == s@,
    {
        Sym(Rc::new(s.to_owned()))
    }

    /// The symbol spelled `s`, which becomes the shared string.
    pub fn from_string(s: String) -> (r: Sym)
        ensures
            r@ == s@,
    {
        Sym(Rc::new(s))
    }

    /// The spelling.
    pub fn as_str(&self) -> (r: &str)
        ensures
            r@ == self@,
    {
        self.0.as_str()
    }

    /// The counted reference to the shared string.
    pub fn as_rc(&self) -> (r: &Rc<String>)
        ensures
            r@ == self@,
    {
        &self.0
    }
}

impl Clone for Sym {
    /// Another handle to the same string; nothing is copied.
    fn clone(&self) -> (r: Sym)
        ensures
            r == *self,
    {
        Sym(share(&self.0))
    }
}

impl PartialEq for Sym {
    fn eq(&self, other: &Sym) -> (r: bool) {
        *self.0 == *other.0
    }
}

impl Eq for Sym {

}

impl vstd::std_specs::cmp::PartialEqSpecImpl for Sym {
    open spec fn obeys_eq_spec() -> bool {
        true
    }

    open spec fn eq_spec(&self, other: &Sym) -> bool {
        self@ == other@
    }
}

/// What a node is: its variant, and the symbol or the nodes below it.
#[derive(Debug)]
pub enum ExprBox {
    /// An integer literal.
    Literal(i64),
    /// A reference to an identifier.
    Name(Sym),
    /// One or more expressions side by side.
    List(Vec<Expr>),
    /// A quoted atom.
    Quote(Expr),
}

/// A handle to a node of the syntax tree. Nodes are shared by reference
/// counting: a clone is another handle to the same node. Two handles are equal
/// where the trees below them are the same.
#[derive(Debug)]
pub struct Expr(Rc<ExprBox>);

/// The model of the tree below the node that `e` points to.
pub closed spec fn tree_of(e: Expr) -> Tree
    decreases e, 1nat,
{
    tree_of_box(*e.0)
}

/// The model of the tree below the node `b`.
pub open spec fn tree_of_box(b: ExprBox) -> Tree
    decreases b, 0nat,
{
    match b {
        ExprBox::Literal(v) => Tree::Literal(v),
        ExprBox::Name(s) => Tree::Name(s@),
        ExprBox::List(xs) => Tree::List(
            Seq::new(
                xs@.len(),
                |i: int|
                    if 0 <= i < xs@.len() {
                        tree_of(xs@[i])
                    } else {
                        arbitrary()
                    },
            ),
        ),
        ExprBox::Quote(e) => Tree::Quote(Box::new(tree_of(e))),
    }
}

impl View for Expr {
    type V = Tree;

    open spec fn view(&self) -> Tree {
        tree_of(*self)
    }
}

impl View for ExprBox {
    type V = Tree;

    open spec fn view(&self) -> Tree {
        tree_of_box(*self)
    }
}

/// The models of a sequence of nodes.
pub open spec fn trees(xs: Seq<Expr>) -> Seq<Tree> {
    Seq::new(xs.len(), |i: int| xs[i]@)
}

impl Expr {
    /// The node for the integer `v`.
    pub fn literal(v: i64) -> (r: Expr)
        ensures
            r@ == Tree::Literal(v),
    {
        Expr(Rc::new(ExprBox::Literal(v)))
    }

    /// The node for the identifier `s`.
    pub fn name(s: Sym) -> (r: Expr)
        ensures
            r@ == Tree::Name(s@),
    {
        Expr(Rc::new(ExprBox::Name(s)))
    }

    /// The node for the expressions `xs`, side by side.
    pub fn list(xs: Vec<Expr>) -> (r: Expr)
        ensures
            r@ == Tree::List(trees(xs@)),
    {
        let r = Expr(Rc::new(ExprBox::List(xs)));
        proof {
            assert(r@->List_0 =~= trees(xs@));
        }
        r
    }

    /// The node for the quoted expression `e`.
    pub fn quote(e: Expr) -> (r: Expr)
        ensures
            r@ == Tree::Quote(Box::new(e@)),
    {
        Expr(Rc::new(ExprBox::Quote(e)))
    }

    /// The node that the handle points to.
    pub fn node(&self) -> (r: &ExprBox)
        ensures
            r@ == self@,
    {
        &*self.0
    }

    /// The counted reference to the shared node.
    pub fn as_rc(&self) -> (r: &Rc<ExprBox>)
        ensures
            r@ == self@,
    {
        &self.0
    }

    /// Whether the two trees are the same, node by node.
    pub fn same(&self, other: &Expr) -> (r: bool)
        ensures
            r == (self@ == other@),
        decreases self,
    {
        match (&*self.0, &*other.0) {
            (ExprBox::Literal(a), ExprBox::Literal(b)) => *a == *b,
            (ExprBox::Name(a), ExprBox::Name(b)) => a == b,
            (ExprBox::Quote(a), ExprBox::Quote(b)) => a.same(b),
            (ExprBox::List(xs), ExprBox::List(ys)) => {
                if xs.len() != ys.len() {
                    proof {
                        assert(self@->List_0.len() == xs@.len());
                        assert(other@->List_0.len() == ys@.len());
                    }
                    return false;
                }
                let mut i: usize = 0;
                while i < xs.len()
                    invariant
                        i <= xs@.len(),
                        xs@.len() == ys@.len(),
                        *self.0 == ExprBox::List(*xs),
                        *other.0 == ExprBox::List(*ys),
                        forall|j: int| 0 <= j < i ==> (#[trigger] xs@[j])@ == ys@[j]@,
                    decreases xs@.len() - i,
                {
                    if !xs[i].same(&ys[i]) {
                        proof {
                            assert(self@->List_0[i as int] == xs@[i as int]@);
                            assert(other@->List_0[i as int] == ys@[i as int]@);
                        }
                        return false;
                    }
                    i = i + 1;
                }
                proof {
                    assert(self@->List_0 =~= other@->List_0);
                }
                true
            },
            _ => false,
        }
    }
}

impl Clone for Expr {
    /// Another handle to the same node; nothing is copied.
    fn clone(&self) -> (r: Expr)
        ensures
            r == *self,
    {
        Expr(share(&self.0))
    }
}

impl PartialEq for Expr {
    fn eq(&self, other: &Expr) -> (r: bool) {
        self.same(other)
    }
}

impl Eq for Expr {

}

impl vstd::std_specs::cmp::PartialEqSpecImpl for Expr {
    open spec fn obeys_eq_spec() -> bool {
        true
    }

    open spec fn eq_spec(&self, other: &Expr) -> bool {
        self@ == other@
    }
}

} // verus!
