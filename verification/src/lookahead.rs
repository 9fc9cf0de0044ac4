//! How far a rule looks: what it yields depends on the characters it consumes
//! and on little of what follows them.
//!
//! A lexeme ends where the next character cannot continue it; a list ends
//! where no further atom follows; a group ends at its closing parenthesis.
//! Beyond that the input can be exchanged without any effect on the result.
use vstd::prelude::*;
use crate::ast::Tree;
use crate::chars::{CharClass, all_in, is_run_end, lemma_run_len, run_len};
use crate::grammar::{
    Failure, groups_len, lemma_atom_advances, lemma_expr_advances, lemma_groups_len,
    lemma_literal_len, lemma_more_advances, lemma_name_len, lemma_skip_space, literal_len,
    name_len, parse_atom, parse_expr, parse_group, parse_list, parse_literal, parse_more,
    parse_name, parse_quote, skip_space,
};
use crate::laws::{
    ends_run, law_expr_is_list_rule, law_group_is_transparent, lemma_run_then_tail,
};

verus! {

/// Whether `c` starts, after whitespace if any, with a closing parenthesis.
pub open spec fn closes(c: Seq<char>) -> bool {
    skip_space(c).len() > 0 && skip_space(c)[0] == ')'
}

/// Whether a list that has arrived at `c` ends there: `c` neither continues
/// the last lexeme nor holds a further atom behind whitespace.
pub open spec fn ends_list(c: Seq<char>) -> bool {
    ends_run(CharClass::Word, c) && parse_more(c) == (c, Seq::<Tree>::empty())
}

/// A run that ends within `a`, or at its end before something that does not
/// continue it, is the same whatever follows `a`.
proof fn lemma_run_agrees(class: CharClass, a: Seq<char>, u: Seq<char>, u2: Seq<char>)
    requires
        run_len(class, a + u) <= a.len(),
        run_len(class, a + u) < a.len() || ends_run(class, u2),
    ensures
        run_len(class, a + u2) == run_len(class, a + u),
{
    let n = run_len(class, a + u) as int;
    lemma_run_len(class, a + u);
    assert((a + u2).take(n) =~= (a + u).take(n));
    if n < a.len() {
        assert((a + u2)[n] == (a + u)[n]);
    }
    assert(is_run_end(class, a + u2, n));
    lemma_run_len(class, a + u2);
}

/// A suffix of `a + c` that holds all of `c` is a suffix of `a`, then `c`.
proof fn lemma_split(a: Seq<char>, c: Seq<char>, r: Seq<char>) -> (j: int)
    requires
        r.is_suffix_of(a + c),
        r.len() >= c.len(),
    ensures
        0 <= j <= a.len(),
        j == a.len() + c.len() - r.len(),
        r == a.skip(j) + c,
        a + c == a.take(j) + (a.skip(j) + c),
{
    let j = a.len() + c.len() - r.len();
    assert(r =~= a.skip(j) + c);
    assert(a + c =~= a.take(j) + (a.skip(j) + c));
    j
}

/// Groups of a literal that end where `g` ends do so whatever follows, as
/// long as it cannot continue them.
proof fn lemma_groups_agree(g: Seq<char>, u: Seq<char>, u2: Seq<char>)
    requires
        groups_len(g + u) == g.len(),
        ends_run(CharClass::Word, u2),
    ensures
        groups_len(g + u2) == g.len(),
    decreases g.len(),
{
    let s = g + u;
    let s2 = g + u2;
    if g.len() == 0 {
        assert(s2 =~= u2);
    } else {
        let h = g.skip(1);
        assert(s.skip(1) =~= h + u);
        assert(s2.skip(1) =~= h + u2);
        let k = 1 + run_len(CharClass::Digit, s.skip(1)) as int;
        lemma_run_len(CharClass::Digit, s.skip(1));
        lemma_groups_len(s.skip(k));
        lemma_run_agrees(CharClass::Digit, h, u, u2);
        assert(s.skip(k) =~= g.skip(k) + u);
        assert(s2.skip(k) =~= g.skip(k) + u2);
        lemma_groups_agree(g.skip(k), u, u2);
        assert(s2[0] == s[0]);
    }
}

/// A literal that ends where `a` ends does so whatever follows, as long as it
/// cannot continue the lexeme.
proof fn lemma_literal_stable(a: Seq<char>, u: Seq<char>, u2: Seq<char>, t: Tree)
    requires
        parse_literal(a + u) == Ok::<_, Failure>((u, t)),
        ends_run(CharClass::Word, u2),
    ensures
        parse_literal(a + u2) == Ok::<_, Failure>((u2, t)),
{
    let s = a + u;
    let s2 = a + u2;
    lemma_literal_len(s);
    let n = literal_len(s) as int;
    assert(n == a.len());
    let d = run_len(CharClass::Digit, s) as int;
    lemma_run_len(CharClass::Digit, s);
    lemma_groups_len(s.skip(d));
    lemma_run_agrees(CharClass::Digit, a, u, u2);
    assert(s.skip(d) =~= a.skip(d) + u);
    assert(s2.skip(d) =~= a.skip(d) + u2);
    lemma_groups_agree(a.skip(d), u, u2);
    assert(s.take(n) =~= a);
    assert(s2.take(n) =~= a);
    assert(s2.skip(n) =~= u2);
}

/// A name that ends where `a` ends does so whatever follows, as long as it
/// cannot continue the identifier.
proof fn lemma_name_stable(a: Seq<char>, u: Seq<char>, u2: Seq<char>, t: Tree)
    requires
        parse_name(a + u) == Ok::<_, Failure>((u, t)),
        ends_run(CharClass::Word, u2),
    ensures
        parse_name(a + u2) == Ok::<_, Failure>((u2, t)),
{
    let s = a + u;
    let s2 = a + u2;
    lemma_name_len(s);
    let n = name_len(s) as int;
    assert(n == a.len());
    assert(s.skip(1) =~= a.skip(1) + u);
    assert(s2.skip(1) =~= a.skip(1) + u2);
    lemma_run_agrees(CharClass::Word, a.skip(1), u, u2);
    assert(s2[0] == s[0]);
    assert(s.take(n) =~= a);
    assert(s2.take(n) =~= a);
    assert(s2.skip(n) =~= u2);
}

/// A closing parenthesis, behind whitespace or not, ends a list: no atom
/// starts with it.
pub proof fn lemma_close_ends_list(c: Seq<char>)
    requires
        closes(c),
    ensures
        ends_list(c),
{
    lemma_run_len(CharClass::Space, c);
    let n = run_len(CharClass::Space, c) as int;
    if n == 0 {
        assert(c.skip(0) =~= c);
    } else {
        assert(CharClass::Space.holds(c.take(n)[0]));
        lemma_no_atom_at_close(c.skip(n));
    }
}

/// No atom starts with a closing parenthesis.
proof fn lemma_no_atom_at_close(x: Seq<char>)
    requires
        x.len() > 0,
        x[0] == ')',
    ensures
        parse_atom(x) is Err,
{
    assert(parse_quote(x) is Err);
    assert(parse_literal(x) is Err);
    assert(parse_name(x) is Err);
    assert(parse_group(x) is Err);
}

/// Where a list goes on behind `y`, `y` starts with whitespace.
proof fn lemma_more_moves(y: Seq<char>, c: Seq<char>, ts: Seq<Tree>)
    requires
        y.len() > 0,
        parse_more(y + c) == (c, ts),
    ensures
        CharClass::Space.holds(y[0]),
{
    let n = run_len(CharClass::Space, y + c) as int;
    lemma_run_len(CharClass::Space, y + c);
    if n > 0 {
        assert(CharClass::Space.holds((y + c).take(n)[0]));
    }
}

/// A quote that ends where `a` ends does so whatever follows.
proof fn lemma_quote_stable(a: Seq<char>, u: Seq<char>, u2: Seq<char>, t: Tree)
    requires
        parse_quote(a + u) == Ok::<_, Failure>((u, t)),
        ends_run(CharClass::Word, u2),
    ensures
        parse_quote(a + u2) == Ok::<_, Failure>((u2, t)),
    decreases a.len(), 0nat,
{
    let s = a + u;
    let s2 = a + u2;
    let m = run_len(CharClass::Space, s.skip(1)) as int;
    lemma_run_len(CharClass::Space, s.skip(1));
    let inner = skip_space(s.skip(1));
    lemma_atom_advances(inner);
    assert(s.skip(1) =~= a.skip(1) + u);
    assert(s2.skip(1) =~= a.skip(1) + u2);
    lemma_run_agrees(CharClass::Space, a.skip(1), u, u2);
    assert(inner =~= a.skip(1 + m) + u);
    assert(skip_space(s2.skip(1)) =~= a.skip(1 + m) + u2);
    let q = parse_atom(inner)->Ok_0.1;
    lemma_atom_stable(a.skip(1 + m), u, u2, q);
    assert(s2[0] == s[0]);
}

/// A group that ends where `a` ends does so whatever follows.
proof fn lemma_group_stable(a: Seq<char>, u: Seq<char>, u2: Seq<char>, t: Tree)
    requires
        parse_group(a + u) == Ok::<_, Failure>((u, t)),
    ensures
        parse_group(a + u2) == Ok::<_, Failure>((u2, t)),
    decreases a.len(), 0nat,
{
    let s = a + u;
    let s2 = a + u2;
    let m = run_len(CharClass::Space, s.skip(1)) as int;
    lemma_run_len(CharClass::Space, s.skip(1));
    let inner = skip_space(s.skip(1));
    lemma_expr_advances(inner);
    law_expr_is_list_rule(inner);
    let r = parse_expr(inner)->Ok_0.0;
    lemma_skip_space(r);
    lemma_run_len(CharClass::Space, r);
    let q = run_len(CharClass::Space, r) as int;
    let close = skip_space(r);
    assert(close.len() == u.len() + 1);
    // The whitespace behind the opening parenthesis lies within `a`.
    assert(s.skip(1) =~= a.skip(1) + u);
    assert(s2.skip(1) =~= a.skip(1) + u2);
    lemma_run_agrees(CharClass::Space, a.skip(1), u, u2);
    let a_rest = a.skip(1 + m);
    assert(inner =~= a_rest + u);
    let inner2 = skip_space(s2.skip(1));
    assert(inner2 =~= a_rest + u2);
    // What the inner expression leaves is made of `a`'s end and `u`.
    let j = lemma_split(a_rest, u, r);
    let front = a_rest.take(j);
    let z = a_rest.skip(j);
    let r2 = z + u2;
    assert(z.len() == q + 1);
    assert(r.take(q) =~= z.take(q));
    assert(r[q] == z[q]);
    assert(close[0] == r[q]);
    assert(r2.take(q) =~= z.take(q));
    assert(r2[q] == z[q]);
    assert(is_run_end(CharClass::Space, r2, q));
    lemma_run_len(CharClass::Space, r2);
    assert(skip_space(r2) =~= seq![')'] + u2);
    assert(skip_space(r2).skip(1) =~= u2);
    assert(close.skip(1) =~= u);
    lemma_close_ends_list(r2);
    lemma_list_stable(front, r, r2, t);
    assert(inner2 =~= front + r2);
    law_expr_is_list_rule(inner2);
    assert(s2[0] == s[0]);
}

/// An atom that ends where `a` ends does so whatever follows, as long as it
/// cannot continue the atom's last lexeme.
proof fn lemma_atom_stable(a: Seq<char>, u: Seq<char>, u2: Seq<char>, t: Tree)
    requires
        parse_atom(a + u) == Ok::<_, Failure>((u, t)),
        ends_run(CharClass::Word, u2),
    ensures
        parse_atom(a + u2) == Ok::<_, Failure>((u2, t)),
    decreases a.len(), 1nat,
{
    let s = a + u;
    let s2 = a + u2;
    lemma_atom_advances(s);
    assert(a.len() > 0);
    assert(s2[0] == s[0]);
    if parse_quote(s) is Ok {
        lemma_quote_stable(a, u, u2, t);
    } else if parse_literal(s) is Ok {
        lemma_literal_stable(a, u, u2, t);
    } else if parse_name(s) is Ok {
        lemma_name_stable(a, u, u2, t);
    } else {
        lemma_group_stable(a, u, u2, t);
    }
}

/// The atoms of a list that ends where `a` ends are the same, and the list
/// ends there again, before anything that ends a list.
proof fn lemma_more_stable(a: Seq<char>, c: Seq<char>, c2: Seq<char>, ts: Seq<Tree>)
    requires
        parse_more(a + c) == (c, ts),
        ends_list(c2),
    ensures
        parse_more(a + c2) == (c2, ts),
    decreases a.len(), 2nat,
{
    let s = a + c;
    let s2 = a + c2;
    let n = run_len(CharClass::Space, s) as int;
    lemma_run_len(CharClass::Space, s);
    if a.len() == 0 {
        assert(s =~= c);
        assert(s2 =~= c2);
        if n > 0 {
            lemma_atom_advances(s.skip(n));
            match parse_atom(s.skip(n)) {
                Ok((r1, _)) => {
                    lemma_more_advances(r1);
                },
                Err(_) => {},
            }
        }
    } else {
        let x = s.skip(n);
        lemma_atom_advances(x);
        match parse_atom(x) {
            Ok((r1, t1)) => {
                lemma_more_advances(r1);
                assert(n > 0);
                assert(r1.len() < s.len());
                let rest_ts = parse_more(r1).1;
                let a_rest = a.skip(n);
                assert(x =~= a_rest + c);
                let j = lemma_split(a_rest, c, r1);
                let front = a_rest.take(j);
                let y = a_rest.skip(j);
                if y.len() > 0 {
                    lemma_more_moves(y, c, rest_ts);
                } else {
                    assert(y + c2 =~= c2);
                }
                lemma_atom_stable(front, y + c, y + c2, t1);
                lemma_more_stable(y, c, c2, rest_ts);
                lemma_run_agrees(CharClass::Space, a, c, c2);
                assert(s2.skip(n) =~= front + (y + c2));
            },
            Err(_) => {},
        }
    }
}

/// A list that ends where `a` ends yields the same, and ends there again,
/// before anything that ends a list.
proof fn lemma_list_stable(a: Seq<char>, c: Seq<char>, c2: Seq<char>, t: Tree)
    requires
        parse_list(a + c) == Ok::<_, Failure>((c, t)),
        ends_list(c2),
    ensures
        parse_list(a + c2) == Ok::<_, Failure>((c2, t)),
    decreases a.len(), 3nat,
{
    let s = a + c;
    let s2 = a + c2;
    lemma_atom_advances(s);
    assert(parse_atom(s) is Ok);
    let (r1, t1) = parse_atom(s)->Ok_0;
    assert(r1.len() < s.len());
    let rest_ts = parse_more(r1).1;
    assert(parse_more(r1) == (c, rest_ts));
    assert(t == Tree::List(seq![t1] + rest_ts));
    lemma_more_advances(r1);
    let j = lemma_split(a, c, r1);
    let front = a.take(j);
    let y = a.skip(j);
    assert(ends_run(CharClass::Word, y + c2)) by {
        if y.len() > 0 {
            lemma_more_moves(y, c, rest_ts);
            assert((y + c2)[0] == y[0]);
        } else {
            assert(y + c2 =~= c2);
        }
    }
    lemma_atom_stable(front, y + c, y + c2, t1);
    lemma_more_stable(y, c, c2, rest_ts);
    assert(s2 =~= front + (y + c2));
    assert(parse_atom(s2) == Ok::<_, Failure>((y + c2, t1)));
    assert((y + c2).len() < s2.len());
    assert(parse_more(y + c2) == (c2, rest_ts));
}

/// What an atom yields does not depend on what follows it: where it ends
/// before `u`, it ends before anything else that cannot continue its last
/// lexeme, with the same tree.
pub proof fn law_atom_ignores_what_follows(a: Seq<char>, u: Seq<char>, u2: Seq<char>, t: Tree)
    requires
        parse_atom(a + u) == Ok::<_, Failure>((u, t)),
        ends_run(CharClass::Word, u2),
    ensures
        parse_atom(a + u2) == Ok::<_, Failure>((u2, t)),
{
    lemma_atom_stable(a, u, u2, t);
}

/// What a group yields does not depend on anything behind its closing
/// parenthesis.
pub proof fn law_group_ignores_what_follows(a: Seq<char>, u: Seq<char>, u2: Seq<char>, t: Tree)
    requires
        parse_group(a + u) == Ok::<_, Failure>((u, t)),
    ensures
        parse_group(a + u2) == Ok::<_, Failure>((u2, t)),
{
    lemma_group_stable(a, u, u2, t);
}

/// What an expression yields does not depend on what follows it: where it
/// ends before `c`, it ends before anything else that ends a list, with the
/// same tree.
pub proof fn law_expr_ignores_what_follows(a: Seq<char>, c: Seq<char>, c2: Seq<char>, t: Tree)
    requires
        parse_expr(a + c) == Ok::<_, Failure>((c, t)),
        ends_list(c2),
    ensures
        parse_expr(a + c2) == Ok::<_, Failure>((c2, t)),
{
    law_expr_is_list_rule(a + c);
    law_expr_is_list_rule(a + c2);
    lemma_list_stable(a, c, c2, t);
}

/// Whitespace before a closing parenthesis does not count. Where the
/// expression `body` ends at a closing parenthesis, the group around it
/// yields the expression's tree with any whitespace before that parenthesis,
/// with any behind the opening one, and with anything behind the group.
pub proof fn law_group_ignores_space_before_close(
    lead: Seq<char>,
    body: Seq<char>,
    gap: Seq<char>,
    tail: Seq<char>,
    tail2: Seq<char>,
    t: Tree,
)
    requires
        all_in(CharClass::Space, lead),
        all_in(CharClass::Space, gap),
        ends_run(CharClass::Space, body),
        parse_expr(body + (seq![')'] + tail)) == Ok::<_, Failure>((seq![')'] + tail, t)),
    ensures
        parse_group(seq!['('] + lead + (body + (gap + (seq![')'] + tail2)))) == Ok::<_, Failure>(
            (tail2, t),
        ),
{
    let c = seq![')'] + tail;
    let close2 = seq![')'] + tail2;
    let c2 = gap + close2;
    lemma_run_then_tail(CharClass::Space, gap, close2);
    assert(closes(c2));
    lemma_close_ends_list(c2);
    law_expr_ignores_what_follows(body, c, c2, t);
    lemma_expr_advances(body + c);
    assert(body.len() > 0);
    assert((body + c2)[0] == body[0]);
    law_group_is_transparent(lead, body + c2, c2, t);
    assert(close2.skip(1) =~= tail2);
}

} // verus!
