//! The rules of the grammar as executable code on string slices. Each returns
//! exactly what the model in `grammar` yields on the characters of its input.
use vstd::prelude::*;
use vstd::string::StringExecFns;
use crate::ast::{Expr, Sym, Tree, trees};
use crate::chars::{CharClass, all_in, is_alpha, is_run_end, lemma_run_len};
use crate::grammar::{
    ErrorKind, Failure, Parsed, advances, groups_len, is_keyword, lemma_atom_advances,
    lemma_group_advances, lemma_list_advances, lemma_literal_advances, lemma_name_advances,
    lemma_quote_advances, lemma_skip_space, literal_len, literal_value, name_len, parse_atom,
    parse_expr, parse_group, parse_list, parse_literal, parse_more, parse_name, parse_quote,
    skip_space, well_formed,
};
use crate::laws::{
    law_expr_fails_by_syntax, law_expr_is_a_list, law_expr_is_list_rule,
    law_parsed_tree_is_well_formed, law_success_consumes,
};
use crate::numeral::{
    fit, lemma_digits_have_no_separator, lemma_shift_in_decimal, lemma_shift_in_grows,
    lemma_value_of_next_group, push_digits,
};
use crate::scan::{alpha1, alphanumeric1, digit1, multispace0, multispace1, tag};
use crate::text::str_eq;

verus! {

/// A rule that did not match: the input that was left at the point of failure,
/// and the reason.
#[derive(Clone, Copy, Debug)]
pub struct ParseError<'a> {
    pub rest: &'a str,
    pub kind: ErrorKind,
}

impl<'a> View for ParseError<'a> {
    type V = Failure;

    open spec fn view(&self) -> Failure {
        Failure { rest: self.rest@, kind: self.kind }
    }
}

/// The model of what a rule returned.
pub open spec fn parsed_view(r: Result<(&str, Expr), ParseError>) -> Parsed {
    match r {
        Ok((rest, e)) => Ok((rest@, e@)),
        Err(f) => Err(f@),
    }
}

/// What follows the first character of `s`, where that is the one character
/// of `mark`.
fn after_mark<'a>(mark: &str, s: &'a str) -> (r: Option<&'a str>)
    requires
        mark@.len() == 1,
    ensures
        match r {
            Some(rest) => s@.len() > 0 && s@[0] == mark@[0] && rest@ == s@.skip(1),
            None => s@.len() == 0 || s@[0] != mark@[0],
        },
{
    let r = tag(mark, s);
    proof {
        if r is Some {
            assert(mark@[0] == s@.subrange(0, 1)[0]);
        } else if s@.len() > 0 && s@[0] == mark@[0] {
            assert(mark@ =~= s@.subrange(0, 1));
        }
    }
    r
}

/// The literal rule: digits, then groups of an underscore and digits. The
/// value is that of the digits alone, in base ten; a value beyond 64 signed
/// bits is a failure of kind `Numeric`.
pub fn literal<'a>(s: &'a str) -> (r: Result<(&'a str, Expr), ParseError<'a>>)
    ensures
        parsed_view(r) == parse_literal(s@),
        advances(s@, parsed_view(r)),
{
    proof {
        lemma_literal_advances(s@);
    }
    let (first_rest, first_run) = match digit1(s) {
        Some(p) => p,
        None => {
            return Err(ParseError { rest: s, kind: ErrorKind::Syntax });
        },
    };
    proof {
        lemma_run_len(CharClass::Digit, s@);
    }
    let mut rest: &str = first_rest;
    let mut value: Option<i64> = push_digits(Some(0), first_run);
    let ghost mut n: int = first_run@.len() as int;
    proof {
        lemma_digits_have_no_separator(first_run@);
        lemma_shift_in_decimal(Seq::empty(), first_run@);
        assert(Seq::<char>::empty() + first_run@ =~= first_run@);
    }
    loop
        invariant
            0 < n <= s@.len(),
            rest@ == s@.skip(n),
            literal_len(s@) == n + groups_len(rest@),
            value == fit(literal_value(s@.take(n))),
        ensures
            0 < n <= s@.len(),
            rest@ == s@.skip(n),
            literal_len(s@) == n,
            value == fit(literal_value(s@.take(n))),
        decreases rest@.len(),
    {
        proof {
            reveal_strlit("_");
        }
        match after_mark("_", rest) {
            None => {
                break ;
            },
            Some(after) => {
                match digit1(after) {
                    None => {
                        break ;
                    },
                    Some((next, run)) => {
                        proof {
                            lemma_run_len(CharClass::Digit, after@);
                            let k = run@.len() as int;
                            assert(next@ =~= s@.skip(n + 1 + k));
                            assert(next@ =~= rest@.skip(1 + k));
                            assert(s@.take(n + 1 + k) =~= s@.take(n) + seq!['_'] + run@);
                            lemma_value_of_next_group(s@.take(n), run@);
                            lemma_shift_in_grows(literal_value(s@.take(n)), run@);
                            n = n + 1 + k;
                        }
                        value = push_digits(value, run);
                        rest = next;
                    },
                }
            },
        }
    }
    match value {
        Some(v) => Ok((rest, Expr::literal(v))),
        None => Err(ParseError { rest: s, kind: ErrorKind::Numeric }),
    }
}

/// Whether `s` is one of the reserved spellings.
pub fn is_reserved(s: &str) -> (r: bool)
    ensures
        r == is_keyword(s@),
{
    str_eq(s, "fn") || str_eq(s, "macro") || str_eq(s, "lam") || str_eq(s, "let") || str_eq(
        s,
        "set",
    ) || str_eq(s, "do")
}

/// The name rule: a letter, then letters, digits and underscores, as many as
/// there are. A reserved spelling is no name.
pub fn name<'a>(s: &'a str) -> (r: Result<(&'a str, Expr), ParseError<'a>>)
    ensures
        parsed_view(r) == parse_name(s@),
        advances(s@, parsed_view(r)),
{
    proof {
        lemma_name_advances(s@);
    }
    let (first_rest, first_run) = match alpha1(s) {
        Some(p) => p,
        None => {
            proof {
                lemma_run_len(CharClass::Alpha, s@);
            }
            return Err(ParseError { rest: s, kind: ErrorKind::Syntax });
        },
    };
    proof {
        lemma_run_len(CharClass::Alpha, s@);
        assert(CharClass::Alpha.holds(s@.take(first_run@.len() as int)[0]));
    }
    let mut rest: &str = first_rest;
    let mut spelling: String = first_run.to_owned();
    let ghost mut n: int = first_run@.len() as int;
    proof {
        assert forall|i: int| 0 <= i < n - 1 implies CharClass::Word.holds(
            #[trigger] s@.skip(1).take(n - 1)[i],
        ) by {
            assert(CharClass::Alpha.holds(s@.take(n)[i + 1]));
        }
    }
    loop
        invariant
            0 < n <= s@.len(),
            is_alpha(s@[0]),
            rest@ == s@.skip(n),
            spelling@ == s@.take(n),
            all_in(CharClass::Word, s@.skip(1).take(n - 1)),
        ensures
            0 < n <= s@.len(),
            is_alpha(s@[0]),
            rest@ == s@.skip(n),
            spelling@ == s@.take(n),
            all_in(CharClass::Word, s@.skip(1).take(n - 1)),
            rest@.len() > 0 ==> !CharClass::Word.holds(rest@[0]),
        decreases rest@.len(),
    {
        proof {
            reveal_strlit("_");
        }
        let ghost before = s@.skip(1).take(n - 1);
        match after_mark("_", rest) {
            Some(after) => {
                proof {
                    assert(after@ =~= s@.skip(n + 1));
                    assert(s@.take(n + 1) =~= s@.take(n) + "_"@);
                    assert forall|i: int| 0 <= i < n implies CharClass::Word.holds(
                        #[trigger] s@.skip(1).take(n)[i],
                    ) by {
                        if i < n - 1 {
                            assert(CharClass::Word.holds(before[i]));
                        }
                    }
                    n = n + 1;
                }
                spelling.append("_");
                rest = after;
            },
            None => {
                proof {
                    lemma_run_len(CharClass::Alnum, rest@);
                }
                match alphanumeric1(rest) {
                    Some((next, run)) => {
                        proof {
                            let k = run@.len() as int;
                            assert(next@ =~= s@.skip(n + k));
                            assert(s@.take(n + k) =~= s@.take(n) + run@);
                            assert forall|i: int| 0 <= i < n + k - 1 implies CharClass::Word.holds(
                                #[trigger] s@.skip(1).take(n + k - 1)[i],
                            ) by {
                                if i < n - 1 {
                                    assert(CharClass::Word.holds(before[i]));
                                } else {
                                    assert(CharClass::Alnum.holds(run@[i - (n - 1)]));
                                }
                            }
                            n = n + k;
                        }
                        spelling.append(run);
                        rest = next;
                    },
                    None => {
                        break ;
                    },
                }
            },
        }
    }
    proof {
        lemma_run_len(CharClass::Word, s@.skip(1));
        assert(is_run_end(CharClass::Word, s@.skip(1), n - 1));
        assert(name_len(s@) == n);
    }
    if is_reserved(spelling.as_str()) {
        Err(ParseError { rest: s, kind: ErrorKind::Syntax })
    } else {
        Ok((rest, Expr::name(Sym::from_string(spelling))))
    }
}

/// `s` without the whitespace that it starts with.
pub fn skip_spaces<'a>(s: &'a str) -> (r: &'a str)
    ensures
        r@ == skip_space(s@),
{
    match multispace0(s) {
        Some((rest, _)) => rest,
        None => unreached(),
    }
}

/// The quote rule: a colon, whitespace if any, and one atom.
pub fn quote<'a>(s: &'a str) -> (r: Result<(&'a str, Expr), ParseError<'a>>)
    ensures
        parsed_view(r) == parse_quote(s@),
        advances(s@, parsed_view(r)),
    decreases s@.len(), 0nat,
{
    proof {
        lemma_quote_advances(s@);
        reveal_strlit(":");
    }
    let after = match after_mark(":", s) {
        Some(after) => after,
        None => {
            return Err(ParseError { rest: s, kind: ErrorKind::Syntax });
        },
    };
    proof {
        lemma_skip_space(s@.skip(1));
    }
    match atom(skip_spaces(after)) {
        Ok((rest, e)) => Ok((rest, Expr::quote(e))),
        Err(f) => Err(f),
    }
}

/// The group rule: an expression between parentheses, with whitespace allowed
/// inside them. The result is the expression's own node.
pub fn paren<'a>(s: &'a str) -> (r: Result<(&'a str, Expr), ParseError<'a>>)
    ensures
        parsed_view(r) == parse_group(s@),
        advances(s@, parsed_view(r)),
    decreases s@.len(), 0nat,
{
    proof {
        lemma_group_advances(s@);
        reveal_strlit("(");
        reveal_strlit(")");
    }
    let after = match after_mark("(", s) {
        Some(after) => after,
        None => {
            return Err(ParseError { rest: s, kind: ErrorKind::Syntax });
        },
    };
    proof {
        lemma_skip_space(s@.skip(1));
    }
    match expr(skip_spaces(after)) {
        Ok((rest, e)) => {
            let close = skip_spaces(rest);
            match after_mark(")", close) {
                Some(end) => Ok((end, e)),
                None => Err(ParseError { rest: close, kind: ErrorKind::Syntax }),
            }
        },
        Err(f) => Err(f),
    }
}

/// The atom rule: the first of quote, literal, name and group that matches.
pub fn atom<'a>(s: &'a str) -> (r: Result<(&'a str, Expr), ParseError<'a>>)
    ensures
        parsed_view(r) == parse_atom(s@),
        advances(s@, parsed_view(r)),
    decreases s@.len(), 1nat,
{
    proof {
        lemma_atom_advances(s@);
    }
    if let Ok(p) = quote(s) {
        return Ok(p);
    }
    if let Ok(p) = literal(s) {
        return Ok(p);
    }
    if let Ok(p) = name(s) {
        return Ok(p);
    }
    paren(s)
}

/// The list rule: one atom, then as many more as follow, each after
/// whitespace. The atoms become the elements of one `List` node, in their
/// order.
pub fn list<'a>(s: &'a str) -> (r: Result<(&'a str, Expr), ParseError<'a>>)
    ensures
        parsed_view(r) == parse_list(s@),
        advances(s@, parsed_view(r)),
    decreases s@.len(), 3nat,
{
    proof {
        lemma_list_advances(s@);
    }
    let (first_rest, first) = match atom(s) {
        Ok(p) => p,
        Err(f) => {
            return Err(f);
        },
    };
    proof {
        lemma_atom_advances(s@);
    }
    let ghost head = first@;
    let mut items: Vec<Expr> = Vec::new();
    items.push(first);
    let mut rest: &str = first_rest;
    proof {
        assert(trees(items@).skip(1) =~= Seq::<Tree>::empty());
        assert(Seq::<Tree>::empty() + parse_more(rest@).1 =~= parse_more(rest@).1);
    }
    loop
        invariant
            rest@.len() < s@.len(),
            items@.len() >= 1,
            items@[0]@ == head,
            parse_more(first_rest@) == (
                parse_more(rest@).0,
                trees(items@).skip(1) + parse_more(rest@).1,
            ),
        ensures
            items@.len() >= 1,
            items@[0]@ == head,
            parse_more(first_rest@) == (rest@, trees(items@).skip(1)),
        decreases rest@.len(),
    {
        proof {
            lemma_run_len(CharClass::Space, rest@);
        }
        match multispace1(rest) {
            None => {
                proof {
                    assert(trees(items@).skip(1) + Seq::<Tree>::empty() =~= trees(items@).skip(1));
                }
                break ;
            },
            Some((after, _)) => {
                proof {
                    lemma_atom_advances(after@);
                }
                match atom(after) {
                    Err(_) => {
                        proof {
                            assert(trees(items@).skip(1) + Seq::<Tree>::empty() =~= trees(
                                items@,
                            ).skip(1));
                        }
                        break ;
                    },
                    Ok((next, e)) => {
                        proof {
                            let done = trees(items@).skip(1);
                            let more = parse_more(next@).1;
                            assert(trees(items@.push(e)).skip(1) =~= done.push(e@));
                            assert(done + (seq![e@] + more) =~= done.push(e@) + more);
                        }
                        items.push(e);
                        rest = next;
                    },
                }
            },
        }
    }
    proof {
        assert(seq![head] + trees(items@).skip(1) =~= trees(items@));
    }
    Ok((rest, Expr::list(items)))
}

/// The expression rule, where parsing starts: a list, else an atom. As one
/// atom alone is a list, every expression is a `List` node.
///
/// Where the list rule fails, its first atom has failed, and the atom rule
/// would fail on it in the same way (`law_expr_is_list_rule`): so the list
/// rule is run and nothing is parsed a second time.
pub fn expr<'a>(s: &'a str) -> (r: Result<(&'a str, Expr), ParseError<'a>>)
    ensures
        parsed_view(r) == parse_expr(s@),
        r matches Ok((rest, e)) ==> {
            &&& e@ is List
            &&& well_formed(e@)
            &&& rest@.len() < s@.len()
            &&& rest@.is_suffix_of(s@)
        },
        r matches Err(f) ==> f.kind == ErrorKind::Syntax && f.rest@.is_suffix_of(s@),
    decreases s@.len(), 4nat,
{
    proof {
        law_expr_is_list_rule(s@);
        law_expr_is_a_list(s@);
        law_parsed_tree_is_well_formed(s@);
        law_success_consumes(s@);
        law_expr_fails_by_syntax(s@);
    }
    list(s)
}

} // verus!
