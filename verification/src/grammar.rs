//! The grammar as a mathematical model: what each rule yields on a sequence of
//! characters.
//!
//! ```text
//! literal := digit+ ('_' digit+)*
//! name    := alpha (alpha | digit | '_')*        but no keyword
//! quote   := ':' space* atom
//! group   := '(' space* expr space* ')'
//! atom    := quote / literal / name / group
//! list    := atom (space+ atom)*
//! expr    := list / atom
//! ```
//!
//! `/` is ordered choice: the first alternative that succeeds is taken, and
//! where none does the failure is that of the last one.
use vstd::prelude::*;
use crate::ast::Tree;
use crate::chars::{CharClass, all_in, is_alpha, lemma_run_len, run_len};

verus! {

/// Why a rule did not match.
#[derive(Clone, Copy, Debug, PartialEq, Eq, Structural)]
pub enum ErrorKind {
    /// No rule of the grammar matches at this point.
    Syntax,
    /// A literal was matched, but its value does not fit in 64 signed bits.
    Numeric,
}

/// A failed rule: the input that was left at the point of failure, and the reason.
pub struct Failure {
    pub rest: Seq<char>,
    pub kind: ErrorKind,
}

/// What a rule yields: the unconsumed remainder and the tree, or a failure.
pub type Parsed = Result<(Seq<char>, Tree), Failure>;

/// The syntax failure at `s`.
pub open spec fn no_match(s: Seq<char>) -> Parsed {
    Err(Failure { rest: s, kind: ErrorKind::Syntax })
}

/// The separator between the digit groups of a literal.
pub open spec fn is_separator(c: char) -> bool {
    c == '_'
}

/// The length of the longest prefix of `s` made of groups `'_' digit+`.
pub open spec fn groups_len(s: Seq<char>) -> nat
    decreases s.len(),
{
    if s.len() > 0 && is_separator(s[0]) && run_len(CharClass::Digit, s.skip(1)) > 0 {
        let k = 1 + run_len(CharClass::Digit, s.skip(1));
        proof {
            lemma_run_len(CharClass::Digit, s.skip(1));
        }
        k + groups_len(s.skip(k as int))
    } else {
        0
    }
}

/// The length of the literal lexeme at the start of `s`; 0 where there is none.
pub open spec fn literal_len(s: Seq<char>) -> nat {
    let d = run_len(CharClass::Digit, s);
    if d == 0 {
        0
    } else {
        d + groups_len(s.skip(d as int))
    }
}

/// The value of one decimal digit.
pub open spec fn digit_value(c: char) -> nat {
    (c as int - '0' as int) as nat
}

/// The number that a sequence of decimal digits writes in base ten.
pub open spec fn decimal(digits: Seq<char>) -> nat
    decreases digits.len(),
{
    if digits.len() == 0 {
        0
    } else {
        10 * decimal(digits.drop_last()) + digit_value(digits.last())
    }
}

/// A lexeme with its separators removed.
pub open spec fn without_separators(lexeme: Seq<char>) -> Seq<char> {
    lexeme.filter(|c: char| !is_separator(c))
}

/// The number that a literal lexeme denotes: its digit runs, joined, in base ten.
pub open spec fn literal_value(lexeme: Seq<char>) -> nat {
    decimal(without_separators(lexeme))
}

/// The literal rule.
pub open spec fn parse_literal(s: Seq<char>) -> Parsed {
    let n = literal_len(s) as int;
    let v = literal_value(s.take(n));
    if n == 0 {
        no_match(s)
    } else if v > i64::MAX {
        Err(Failure { rest: s, kind: ErrorKind::Numeric })
    } else {
        Ok((s.skip(n), Tree::Literal(v as i64)))
    }
}

/// The spellings that no name may have.
pub open spec fn is_keyword(s: Seq<char>) -> bool {
    s == "fn"@ || s == "macro"@ || s == "lam"@ || s == "let"@ || s == "set"@ || s == "do"@
}

/// The length of the identifier at the start of `s`; 0 where there is none.
pub open spec fn name_len(s: Seq<char>) -> nat {
    if s.len() > 0 && is_alpha(s[0]) {
        1 + run_len(CharClass::Word, s.skip(1))
    } else {
        0
    }
}

/// The name rule.
pub open spec fn parse_name(s: Seq<char>) -> Parsed {
    let n = name_len(s) as int;
    if n == 0 || is_keyword(s.take(n)) {
        no_match(s)
    } else {
        Ok((s.skip(n), Tree::Name(s.take(n))))
    }
}

/// `s` without the whitespace that it starts with.
pub open spec fn skip_space(s: Seq<char>) -> Seq<char> {
    s.skip(run_len(CharClass::Space, s) as int)
}

/// The quote rule.
pub open spec fn parse_quote(s: Seq<char>) -> Parsed
    decreases s.len(), 0nat,
{
    if s.len() > 0 && s[0] == ':' {
        proof {
            lemma_run_len(CharClass::Space, s.skip(1));
        }
        match parse_atom(skip_space(s.skip(1))) {
            Ok((rest, t)) => Ok((rest, Tree::Quote(Box::new(t)))),
            Err(f) => Err(f),
        }
    } else {
        no_match(s)
    }
}

/// The group rule. It yields the tree of the expression inside the
/// parentheses and adds no node of its own.
pub open spec fn parse_group(s: Seq<char>) -> Parsed
    decreases s.len(), 0nat,
{
    if s.len() > 0 && s[0] == '(' {
        proof {
            lemma_run_len(CharClass::Space, s.skip(1));
        }
        match parse_expr(skip_space(s.skip(1))) {
            Ok((rest, t)) => {
                let close = skip_space(rest);
                if close.len() > 0 && close[0] == ')' {
                    Ok((close.skip(1), t))
                } else {
                    no_match(close)
                }
            },
            Err(f) => Err(f),
        }
    } else {
        no_match(s)
    }
}

/// The atom rule: the first of quote, literal, name and group that matches.
pub open spec fn parse_atom(s: Seq<char>) -> Parsed
    decreases s.len(), 1nat,
{
    if parse_quote(s) is Ok {
        parse_quote(s)
    } else if parse_literal(s) is Ok {
        parse_literal(s)
    } else if parse_name(s) is Ok {
        parse_name(s)
    } else {
        parse_group(s)
    }
}

/// What follows the first atom of a list, from `s` on: the atoms that are each
/// preceded by whitespace, and what is left after the last of them.
///
/// An atom consumes at least one character (`lemma_atom_advances`), so the
/// test on the lengths always holds; it is there to show that the recursion
/// ends.
pub open spec fn parse_more(s: Seq<char>) -> (Seq<char>, Seq<Tree>)
    decreases s.len(), 2nat,
{
    let n = run_len(CharClass::Space, s);
    proof {
        lemma_run_len(CharClass::Space, s);
    }
    if n == 0 {
        (s, Seq::empty())
    } else {
        match parse_atom(s.skip(n as int)) {
            Ok((rest, t)) if rest.len() < s.len() => {
                let (end, ts) = parse_more(rest);
                (end, seq![t] + ts)
            },
            _ => (s, Seq::empty()),
        }
    }
}

/// The list rule: one atom, then as many more as follow, each after whitespace.
///
/// Here too the test on the lengths always holds, and the arm behind it is
/// never taken.
pub open spec fn parse_list(s: Seq<char>) -> Parsed
    decreases s.len(), 3nat,
{
    match parse_atom(s) {
        Ok((rest, t)) if rest.len() < s.len() => {
            let (end, ts) = parse_more(rest);
            Ok((end, Tree::List(seq![t] + ts)))
        },
        Ok(_) => no_match(s),
        Err(f) => Err(f),
    }
}

/// The expression rule, where parsing starts: a list, else an atom.
pub open spec fn parse_expr(s: Seq<char>) -> Parsed
    decreases s.len(), 4nat,
{
    if parse_list(s) is Ok {
        parse_list(s)
    } else {
        parse_atom(s)
    }
}

/// An identifier: a letter, then letters, digits and underscores.
pub open spec fn is_identifier(s: Seq<char>) -> bool {
    s.len() > 0 && is_alpha(s[0]) && all_in(CharClass::Word, s.skip(1))
}

/// What the grammar can produce: literals are not negative, names are
/// identifiers and no keywords, lists are not empty.
pub open spec fn well_formed(t: Tree) -> bool
    decreases t,
{
    match t {
        Tree::Literal(v) => v >= 0,
        Tree::Name(n) => is_identifier(n) && !is_keyword(n),
        Tree::List(ts) => ts.len() >= 1 && forall|i: int|
            0 <= i < ts.len() ==> well_formed(#[trigger] ts[i]),
        Tree::Quote(q) => well_formed(*q),
    }
}

/// Whether `p` is a possible outcome on the input `s` as far as positions go:
/// a success has consumed at least one character and left a suffix of `s`; a
/// failure points into `s`.
pub open spec fn advances(s: Seq<char>, p: Parsed) -> bool {
    match p {
        Ok((rest, _)) => rest.len() < s.len() && rest.is_suffix_of(s),
        Err(f) => f.rest.is_suffix_of(s),
    }
}

/// Skipping whitespace leaves a suffix.
pub proof fn lemma_skip_space(s: Seq<char>)
    ensures
        skip_space(s).is_suffix_of(s),
        skip_space(s).len() > 0 ==> !CharClass::Space.holds(skip_space(s)[0]),
{
    lemma_run_len(CharClass::Space, s);
}

/// The groups of a literal lie within the input.
pub proof fn lemma_groups_len(s: Seq<char>)
    ensures
        groups_len(s) <= s.len(),
    decreases s.len(),
{
    if s.len() > 0 && is_separator(s[0]) && run_len(CharClass::Digit, s.skip(1)) > 0 {
        lemma_run_len(CharClass::Digit, s.skip(1));
        let k = 1 + run_len(CharClass::Digit, s.skip(1));
        lemma_groups_len(s.skip(k as int));
    }
}

/// A literal lexeme lies within the input.
pub proof fn lemma_literal_len(s: Seq<char>)
    ensures
        literal_len(s) <= s.len(),
{
    lemma_run_len(CharClass::Digit, s);
    lemma_groups_len(s.skip(run_len(CharClass::Digit, s) as int));
}

/// An identifier lies within the input.
pub proof fn lemma_name_len(s: Seq<char>)
    ensures
        name_len(s) <= s.len(),
{
    if s.len() > 0 {
        lemma_run_len(CharClass::Word, s.skip(1));
    }
}

/// The literal rule consumes input where it succeeds.
pub proof fn lemma_literal_advances(s: Seq<char>)
    ensures
        advances(s, parse_literal(s)),
{
    lemma_literal_len(s);
}

/// The name rule consumes input where it succeeds.
pub proof fn lemma_name_advances(s: Seq<char>)
    ensures
        advances(s, parse_name(s)),
{
    lemma_name_len(s);
}

/// The quote rule consumes input where it succeeds.
pub proof fn lemma_quote_advances(s: Seq<char>)
    ensures
        advances(s, parse_quote(s)),
    decreases s.len(), 0nat,
{
    if s.len() > 0 && s[0] == ':' {
        let inner = skip_space(s.skip(1));
        lemma_skip_space(s.skip(1));
        lemma_atom_advances(inner);
    }
}

/// The group rule consumes input where it succeeds.
pub proof fn lemma_group_advances(s: Seq<char>)
    ensures
        advances(s, parse_group(s)),
    decreases s.len(), 0nat,
{
    if s.len() > 0 && s[0] == '(' {
        let inner = skip_space(s.skip(1));
        lemma_skip_space(s.skip(1));
        lemma_expr_advances(inner);
        match parse_expr(inner) {
            Ok((rest, _)) => {
                lemma_skip_space(rest);
            },
            Err(_) => {},
        }
    }
}

/// The atom rule consumes input where it succeeds.
pub proof fn lemma_atom_advances(s: Seq<char>)
    ensures
        advances(s, parse_atom(s)),
    decreases s.len(), 1nat,
{
    lemma_quote_advances(s);
    lemma_literal_advances(s);
    lemma_name_advances(s);
    lemma_group_advances(s);
}

/// What follows the first atom of a list ends within the input.
pub proof fn lemma_more_advances(s: Seq<char>)
    ensures
        parse_more(s).0.is_suffix_of(s),
    decreases s.len(), 2nat,
{
    let n = run_len(CharClass::Space, s);
    lemma_run_len(CharClass::Space, s);
    if n > 0 {
        lemma_atom_advances(s.skip(n as int));
        match parse_atom(s.skip(n as int)) {
            Ok((rest, _)) => {
                lemma_more_advances(rest);
            },
            Err(_) => {},
        }
    }
}

/// The list rule consumes input where it succeeds.
pub proof fn lemma_list_advances(s: Seq<char>)
    ensures
        advances(s, parse_list(s)),
    decreases s.len(), 3nat,
{
    lemma_atom_advances(s);
    match parse_atom(s) {
        Ok((rest, _)) => {
            lemma_more_advances(rest);
        },
        Err(_) => {},
    }
}

/// The expression rule consumes input where it succeeds.
pub proof fn lemma_expr_advances(s: Seq<char>)
    ensures
        advances(s, parse_expr(s)),
    decreases s.len(), 4nat,
{
    lemma_list_advances(s);
    lemma_atom_advances(s);
}

} // verus!
