//! What holds of the grammar on every input.
use vstd::prelude::*;
use crate::ast::Tree;
use crate::chars::{
    CharClass, all_in, is_alpha, is_digit, is_run_end, lemma_run_len, run_len,
};
use crate::driver::{
    StepModel, is_blank, is_whitespace, lemma_trim_end, lemma_trim_start, sentinel, step_of,
    trimmed,
};
use crate::grammar::{
    ErrorKind, Failure, Parsed, decimal, groups_len, is_identifier, is_keyword, is_separator,
    lemma_atom_advances, lemma_expr_advances, lemma_skip_space, literal_len, name_len, no_match,
    parse_atom, parse_expr, parse_group, parse_list, parse_literal, parse_more, parse_name,
    parse_quote, skip_space, well_formed, without_separators,
};

verus! {

/// Whether `tail` can stand behind a lexeme whose characters are of `class`
/// without making it longer.
pub open spec fn ends_run(class: CharClass, tail: Seq<char>) -> bool {
    tail.len() > 0 ==> !class.holds(tail[0])
}

/// A run that is followed by something that does not continue it is found whole.
pub proof fn lemma_run_then_tail(class: CharClass, run: Seq<char>, tail: Seq<char>)
    requires
        all_in(class, run),
        ends_run(class, tail),
    ensures
        run_len(class, run + tail) == run.len(),
        (run + tail).skip(run.len() as int) == tail,
        (run + tail).take(run.len() as int) == run,
{
    let s = run + tail;
    let n = run.len() as int;
    assert(s.take(n) =~= run);
    assert(s.skip(n) =~= tail);
    assert(is_run_end(class, s, n));
    lemma_run_len(class, s);
}

/// The identifier at the start of `id + tail` is `id`.
pub proof fn lemma_identifier_len(id: Seq<char>, tail: Seq<char>)
    requires
        is_identifier(id),
        ends_run(CharClass::Word, tail),
    ensures
        name_len(id + tail) == id.len(),
        (id + tail).take(id.len() as int) == id,
        (id + tail).skip(id.len() as int) == tail,
{
    let s = id + tail;
    lemma_run_then_tail(CharClass::Word, id.skip(1), tail);
    assert(s.skip(1) =~= id.skip(1) + tail);
    assert(s.take(id.len() as int) =~= id);
    assert(s.skip(id.len() as int) =~= tail);
}

/// The shape of a literal lexeme: digits and single underscores, with a digit
/// at each end.
pub open spec fn is_literal_lexeme(l: Seq<char>) -> bool {
    &&& l.len() > 0
    &&& is_digit(l[0])
    &&& is_digit(l.last())
    &&& forall|i: int| 0 <= i < l.len() ==> is_digit(#[trigger] l[i]) || is_separator(l[i])
    &&& forall|i: int|
        0 <= i < l.len() - 1 ==> !(is_separator(#[trigger] l[i]) && is_separator(l[i + 1]))
}

/// Whether `tail` can stand behind a literal lexeme without making it longer:
/// it starts neither with a digit nor with a separator and a digit.
pub open spec fn ends_literal(tail: Seq<char>) -> bool {
    tail.len() > 0 ==> !is_digit(tail[0]) && !(is_separator(tail[0]) && tail.len() > 1 && is_digit(
        tail[1],
    ))
}

/// What a literal lexeme is made of behind its first run of digits: groups of
/// one separator and digits.
spec fn is_groups(g: Seq<char>) -> bool {
    &&& g.len() > 0 ==> is_separator(g[0]) && is_digit(g.last())
    &&& forall|i: int| 0 <= i < g.len() ==> is_digit(#[trigger] g[i]) || is_separator(g[i])
    &&& forall|i: int|
        0 <= i < g.len() - 1 ==> !(is_separator(#[trigger] g[i]) && is_separator(g[i + 1]))
}

/// The run of digits at the start of `g + tail`, where `g` starts with a
/// digit, ends within `g`, and what follows it in `g` is made of groups.
proof fn lemma_digits_then_groups(g: Seq<char>, tail: Seq<char>)
    requires
        g.len() > 0,
        is_digit(g[0]),
        is_digit(g.last()),
        forall|i: int| 0 <= i < g.len() ==> is_digit(#[trigger] g[i]) || is_separator(g[i]),
        forall|i: int|
            0 <= i < g.len() - 1 ==> !(is_separator(#[trigger] g[i]) && is_separator(g[i + 1])),
        ends_literal(tail),
    ensures
        0 < run_len(CharClass::Digit, g + tail) <= g.len(),
        run_len(CharClass::Digit, g + tail) == run_len(CharClass::Digit, g),
        is_groups(g.skip(run_len(CharClass::Digit, g) as int)),
        (g + tail).skip(run_len(CharClass::Digit, g) as int) == g.skip(
            run_len(CharClass::Digit, g) as int,
        ) + tail,
{
    let s = g + tail;
    lemma_run_len(CharClass::Digit, g);
    let d = run_len(CharClass::Digit, g) as int;
    assert(d > 0) by {
        if d == 0 {
            assert(!CharClass::Digit.holds(g[0]));
        }
    }
    assert(s.take(d) =~= g.take(d));
    assert(is_run_end(CharClass::Digit, s, d)) by {
        if d < g.len() {
            assert(s[d] == g[d]);
        } else if tail.len() > 0 {
            assert(s[d] == tail[0]);
        }
    }
    lemma_run_len(CharClass::Digit, s);
    let rest = g.skip(d);
    assert(s.skip(d) =~= rest + tail);
    assert(is_groups(rest)) by {
        if rest.len() > 0 {
            assert(rest[0] == g[d]);
            assert(!CharClass::Digit.holds(g[d]));
            assert(rest.last() == g.last());
        }
        assert forall|i: int| 0 <= i < rest.len() implies is_digit(#[trigger] rest[i])
            || is_separator(rest[i]) by {
            assert(rest[i] == g[d + i]);
        }
        assert forall|i: int| 0 <= i < rest.len() - 1 implies !(is_separator(#[trigger] rest[i])
            && is_separator(rest[i + 1])) by {
            assert(rest[i] == g[d + i]);
            assert(rest[i + 1] == g[d + i + 1]);
        }
    }
}

/// Groups that are followed by something that does not continue them are
/// found whole.
proof fn lemma_groups_then_tail(g: Seq<char>, tail: Seq<char>)
    requires
        is_groups(g),
        ends_literal(tail),
    ensures
        groups_len(g + tail) == g.len(),
    decreases g.len(),
{
    let s = g + tail;
    if g.len() == 0 {
        assert(s =~= tail);
        if tail.len() > 1 {
            assert(tail.skip(1)[0] == tail[1]);
        }
    } else {
        assert(s[0] == g[0]);
        assert(g.len() >= 2) by {
            if g.len() == 1 {
                assert(g.last() == g[0]);
            }
        }
        let h = g.skip(1);
        assert(h[0] == g[1]);
        assert(is_digit(h[0]));
        assert(h.last() == g.last());
        assert forall|i: int| 0 <= i < h.len() implies is_digit(#[trigger] h[i]) || is_separator(
            h[i],
        ) by {
            assert(h[i] == g[i + 1]);
        }
        assert forall|i: int| 0 <= i < h.len() - 1 implies !(is_separator(#[trigger] h[i])
            && is_separator(h[i + 1])) by {
            assert(h[i] == g[i + 1]);
            assert(h[i + 1] == g[i + 2]);
        }
        lemma_digits_then_groups(h, tail);
        assert(s.skip(1) =~= h + tail);
        let d = run_len(CharClass::Digit, h) as int;
        let k = 1 + d;
        assert(s.skip(k) =~= h.skip(d) + tail);
        lemma_groups_then_tail(h.skip(d), tail);
    }
}

/// A literal lexeme that is followed by something that does not continue it
/// is found whole.
pub proof fn lemma_literal_lexeme_len(l: Seq<char>, tail: Seq<char>)
    requires
        is_literal_lexeme(l),
        ends_literal(tail),
    ensures
        literal_len(l + tail) == l.len(),
        (l + tail).take(l.len() as int) == l,
        (l + tail).skip(l.len() as int) == tail,
{
    lemma_digits_then_groups(l, tail);
    let d = run_len(CharClass::Digit, l) as int;
    lemma_groups_then_tail(l.skip(d), tail);
    assert((l + tail).take(l.len() as int) =~= l);
    assert((l + tail).skip(l.len() as int) =~= tail);
}

/// A literal denotes the number that its digits write once the separators
/// are removed. Where that number fits in 64 signed bits the literal rule
/// yields it and leaves what follows the lexeme; where it does not, the rule
/// fails with a numeric failure at the start of the lexeme.
pub proof fn law_literal_decodes_its_digits(l: Seq<char>, tail: Seq<char>)
    requires
        is_literal_lexeme(l),
        ends_literal(tail),
    ensures
        decimal(without_separators(l)) <= i64::MAX ==> parse_literal(l + tail) == Ok::<_, Failure>(
            (tail, Tree::Literal(decimal(without_separators(l)) as i64)),
        ),
        decimal(without_separators(l)) > i64::MAX ==> parse_literal(l + tail) == Err::<
            (Seq<char>, Tree),
            _,
        >(Failure { rest: l + tail, kind: ErrorKind::Numeric }),
{
    lemma_literal_lexeme_len(l, tail);
}

/// Whatever the input, the literal rule fails or yields a literal whose value
/// is that of the lexeme's digits, and is not negative.
pub proof fn law_literal_value(s: Seq<char>)
    ensures
        parse_literal(s) matches Ok((rest, t)) ==> {
            &&& literal_len(s) > 0
            &&& rest == s.skip(literal_len(s) as int)
            &&& t == Tree::Literal(
                decimal(without_separators(s.take(literal_len(s) as int))) as i64,
            )
            &&& t->Literal_0 >= 0
        },
{
}

/// An identifier that is no keyword parses to a name with exactly its
/// spelling, as a name and as an atom, and what follows it is left over.
pub proof fn law_identifier_is_a_name(id: Seq<char>, tail: Seq<char>)
    requires
        is_identifier(id),
        !is_keyword(id),
        ends_run(CharClass::Word, tail),
    ensures
        parse_name(id + tail) == Ok::<_, Failure>((tail, Tree::Name(id))),
        parse_atom(id + tail) == Ok::<_, Failure>((tail, Tree::Name(id))),
{
    lemma_identifier_len(id, tail);
    lemma_starts_with_letter(id + tail);
}

/// On a letter neither the quote rule nor the literal rule matches.
proof fn lemma_starts_with_letter(s: Seq<char>)
    requires
        s.len() > 0,
        is_alpha(s[0]),
    ensures
        parse_quote(s) is Err,
        parse_literal(s) is Err,
        parse_group(s) == no_match(s),
{
}

/// Every keyword has the shape of an identifier.
pub proof fn lemma_keyword_is_identifier(k: Seq<char>)
    requires
        is_keyword(k),
    ensures
        is_identifier(k),
{
    reveal_strlit("fn");
    reveal_strlit("macro");
    reveal_strlit("lam");
    reveal_strlit("let");
    reveal_strlit("set");
    reveal_strlit("do");
}

/// A keyword is no name and no atom: alone, or followed by anything that
/// would not continue an identifier, it fails with a syntax failure at its
/// start.
pub proof fn law_keyword_is_no_name(k: Seq<char>, tail: Seq<char>)
    requires
        is_keyword(k),
        ends_run(CharClass::Word, tail),
    ensures
        parse_name(k + tail) == no_match(k + tail),
        parse_atom(k + tail) == no_match(k + tail),
        parse_expr(k + tail) == no_match(k + tail),
{
    lemma_keyword_is_identifier(k);
    lemma_identifier_len(k, tail);
    lemma_starts_with_letter(k + tail);
}

/// The expression rule is the list rule: trying an atom after the list rule
/// has failed changes nothing.
pub proof fn law_expr_is_list_rule(s: Seq<char>)
    ensures
        parse_expr(s) == parse_list(s),
{
    lemma_atom_advances(s);
}

/// Every expression is a `List` of at least one element: one atom alone is
/// wrapped too.
pub proof fn law_expr_is_a_list(s: Seq<char>)
    ensures
        parse_expr(s) matches Ok((_, t)) ==> t is List && t->List_0.len() >= 1,
{
    lemma_atom_advances(s);
}

/// An atom that nothing follows parses, as an expression, to the list of that
/// one atom.
pub proof fn law_single_atom_is_wrapped(s: Seq<char>)
    requires
        parse_atom(s) matches Ok((rest, _)) && rest.len() == 0,
    ensures
        parse_expr(s) == Ok::<_, Failure>(
            (Seq::<char>::empty(), Tree::List(seq![parse_atom(s)->Ok_0.1])),
        ),
{
    lemma_atom_advances(s);
    let (rest, t) = parse_atom(s)->Ok_0;
    assert(rest =~= Seq::<char>::empty());
    assert(seq![t] + Seq::<Tree>::empty() =~= seq![t]);
}

/// Whether the tree of `p`, where `p` is a success, is well formed.
pub open spec fn yields_well_formed(p: Parsed) -> bool {
    p matches Ok((_, t)) ==> well_formed(t)
}

/// Whether `p`, where it is a failure, is a syntax failure.
pub open spec fn fails_by_syntax(p: Parsed) -> bool {
    p matches Err(f) ==> f.kind == ErrorKind::Syntax
}

/// The lexeme of a name is an identifier.
proof fn lemma_name_is_identifier(s: Seq<char>)
    ensures
        yields_well_formed(parse_name(s)),
{
    let n = name_len(s) as int;
    if s.len() > 0 && is_alpha(s[0]) {
        lemma_run_len(CharClass::Word, s.skip(1));
        assert(s.take(n).skip(1) =~= s.skip(1).take(n - 1));
    }
}

/// The quote rule yields well-formed trees.
proof fn lemma_quote_well_formed(s: Seq<char>)
    ensures
        yields_well_formed(parse_quote(s)),
    decreases s.len(), 0nat,
{
    if s.len() > 0 && s[0] == ':' {
        lemma_skip_space(s.skip(1));
        lemma_atom_well_formed(skip_space(s.skip(1)));
    }
}

/// The group rule yields well-formed trees, and fails by syntax alone.
proof fn lemma_group_well_formed(s: Seq<char>)
    ensures
        yields_well_formed(parse_group(s)),
        fails_by_syntax(parse_group(s)),
    decreases s.len(), 0nat,
{
    if s.len() > 0 && s[0] == '(' {
        lemma_skip_space(s.skip(1));
        lemma_expr_well_formed(skip_space(s.skip(1)));
    }
}

/// The atom rule yields well-formed trees, and fails by syntax alone.
proof fn lemma_atom_well_formed(s: Seq<char>)
    ensures
        yields_well_formed(parse_atom(s)),
        fails_by_syntax(parse_atom(s)),
    decreases s.len(), 1nat,
{
    lemma_quote_well_formed(s);
    lemma_name_is_identifier(s);
    lemma_group_well_formed(s);
}

/// The atoms that follow the first of a list are well formed.
proof fn lemma_more_well_formed(s: Seq<char>)
    ensures
        forall|i: int|
            0 <= i < parse_more(s).1.len() ==> well_formed(#[trigger] parse_more(s).1[i]),
    decreases s.len(), 2nat,
{
    let n = run_len(CharClass::Space, s);
    lemma_run_len(CharClass::Space, s);
    if n > 0 {
        lemma_atom_well_formed(s.skip(n as int));
        match parse_atom(s.skip(n as int)) {
            Ok((rest, t)) => {
                if rest.len() < s.len() {
                    lemma_more_well_formed(rest);
                    let ts = parse_more(rest).1;
                    assert forall|i: int| 0 <= i < (seq![t] + ts).len() implies well_formed(
                        #[trigger] (seq![t] + ts)[i],
                    ) by {
                        if i > 0 {
                            assert(well_formed(ts[i - 1]));
                        }
                    }
                }
            },
            Err(_) => {},
        }
    }
}

/// The list rule yields well-formed trees, and fails by syntax alone.
proof fn lemma_list_well_formed(s: Seq<char>)
    ensures
        yields_well_formed(parse_list(s)),
        fails_by_syntax(parse_list(s)),
    decreases s.len(), 3nat,
{
    lemma_atom_well_formed(s);
    match parse_atom(s) {
        Ok((rest, t)) => {
            if rest.len() < s.len() {
                lemma_more_well_formed(rest);
                let ts = parse_more(rest).1;
                assert forall|i: int| 0 <= i < (seq![t] + ts).len() implies well_formed(
                    #[trigger] (seq![t] + ts)[i],
                ) by {
                    if i > 0 {
                        assert(well_formed(ts[i - 1]));
                    }
                }
            }
        },
        Err(_) => {},
    }
}

/// The expression rule yields well-formed trees, and fails by syntax alone.
proof fn lemma_expr_well_formed(s: Seq<char>)
    ensures
        yields_well_formed(parse_expr(s)),
        fails_by_syntax(parse_expr(s)),
    decreases s.len(), 4nat,
{
    lemma_list_well_formed(s);
    lemma_atom_well_formed(s);
}

/// Every tree that the grammar produces is well formed: no list in it is
/// empty, no name in it is a keyword, no literal in it is negative.
pub proof fn law_parsed_tree_is_well_formed(s: Seq<char>)
    ensures
        yields_well_formed(parse_expr(s)),
        yields_well_formed(parse_atom(s)),
{
    lemma_expr_well_formed(s);
    lemma_atom_well_formed(s);
}

/// An expression fails by syntax alone: a literal that is too large makes the
/// literal rule fail, the other rules are still tried, and the failure that
/// is reported is theirs. It points into the input.
pub proof fn law_expr_fails_by_syntax(s: Seq<char>)
    ensures
        parse_expr(s) matches Err(f) ==> f.kind == ErrorKind::Syntax && f.rest.is_suffix_of(s),
{
    lemma_expr_well_formed(s);
    lemma_expr_advances(s);
}

/// A success leaves a proper suffix of the input: every rule consumes at
/// least one character.
pub proof fn law_success_consumes(s: Seq<char>)
    ensures
        parse_expr(s) matches Ok((rest, _)) ==> rest.len() < s.len() && rest.is_suffix_of(s),
        parse_atom(s) matches Ok((rest, _)) ==> rest.len() < s.len() && rest.is_suffix_of(s),
{
    lemma_expr_advances(s);
    lemma_atom_advances(s);
}

/// Nothing matches the empty input.
pub proof fn law_empty_input_fails(s: Seq<char>)
    requires
        s.len() == 0,
    ensures
        parse_expr(s) == no_match(s),
{
}

/// Grouping is transparent: the group rule yields the tree of the expression
/// between the parentheses and adds no node. Whitespace behind the opening
/// parenthesis and before the closing one does not count.
pub proof fn law_group_is_transparent(
    lead: Seq<char>,
    body: Seq<char>,
    rest: Seq<char>,
    t: Tree,
)
    requires
        all_in(CharClass::Space, lead),
        ends_run(CharClass::Space, body),
        parse_expr(body) == Ok::<_, Failure>((rest, t)),
        skip_space(rest).len() > 0,
        skip_space(rest)[0] == ')',
    ensures
        parse_group(seq!['('] + lead + body) == Ok::<_, Failure>((skip_space(rest).skip(1), t)),
        parse_atom(seq!['('] + lead + body) == Ok::<_, Failure>((skip_space(rest).skip(1), t)),
{
    let s = seq!['('] + lead + body;
    assert(s.skip(1) =~= lead + body);
    lemma_run_then_tail(CharClass::Space, lead, body);
    assert(skip_space(s.skip(1)) == body);
    lemma_starts_with_paren(s);
}

/// On an opening parenthesis only the group rule can match.
proof fn lemma_starts_with_paren(s: Seq<char>)
    requires
        s.len() > 0,
        s[0] == '(',
    ensures
        parse_quote(s) is Err,
        parse_literal(s) is Err,
        parse_name(s) is Err,
        parse_atom(s) == parse_group(s),
{
}

/// The whitespace between the quote marker and the quoted atom does not
/// count: any amount of it, or none, gives the same result.
pub proof fn law_quote_ignores_space(lead: Seq<char>, body: Seq<char>)
    requires
        all_in(CharClass::Space, lead),
        ends_run(CharClass::Space, body),
    ensures
        parse_quote(seq![':'] + lead + body) == parse_quote(seq![':'] + body),
{
    let a = seq![':'] + lead + body;
    let b = seq![':'] + body;
    assert(a.skip(1) =~= lead + body);
    assert(b.skip(1) =~= body);
    lemma_run_then_tail(CharClass::Space, lead, body);
    lemma_run_then_tail(CharClass::Space, Seq::empty(), body);
    assert(Seq::<char>::empty() + body =~= body);
}

/// The whitespace behind an opening parenthesis does not count: any amount of
/// it, or none, gives the same result.
pub proof fn law_group_ignores_leading_space(lead: Seq<char>, body: Seq<char>)
    requires
        all_in(CharClass::Space, lead),
        ends_run(CharClass::Space, body),
    ensures
        parse_group(seq!['('] + lead + body) == parse_group(seq!['('] + body),
{
    let a = seq!['('] + lead + body;
    let b = seq!['('] + body;
    assert(a.skip(1) =~= lead + body);
    assert(b.skip(1) =~= body);
    lemma_run_then_tail(CharClass::Space, lead, body);
    lemma_run_then_tail(CharClass::Space, Seq::empty(), body);
    assert(Seq::<char>::empty() + body =~= body);
}

/// Between two atoms of a list one whitespace character is needed, and more
/// change nothing: whatever run of whitespace separates them, the atoms that
/// are found are the same, and so is what is left after them.
pub proof fn law_separator_width_is_insignificant(
    sep1: Seq<char>,
    sep2: Seq<char>,
    body: Seq<char>,
)
    requires
        sep1.len() >= 1,
        sep2.len() >= 1,
        all_in(CharClass::Space, sep1),
        all_in(CharClass::Space, sep2),
        ends_run(CharClass::Space, body),
    ensures
        parse_more(sep1 + body).1 == parse_more(sep2 + body).1,
        parse_atom(body) is Ok ==> parse_more(sep1 + body) == parse_more(sep2 + body),
        parse_atom(body) is Err ==> parse_more(sep1 + body) == (sep1 + body, Seq::<Tree>::empty()),
{
    lemma_run_then_tail(CharClass::Space, sep1, body);
    lemma_run_then_tail(CharClass::Space, sep2, body);
    lemma_atom_advances(body);
}

/// Without whitespace in between, a second atom is not part of the list.
pub proof fn law_separator_is_required(s: Seq<char>)
    requires
        ends_run(CharClass::Space, s),
    ensures
        parse_more(s) == (s, Seq::<Tree>::empty()),
{
    lemma_run_len(CharClass::Space, s);
}

/// Whitespace around a text that neither starts nor ends with whitespace is
/// trimmed away, and nothing else is.
pub proof fn law_trim_removes_what_surrounds(lead: Seq<char>, text: Seq<char>, trail: Seq<char>)
    requires
        is_blank(lead),
        is_blank(trail),
        text.len() > 0 ==> !is_whitespace(text[0]) && !is_whitespace(text.last()),
    ensures
        trimmed(lead + text + trail) == text,
        step_of(lead + text + trail) == step_of(text),
{
    lemma_trim_is_core(lead, text, trail);
    lemma_trim_is_core(Seq::empty(), text, Seq::empty());
    assert(Seq::<char>::empty() + text + Seq::<char>::empty() =~= text);
}

/// The characters between the surrounding whitespace are what trimming leaves.
proof fn lemma_trim_is_core(lead: Seq<char>, text: Seq<char>, trail: Seq<char>)
    requires
        is_blank(lead),
        is_blank(trail),
        text.len() > 0 ==> !is_whitespace(text[0]) && !is_whitespace(text.last()),
    ensures
        trimmed(lead + text + trail) == text,
{
    let line = lead + text + trail;
    let a = lead.len() as int;
    let n = text.len() as int;
    if n == 0 {
        assert(line.take(line.len() as int) =~= line);
        assert forall|i: int| 0 <= i < line.len() implies is_whitespace(#[trigger] line[i]) by {
            if i < a {
                assert(is_whitespace(lead[i]));
            } else {
                assert(is_whitespace(trail[i - a]));
            }
        }
        lemma_trim_start(line, line.len() as int);
        assert(line.skip(line.len() as int) =~= text);
    } else {
        assert(line.take(a) =~= lead);
        assert(line[a] == text[0]);
        lemma_trim_start(line, a);
        let t = line.skip(a);
        assert(t =~= text + trail);
        assert(t.skip(n) =~= trail);
        assert(t[n - 1] == text.last());
        lemma_trim_end(t, n);
        assert(t.take(n) =~= text);
    }
}

/// A line that is empty or holds whitespace alone is trimmed to nothing,
/// parsed, and fails with a syntax failure.
pub proof fn law_blank_line_is_a_syntax_failure(line: Seq<char>)
    requires
        is_blank(line),
    ensures
        step_of(line) == StepModel::Report(no_match(Seq::empty())),
{
    reveal_strlit("exit");
    lemma_trim_is_core(line, Seq::empty(), Seq::empty());
    assert(line + Seq::<char>::empty() + Seq::<char>::empty() =~= line);
}

/// The sentinel ends the session whatever whitespace surrounds it, and is not
/// parsed.
pub proof fn law_sentinel_ends_the_session(lead: Seq<char>, trail: Seq<char>)
    requires
        is_blank(lead),
        is_blank(trail),
    ensures
        step_of(lead + sentinel() + trail) == StepModel::Exit,
{
    reveal_strlit("exit");
    lemma_trim_is_core(lead, sentinel(), trail);
}

/// Only the sentinel ends the session: any other line is parsed, and what is
/// reported is what the expression rule yields on the trimmed line.
pub proof fn law_other_lines_are_parsed(line: Seq<char>)
    requires
        trimmed(line) != sentinel(),
    ensures
        step_of(line) == StepModel::Report(parse_expr(trimmed(line))),
{
}

} // verus!
