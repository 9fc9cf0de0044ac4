//! What is done with one line of input: trim it, stop at the sentinel, parse
//! anything else. Reading the lines and reporting the outcomes is the caller's
//! part.
use vstd::prelude::*;
use vstd::string::StrSliceExecFns;
use crate::ast::Expr;
use crate::grammar::{Parsed, parse_expr};
use crate::parser::{ParseError, expr, parsed_view};
use crate::text::str_eq;

verus! {

/// Whether `c` is whitespace to Unicode (`White_Space`).
pub open spec fn is_whitespace(c: char) -> bool {
    ||| '\u{9}' <= c <= '\u{d}'
    ||| c == ' '
    ||| c == '\u{85}'
    ||| c == '\u{a0}'
    ||| c == '\u{1680}'
    ||| '\u{2000}' <= c <= '\u{200a}'
    ||| c == '\u{2028}'
    ||| c == '\u{2029}'
    ||| c == '\u{202f}'
    ||| c == '\u{205f}'
    ||| c == '\u{3000}'
}

/// `s` without the whitespace that it starts with.
pub open spec fn trim_start(s: Seq<char>) -> Seq<char>
    decreases s.len(),
{
    if s.len() > 0 && is_whitespace(s[0]) {
        trim_start(s.skip(1))
    } else {
        s
    }
}

/// `s` without the whitespace that it ends with.
pub open spec fn trim_end(s: Seq<char>) -> Seq<char>
    decreases s.len(),
{
    if s.len() > 0 && is_whitespace(s.last()) {
        trim_end(s.drop_last())
    } else {
        s
    }
}

/// `s` without the whitespace around it.
pub open spec fn trimmed(s: Seq<char>) -> Seq<char> {
    trim_end(trim_start(s))
}

/// Every character of `s` is whitespace.
pub open spec fn is_blank(s: Seq<char>) -> bool {
    forall|i: int| 0 <= i < s.len() ==> is_whitespace(#[trigger] s[i])
}

/// Where whitespace fills `s` up to `a` and stops there, `trim_start` cuts at `a`.
pub proof fn lemma_trim_start(s: Seq<char>, a: int)
    requires
        0 <= a <= s.len(),
        is_blank(s.take(a)),
        a < s.len() ==> !is_whitespace(s[a]),
    ensures
        trim_start(s) == s.skip(a),
    decreases a,
{
    if a == 0 {
        assert(s.skip(0) =~= s);
    } else {
        assert(is_whitespace(s.take(a)[0]));
        let t = s.skip(1);
        assert forall|i: int| 0 <= i < a - 1 implies is_whitespace(#[trigger] t.take(a - 1)[i]) by {
            assert(is_whitespace(s.take(a)[i + 1]));
        }
        lemma_trim_start(t, a - 1);
        assert(t.skip(a - 1) =~= s.skip(a));
    }
}

/// Where whitespace fills `s` from `b` on and starts there, `trim_end` cuts at `b`.
pub proof fn lemma_trim_end(s: Seq<char>, b: int)
    requires
        0 <= b <= s.len(),
        is_blank(s.skip(b)),
        b > 0 ==> !is_whitespace(s[b - 1]),
    ensures
        trim_end(s) == s.take(b),
    decreases s.len() - b,
{
    if b == s.len() {
        assert(s.take(b) =~= s);
    } else {
        assert(is_whitespace(s.skip(b)[s.len() - b - 1]));
        let t = s.drop_last();
        assert forall|i: int| 0 <= i < t.len() - b implies is_whitespace(
            #[trigger] t.skip(b)[i],
        ) by {
            assert(is_whitespace(s.skip(b)[i]));
        }
        lemma_trim_end(t, b);
        assert(t.take(b) =~= s.take(b));
    }
}

/// Whether `c` is whitespace.
pub fn is_space_char(c: char) -> (r: bool)
    ensures
        r == is_whitespace(c),
{
    ('\u{9}' <= c && c <= '\u{d}') || c == ' ' || c == '\u{85}' || c == '\u{a0}' || c
        == '\u{1680}' || ('\u{2000}' <= c && c <= '\u{200a}') || c == '\u{2028}' || c
        == '\u{2029}' || c == '\u{202f}' || c == '\u{205f}' || c == '\u{3000}'
}

/// `s` without the whitespace around it.
pub fn trim<'a>(s: &'a str) -> (r: &'a str)
    ensures
        r@ == trimmed(s@),
{
    let n: usize = s.unicode_len();
    let mut from: usize = 0;
    let mut to: usize = 0;
    let mut i: usize = 0;
    for c in it: s.chars()
        invariant
            n == s@.len(),
            it.seq() == s@,
            i == it.index(),
            from <= to <= i,
            to == 0 ==> from == 0 && is_blank(s@.take(i as int)),
            to > 0 ==> {
                &&& from < to
                &&& is_blank(s@.take(from as int))
                &&& !is_whitespace(s@[from as int])
                &&& !is_whitespace(s@[to - 1])
                &&& is_blank(s@.subrange(to as int, i as int))
            },
    {
        let ghost old_to = to;
        if !is_space_char(c) {
            if to == 0 {
                from = i;
            }
            to = i + 1;
        }
        proof {
            if is_whitespace(c) {
                if old_to == 0 {
                    assert forall|j: int| 0 <= j < i + 1 implies is_whitespace(
                        #[trigger] s@.take(i + 1)[j],
                    ) by {
                        if j < i {
                            assert(is_whitespace(s@.take(i as int)[j]));
                        }
                    }
                } else {
                    assert forall|j: int| 0 <= j < i + 1 - to implies is_whitespace(
                        #[trigger] s@.subrange(to as int, i + 1)[j],
                    ) by {
                        if j < i - to {
                            assert(is_whitespace(s@.subrange(to as int, i as int)[j]));
                        }
                    }
                }
            }
        }
        i = i + 1;
    }
    proof {
        if to == 0 {
            assert(s@.take(n as int) =~= s@);
            lemma_trim_start(s@, n as int);
            assert(s@.skip(n as int) =~= Seq::<char>::empty());
            assert(s@.subrange(0, 0) =~= Seq::<char>::empty());
        } else {
            lemma_trim_start(s@, from as int);
            let t = s@.skip(from as int);
            assert(t.skip(to - from) =~= s@.subrange(to as int, n as int));
            assert(t[to - from - 1] == s@[to - 1]);
            lemma_trim_end(t, to - from);
            assert(t.take(to - from) =~= s@.subrange(from as int, to as int));
        }
    }
    s.substring_char(from, to)
}

/// What to do after a line.
#[derive(Debug)]
pub enum Step<'a> {
    /// The line was the sentinel: stop reading.
    Exit,
    /// The line was parsed; this is the outcome to report.
    Report(Result<(&'a str, Expr), ParseError<'a>>),
}

/// The model of a `Step`.
pub enum StepModel {
    Exit,
    Report(Parsed),
}

impl<'a> View for Step<'a> {
    type V = StepModel;

    open spec fn view(&self) -> StepModel {
        match *self {
            Step::Exit => StepModel::Exit,
            Step::Report(r) => StepModel::Report(parsed_view(r)),
        }
    }
}

/// The line that ends the session.
pub open spec fn sentinel() -> Seq<char> {
    "exit"@
}

/// What a line leads to: the sentinel, trimmed, ends the session and is not
/// parsed; any other line is trimmed and parsed as an expression.
pub open spec fn step_of(line: Seq<char>) -> StepModel {
    let text = trimmed(line);
    if text == sentinel() {
        StepModel::Exit
    } else {
        StepModel::Report(parse_expr(text))
    }
}

/// Handles one line of input.
pub fn step<'a>(line: &'a str) -> (r: Step<'a>)
    ensures
        r@ == step_of(line@),
{
    let text = trim(line);
    if str_eq(text, "exit") {
        Step::Exit
    } else {
        Step::Report(expr(text))
    }
}

} // verus!
