//! Character classes of the notation and maximal runs of one class.
use vstd::prelude::*;

verus! {

/// The classes of characters that the lexical rules tell apart.
#[derive(Clone, Copy, Debug, PartialEq, Eq, Structural)]
pub enum CharClass {
    /// `0` to `9`.
    Digit,
    /// `a` to `z` and `A` to `Z`.
    Alpha,
    /// A digit or a letter.
    Alnum,
    /// A letter, a digit or the underscore: what may follow the first letter of a name.
    Word,
    /// Space, tab, carriage return or line feed.
    Space,
}

/// `0` to `9`.
pub open spec fn is_digit(c: char) -> bool {
    '0' <= c <= '9'
}

/// `a` to `z` and `A` to `Z`.
pub open spec fn is_alpha(c: char) -> bool {
    'a' <= c <= 'z' || 'A' <= c <= 'Z'
}

/// A letter or a digit.
pub open spec fn is_alnum(c: char) -> bool {
    is_alpha(c) || is_digit(c)
}

/// A letter, a digit or the underscore.
pub open spec fn is_word(c: char) -> bool {
    is_alnum(c) || c == '_'
}

/// Space, tab, carriage return or line feed.
pub open spec fn is_space(c: char) -> bool {
    c == ' ' || c == '\t' || c == '\r' || c == '\n'
}

impl CharClass {
    /// Whether `c` belongs to the class.
    pub open spec fn holds(self, c: char) -> bool {
        match self {
            CharClass::Digit => is_digit(c),
            CharClass::Alpha => is_alpha(c),
            CharClass::Alnum => is_alnum(c),
            CharClass::Word => is_word(c),
            CharClass::Space => is_space(c),
        }
    }
}

/// The length of the longest prefix of `s` whose characters all belong to `class`.
pub open spec fn run_len(class: CharClass, s: Seq<char>) -> nat
    decreases s.len(),
{
    if s.len() > 0 && class.holds(s[0]) {
        1 + run_len(class, s.skip(1))
    } else {
        0
    }
}

/// Every character of `s` belongs to `class`.
pub open spec fn all_in(class: CharClass, s: Seq<char>) -> bool {
    forall|i: int| 0 <= i < s.len() ==> class.holds(#[trigger] s[i])
}

/// `n` is where the maximal run of `class` at the start of `s` ends.
pub open spec fn is_run_end(class: CharClass, s: Seq<char>, n: int) -> bool {
    &&& 0 <= n <= s.len()
    &&& all_in(class, s.take(n))
    &&& n < s.len() ==> !class.holds(s[n])
}

/// A maximal run is a prefix, ends where the class ends, and nothing else does.
pub proof fn lemma_run_len(class: CharClass, s: Seq<char>)
    ensures
        is_run_end(class, s, run_len(class, s) as int),
        forall|n: int| is_run_end(class, s, n) ==> n == run_len(class, s),
    decreases s.len(),
{
    if s.len() > 0 && class.holds(s[0]) {
        let t = s.skip(1);
        lemma_run_len(class, t);
        let k = run_len(class, t) as int;
        assert forall|i: int| 0 <= i < k + 1 implies class.holds(
            #[trigger] s.take(k + 1)[i],
        ) by {
            if i > 0 {
                assert(s.take(k + 1)[i] == t.take(k)[i - 1]);
            }
        }
        assert forall|n: int| is_run_end(class, s, n) implies n == k + 1 by {
            assert(n > 0);
            assert forall|i: int| 0 <= i < n - 1 implies class.holds(
                #[trigger] t.take(n - 1)[i],
            ) by {
                assert(t.take(n - 1)[i] == s.take(n)[i + 1]);
            }
            assert(is_run_end(class, t, n - 1));
        }
    } else {
        assert forall|n: int| is_run_end(class, s, n) implies n == 0 by {
            if n > 0 {
                assert(s.take(n)[0] == s[0]);
            }
        }
    }
}

} // verus!
