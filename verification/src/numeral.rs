//! The value of a literal: decimal digits folded into a signed 64-bit integer.
use vstd::prelude::*;
use vstd::string::is_ascii_spec_bytes;
use crate::chars::{CharClass, all_in};
use crate::grammar::{decimal, digit_value, is_separator, literal_value, without_separators};

verus! {

/// The number that results from writing `digits` behind the decimal numeral of `n`.
pub open spec fn shift_in(n: nat, digits: Seq<char>) -> nat
    decreases digits.len(),
{
    if digits.len() == 0 {
        n
    } else {
        10 * shift_in(n, digits.drop_last()) + digit_value(digits.last())
    }
}

/// `n` as a signed 64-bit integer, where it is one.
pub open spec fn fit(n: nat) -> Option<i64> {
    if n <= i64::MAX {
        Some(n as i64)
    } else {
        None
    }
}

/// Writing digits behind a numeral never makes the number smaller.
pub proof fn lemma_shift_in_grows(n: nat, digits: Seq<char>)
    ensures
        shift_in(n, digits) >= n,
    decreases digits.len(),
{
    if digits.len() > 0 {
        lemma_shift_in_grows(n, digits.drop_last());
    }
}

/// Writing `b` behind the numeral `a` gives the numeral `a + b`.
pub proof fn lemma_shift_in_decimal(a: Seq<char>, b: Seq<char>)
    ensures
        shift_in(decimal(a), b) == decimal(a + b),
    decreases b.len(),
{
    if b.len() == 0 {
        assert(a + b =~= a);
    } else {
        lemma_shift_in_decimal(a, b.drop_last());
        assert((a + b).drop_last() =~= a + b.drop_last());
        assert((a + b).last() == b.last());
    }
}

/// A run of digits holds no separator, so removing separators leaves it as it is.
pub proof fn lemma_digits_have_no_separator(run: Seq<char>)
    requires
        all_in(CharClass::Digit, run),
    ensures
        without_separators(run) == run,
    decreases run.len(),
{
    reveal(Seq::filter);
    if run.len() > 0 {
        let front = run.drop_last();
        assert forall|i: int| 0 <= i < front.len() implies CharClass::Digit.holds(
            #[trigger] front[i],
        ) by {
            assert(front[i] == run[i]);
        }
        lemma_digits_have_no_separator(front);
        assert(CharClass::Digit.holds(run[run.len() - 1]));
        assert(without_separators(run) =~= run);
    } else {
        assert(without_separators(run) =~= run);
    }
}

/// The value of a lexeme that is continued by a separator and a run of digits.
pub proof fn lemma_value_of_next_group(lexeme: Seq<char>, run: Seq<char>)
    requires
        all_in(CharClass::Digit, run),
    ensures
        literal_value(lexeme + seq!['_'] + run) == shift_in(literal_value(lexeme), run),
{
    let keep = |c: char| !is_separator(c);
    let sep = seq!['_'];
    Seq::filter_distributes_over_add(lexeme + sep, run, keep);
    Seq::filter_distributes_over_add(lexeme, sep, keep);
    lemma_digits_have_no_separator(run);
    assert(sep.filter(keep) =~= Seq::<char>::empty()) by {
        reveal_with_fuel(Seq::filter, 2);
        assert(sep.drop_last() =~= Seq::<char>::empty());
    }
    assert(without_separators(lexeme + sep + run) =~= without_separators(lexeme) + run);
    lemma_shift_in_decimal(without_separators(lexeme), run);
}

/// Folds the digits of `run` into `acc`; `None` stands for a number that no
/// longer fits.
pub(crate) fn push_digits(acc: Option<i64>, run: &str) -> (r: Option<i64>)
    requires
        all_in(CharClass::Digit, run@),
        acc matches Some(v) ==> v >= 0,
    ensures
        r == match acc {
            Some(v) => fit(shift_in(v as nat, run@)),
            None => None,
        },
{
    let start: i64 = match acc {
        Some(v) => v,
        None => { return None; },
    };
    let bytes = run.as_bytes();
    proof {
        assert(vstd::string::is_ascii(run)) by {
            assert forall|i: int| 0 <= i < run@.len() implies '\0' <= #[trigger] run@[i]
                <= '\u{7f}' by {
                assert(CharClass::Digit.holds(run@[i]));
            }
        }
        is_ascii_spec_bytes(run);
    }
    let mut cur: i64 = start;
    let mut i: usize = 0;
    while i < bytes.len()
        invariant
            i <= bytes@.len(),
            bytes@.len() == run@.len(),
            forall|j: int| 0 <= j < run@.len() ==> bytes@[j] == run@[j] as u8,
            all_in(CharClass::Digit, run@),
            acc == Some(start),
            start >= 0,
            cur >= 0,
            cur == shift_in(start as nat, run@.take(i as int)),
        decreases bytes@.len() - i,
    {
        let b: u8 = bytes[i];
        proof {
            assert(CharClass::Digit.holds(run@[i as int]));
            assert(run@.take(i + 1).drop_last() =~= run@.take(i as int));
            assert(run@.take(i + 1).last() == run@[i as int]);
            assert(digit_value(run@[i as int]) == b - 48);
        }
        let d: i64 = (b - 48) as i64;
        if cur > (i64::MAX - d) / 10 {
            proof {
                assert(shift_in(start as nat, run@.take(i + 1)) > i64::MAX);
                assert(run@ =~= run@.take(i + 1) + run@.skip(i + 1));
                lemma_shift_in_prefix(start as nat, run@.take(i + 1), run@.skip(i + 1));
            }
            return None;
        }
        cur = cur * 10 + d;
        i = i + 1;
    }
    proof {
        assert(run@.take(i as int) =~= run@);
    }
    Some(cur)
}

/// Writing more digits behind never makes the number smaller.
pub proof fn lemma_shift_in_prefix(n: nat, a: Seq<char>, b: Seq<char>)
    ensures
        shift_in(n, a + b) >= shift_in(n, a),
    decreases b.len(),
{
    if b.len() == 0 {
        assert(a + b =~= a);
    } else {
        lemma_shift_in_prefix(n, a, b.drop_last());
        assert((a + b).drop_last() =~= a + b.drop_last());
    }
}

} // verus!
