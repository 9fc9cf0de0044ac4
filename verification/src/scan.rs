//! The lexical scanners, supplied by `nom`, with what the grammar relies on.
use vstd::prelude::*;
use crate::chars::{CharClass, run_len};

verus! {

/// What a scanner for maximal runs of `class` gives on `s`: the remainder and
/// the run, or nothing where the run has fewer than `min` characters.
pub open spec fn run_split(class: CharClass, min: nat, s: Seq<char>) -> Option<
    (Seq<char>, Seq<char>),
> {
    let n = run_len(class, s);
    if n >= min {
        Some((s.skip(n as int), s.take(n as int)))
    } else {
        None
    }
}

/// Whether the pair of slices `r` is what `run_split` gives.
pub open spec fn is_run_split(
    class: CharClass,
    min: nat,
    s: Seq<char>,
    r: Option<(&str, &str)>,
) -> bool {
    match r {
        Some((rest, run)) => run_split(class, min, s) == Some((rest@, run@)),
        None => run_split(class, min, s) is None,
    }
}

/// Calls `nom::character::complete::digit1`. Trusted: it splits `s` after its
/// longest prefix of ASCII digits and fails where that prefix is empty.
#[verifier::external_body]
pub(crate) fn digit1<'a>(s: &'a str) -> (r: Option<(&'a str, &'a str)>)
    ensures
        is_run_split(CharClass::Digit, 1, s@, r),
{
    match nom::character::complete::digit1::<&str, nom::error::Error<&str>>(s) {
        Ok((rest, run)) => Some((rest, run)),
        Err(_) => None,
    }
}

/// Calls `nom::character::complete::alpha1`. Trusted: it splits `s` after its
/// longest prefix of ASCII letters and fails where that prefix is empty.
#[verifier::external_body]
pub(crate) fn alpha1<'a>(s: &'a str) -> (r: Option<(&'a str, &'a str)>)
    ensures
        is_run_split(CharClass::Alpha, 1, s@, r),
{
    match nom::character::complete::alpha1::<&str, nom::error::Error<&str>>(s) {
        Ok((rest, run)) => Some((rest, run)),
        Err(_) => None,
    }
}

/// Calls `nom::character::complete::alphanumeric1`. Trusted: it splits `s`
/// after its longest prefix of ASCII letters and digits and fails where that
/// prefix is empty.
#[verifier::external_body]
pub(crate) fn alphanumeric1<'a>(s: &'a str) -> (r: Option<(&'a str, &'a str)>)
    ensures
        is_run_split(CharClass::Alnum, 1, s@, r),
{
    match nom::character::complete::alphanumeric1::<&str, nom::error::Error<&str>>(s) {
        Ok((rest, run)) => Some((rest, run)),
        Err(_) => None,
    }
}

/// Calls `nom::character::complete::multispace0`. Trusted: it splits `s` after
/// its longest prefix of spaces, tabs, carriage returns and line feeds, and
/// succeeds also where that prefix is empty.
#[verifier::external_body]
pub(crate) fn multispace0<'a>(s: &'a str) -> (r: Option<(&'a str, &'a str)>)
    ensures
        is_run_split(CharClass::Space, 0, s@, r),
{
    match nom::character::complete::multispace0::<&str, nom::error::Error<&str>>(s) {
        Ok((rest, run)) => Some((rest, run)),
        Err(_) => None,
    }
}

/// Calls `nom::character::complete::multispace1`. Trusted: it splits `s` after
/// its longest prefix of spaces, tabs, carriage returns and line feeds, and
/// fails where that prefix is empty.
#[verifier::external_body]
pub(crate) fn multispace1<'a>(s: &'a str) -> (r: Option<(&'a str, &'a str)>)
    ensures
        is_run_split(CharClass::Space, 1, s@, r),
{
    match nom::character::complete::multispace1::<&str, nom::error::Error<&str>>(s) {
        Ok((rest, run)) => Some((rest, run)),
        Err(_) => None,
    }
}

/// Calls the parser that `nom::bytes::complete::tag` makes of `t`. Trusted: it
/// succeeds exactly where `s` starts with `t`, and then gives what follows `t`.
#[verifier::external_body]
pub(crate) fn tag<'a>(t: &str, s: &'a str) -> (r: Option<&'a str>)
    ensures
        match r {
            Some(rest) => t@.is_prefix_of(s@) && rest@ == s@.skip(t@.len() as int),
            None => !t@.is_prefix_of(s@),
        },
{
    match nom::bytes::complete::tag::<&str, &str, nom::error::Error<&str>>(t)(s) {
        Ok((rest, _)) => Some(rest),
        Err(_) => None,
    }
}

} // verus!
