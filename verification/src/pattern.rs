//! The one place where the regular-expression engine is called.

use regex::Regex;
use vstd::prelude::*;

verus! {

/// What the `regex` crate finds when it compiles `pattern` and searches
/// `haystack` for its leftmost match: the text of every capture group in the
/// order of their opening parentheses, group 0 being the whole match, with
/// `None` for a group that took no part in the match. The whole result is
/// `None` when nothing in `haystack` matches or when the crate rejects
/// `pattern`.
pub uninterp spec fn regex_captures(pattern: Seq<char>, haystack: Seq<char>) -> Option<
    Seq<Option<Seq<char>>>,
>;

/// Compiles `pattern` with `regex::Regex::new`, searches `haystack` with
/// `Regex::captures`, walks the groups of the match with `Captures::iter`
/// and copies the text of each out of `Match::as_str`.
///
/// Nothing is proved of this function. Its contract only gives the outcome of
/// the search a name, so that callers can say which search their own results
/// depend on; what the name is on a given pattern and text, no contract says.
#[verifier::external_body]
pub(crate) fn captures(pattern: &str, haystack: &str) -> (groups: Option<Vec<Option<String>>>)
    ensures
        groups.deep_view() == regex_captures(pattern@, haystack@),
{
    match Regex::new(pattern) {
        Ok(re) => re.captures(haystack).map(
            |found| found.iter().map(|group| group.map(|m| m.as_str().to_string())).collect(),
        ),
        Err(_) => None,
    }
}

} // verus!
