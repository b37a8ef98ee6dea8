//! Regular expressions, matched by the `regex` crate.

use vstd::prelude::*;

verus! {

/// What the first capture group of `pattern` holds in each successive match
/// in `text`, left to right and not overlapping; `None` in place of a group
/// that took no part in its match. `None` as a whole where `pattern` is no
/// regular expression.
pub uninterp spec fn regex_first_groups(pattern: Seq<char>, text: Seq<char>) -> Option<
    Seq<Option<Seq<char>>>,
>;

/// The views of what `first_groups` returns.
pub open spec fn groups_view(r: Option<Vec<Option<String>>>) -> Option<Seq<Option<Seq<char>>>> {
    match r {
        Some(v) => Some(
            Seq::new(
                v@.len(),
                |i: int|
                    match v@[i] {
                        Some(g) => Some(g@),
                        None => None,
                    },
            ),
        ),
        None => None,
    }
}

/// Matches `pattern` against `text` and collects the first capture group of
/// every match.
///
/// Trusted: `regex::Regex::new` compiles the pattern or refuses it,
/// `Regex::captures_iter` yields the successive non-overlapping matches, and
/// `Captures::get(1)` is the first group of a match; all of it depends on the
/// two texts alone.
#[verifier::external_body]
pub(crate) fn first_groups(pattern: &str, text: &str) -> (r: Option<Vec<Option<String>>>)
    ensures
        groups_view(r) == regex_first_groups(pattern@, text@),
{
    match regex::Regex::new(pattern) {
        Ok(re) => Some(
            re.captures_iter(text).map(|c| c.get(1).map(|m| m.as_str().to_string())).collect(),
        ),
        Err(_) => None,
    }
}

} // verus!
