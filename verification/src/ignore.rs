//! The ignore filter: decides whether a path should be skipped entirely
//! during traversal, given an optional user-supplied regular expression.

use vstd::prelude::*;
use regex::Regex;

verus! {

#[verifier::external_type_specification]
#[verifier::external_body]
pub struct ExRegex(Regex);

/// The pattern string that a compiled regular expression holds.
pub uninterp spec fn regex_pattern(re: Regex) -> Seq<char>;

/// Whether the regular expression compiled from `pattern` matches anywhere
/// in `text`. The match result depends on the pattern and the text alone.
pub uninterp spec fn regex_match(pattern: Seq<char>, text: Seq<char>) -> bool;

/// Relies on `regex::Regex::is_match`: returns true if and only if there is
/// a match for the regex anywhere in the haystack given; the result is a
/// function of the compiled pattern and the haystack alone.
#[verifier::external_body]
pub(crate) fn regex_is_match(re: &Regex, text: &str) -> (r: bool)
    ensures
        r == regex_match(regex_pattern(*re), text@),
{
    re.is_match(text)
}

/// Whether `path` is skipped: false when no pattern is configured or the
/// path is empty, otherwise whether the pattern matches anywhere in it.
pub open spec fn spec_is_ignored(ignore: Option<Regex>, path: Seq<char>) -> bool {
    match ignore {
        None => false,
        Some(re) => path.len() > 0 && regex_match(regex_pattern(re), path),
    }
}

/// Checks if a given path is ignored.
///
/// Returns true if the path matches the regex; false if the regex and path
/// don't match, if no ignore regex was given, or if the path is empty.
pub fn is_ignored(ignore: &Option<Regex>, path: &str) -> (r: bool)
    ensures
        r == spec_is_ignored(*ignore, path@),
        ignore is None ==> !r,
        path@.len() == 0 ==> !r,
{
    match ignore {
        None => false,
        Some(re) => {
            if path.unicode_len() == 0 {
                false
            } else {
                regex_is_match(re, path)
            }
        },
    }
}

} // verus!
