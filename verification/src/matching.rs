//! Regular expressions, as the `regex` crate matches them.
//!
//! Nothing here is proved: each function hands a pattern and a text to the
//! crate and gives what comes back a name that contracts can speak of.

use vstd::prelude::*;

verus! {

/// The matches of a pattern in a text, from left to right, each with the text
/// of every capture group (the whole match first) or `None` for a group that
/// took no part. `None` as a whole where the pattern does not compile.
pub uninterp spec fn regex_captures(pattern: Seq<char>, haystack: Seq<char>) -> Option<
    Seq<Seq<Option<Seq<char>>>>,
>;

/// A text in which every match of a pattern is replaced by a replacement
/// that may refer to capture groups; `None` where the pattern does not
/// compile.
pub uninterp spec fn regex_replace_all(
    pattern: Seq<char>,
    haystack: Seq<char>,
    replacement: Seq<char>,
) -> Option<Seq<char>>;

/// Compiles the pattern with `regex::Regex::new` and walks the text with
/// `Regex::captures_iter`, copying out the text of each group of each match.
/// The contract only names the outcome: it is the crate's answer for this
/// pattern and this text, and depends on nothing else.
#[verifier::external_body]
pub(crate) fn captures_iter(pattern: &str, haystack: &str) -> (found: Option<
    Vec<Vec<Option<String>>>,
>)
    ensures
        found.deep_view() == regex_captures(pattern@, haystack@),
{
    match regex::Regex::new(pattern) {
        Ok(re) => Some(
            re.captures_iter(haystack).map(
                |caps| caps.iter().map(|group| group.map(|m| m.as_str().to_string())).collect(),
            ).collect(),
        ),
        Err(_) => None,
    }
}

/// Compiles the pattern with `regex::Regex::new` and rewrites the text with
/// `Regex::replace_all`. The contract only names the outcome: it is the
/// crate's answer for these three texts, and depends on nothing else.
#[verifier::external_body]
pub(crate) fn replace_all(pattern: &str, haystack: &str, replacement: &str) -> (replaced: Option<
    String,
>)
    ensures
        replaced.deep_view() == regex_replace_all(pattern@, haystack@, replacement@),
{
    match regex::Regex::new(pattern) {
        Ok(re) => Some(re.replace_all(haystack, replacement).into_owned()),
        Err(_) => None,
    }
}

} // verus!
