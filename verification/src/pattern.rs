//! Searching a text for a pattern, with the `regex` crate.

use regex::Regex;
use vstd::prelude::*;

verus! {

/// The part of `text` that `pattern` matches first, as `regex` finds it:
/// the leftmost match, and of the matches that start there the one that
/// the pattern prefers. `None` when nothing in `text` matches, or when
/// `pattern` is not a pattern that `regex` accepts.
pub uninterp spec fn first_match(pattern: Seq<char>, text: Seq<char>) -> Option<Seq<char>>;

/// `Regex::new` and `Regex::captures`: compiles `pattern` and searches
/// `text` for it. What is returned is the text of the whole first match,
/// which `regex` numbers as group zero and which every match has.
#[verifier::external_body]
pub(crate) fn find_first(pattern: &str, text: &str) -> (found: Option<String>)
    ensures
        match found {
            Some(matched) => first_match(pattern@, text@) == Some(matched@),
            None => first_match(pattern@, text@) is None,
        },
{
    match Regex::new(pattern) {
        Ok(compiled) => match compiled.captures(text) {
            Some(groups) => Some(groups[0].to_string()),
            None => None,
        },
        Err(_) => None,
    }
}

} // verus!
