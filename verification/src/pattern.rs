//! Patterns that a server's response is matched against.

use crate::text;
use vstd::prelude::*;

verus! {

/// What `regex::bytes::Regex::new` says against a pattern; `None` where the
/// pattern compiles.
pub uninterp spec fn pattern_error(pattern: Seq<char>) -> Option<Seq<char>>;

/// Whether `regex::bytes::Regex::is_match` finds a pattern that compiles
/// somewhere in the bytes.
pub uninterp spec fn pattern_matches(pattern: Seq<char>, bytes: Seq<u8>) -> bool;

/// `regex::bytes::Regex::new`: the text of its error, where it gives one, is
/// [`pattern_error`] of the pattern.
#[verifier::external_body]
pub(crate) fn refusal(pattern: &str) -> (r: Option<String>)
    ensures
        text::optional_view(r) == pattern_error(pattern@),
{
    match regex::bytes::Regex::new(pattern) {
        Ok(_) => None,
        Err(error) => Some(error.to_string()),
    }
}

/// `regex::bytes::Regex::is_match` of the compiled pattern: the answer is
/// [`pattern_matches`], and there is none where the pattern does not compile.
#[verifier::external_body]
fn find(pattern: &str, bytes: &[u8]) -> (r: Option<bool>)
    ensures
        r == match pattern_error(pattern@) {
            None => Some(pattern_matches(pattern@, bytes@)),
            Some(_) => None,
        },
{
    match regex::bytes::Regex::new(pattern) {
        Ok(regex) => Some(regex.is_match(bytes)),
        Err(_) => None,
    }
}

/// Whether the pattern compiles and is found in the bytes.
pub fn is_found(pattern: &str, bytes: &[u8]) -> (r: bool)
    ensures
        r == (pattern_error(pattern@) is None && pattern_matches(pattern@, bytes@)),
{
    match find(pattern, bytes) {
        Some(found) => found,
        None => false,
    }
}

} // verus!
