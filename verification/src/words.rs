//! Cutting a text into the words that serve as keys.

use regex::Regex;
use vstd::prelude::*;

verus! {

/// The pattern of a word: one or more word characters with a word boundary
/// on either side.
pub const WORD_PATTERN: &'static str = "\\b\\w+\\b";

/// What searching `text` for the regular expression `pattern` finds: the
/// pieces of `text` that match, from left to right and without overlap, or
/// nothing where `pattern` does not compile.
pub uninterp spec fn regex_matches(pattern: Seq<char>, text: Seq<char>) -> Option<Seq<Seq<char>>>;

/// The characters of each of `words`.
pub open spec fn texts(words: Seq<String>) -> Seq<Seq<char>> {
    Seq::new(words.len(), |i: int| words[i]@)
}

/// Compiles `pattern` with `regex::Regex::new` and collects what
/// `Regex::find_iter` yields on `text`, each match as `Match::as_str` gives
/// it.
///
/// Trusted: whether the pattern compiles, and what is then found, depend on
/// the characters of `pattern` and `text` alone.
#[verifier::external_body]
fn find_all(pattern: &str, text: &str) -> (found: Option<Vec<String>>)
    ensures
        found is Some <==> regex_matches(pattern@, text@) is Some,
        found matches Some(words) ==> regex_matches(pattern@, text@) == Some(texts(words@)),
{
    match Regex::new(pattern) {
        Ok(re) => Some(re.find_iter(text).map(|m| m.as_str().to_owned()).collect()),
        Err(_) => None,
    }
}

/// The words of `text` in the order in which they occur, each a match of
/// `WORD_PATTERN`; nothing if the pattern is refused.
pub fn words(text: &str) -> (found: Option<Vec<String>>)
    ensures
        found is Some <==> regex_matches(WORD_PATTERN@, text@) is Some,
        found matches Some(words) ==> regex_matches(WORD_PATTERN@, text@) == Some(
            texts(words@),
        ),
{
    find_all(WORD_PATTERN, text)
}

} // verus!
