//! Trusted boundary to the `regex` crate.
//!
//! Every pattern is carried around as its source text, and each use site
//! compiles it anew, so that the contracts can speak about the pattern string
//! itself.  What a regular expression accepts is not restated here: the
//! outcomes are given names (`regex_valid`, `regex_match`, `regex_capture`)
//! that depend on the pattern and the haystack alone.

use vstd::prelude::*;

verus! {

/// Whether `pattern` compiles as a regular expression
/// (`regex::Regex::new(pattern)` returns `Ok`).
pub uninterp spec fn regex_valid(pattern: Seq<char>) -> bool;

/// Whether a valid `pattern` matches anywhere in `text`
/// (`regex::Regex::is_match`); `false` for an invalid pattern.
pub uninterp spec fn regex_match(pattern: Seq<char>, text: Seq<char>) -> bool;

/// The text of the first capture group of the first match of a valid
/// `pattern` with exactly one capture group in `text`
/// (`regex::Regex::captures`); `None` for an invalid pattern, a pattern
/// whose group count differs, no match, or a group that did not take part
/// in the match.
pub uninterp spec fn regex_capture(pattern: Seq<char>, text: Seq<char>) -> Option<Seq<char>>;

/// Relies on `regex::Regex::new`: whether `pattern` is accepted as a
/// regular expression.  Compilation depends on the pattern text alone.
#[verifier::external_body]
pub fn check_pattern(pattern: &str) -> (r: bool)
    ensures
        r == regex_valid(pattern@),
{
    regex::Regex::new(pattern).is_ok()
}

/// Relies on `regex::Regex::new` and `regex::Regex::is_match`: whether the
/// compiled `pattern` matches anywhere in `text`.  The result depends on the
/// two strings alone; an invalid pattern matches nothing.
#[verifier::external_body]
pub fn pattern_matches(pattern: &str, text: &str) -> (r: bool)
    ensures
        r == regex_match(pattern@, text@),
{
    match regex::Regex::new(pattern) {
        Ok(re) => re.is_match(text),
        Err(_) => false,
    }
}

/// Relies on `regex::Regex::new` and `regex::Regex::captures`: the first
/// capture group of the first match, for a pattern with exactly one capture
/// group.  The result depends on the two strings alone; an invalid pattern,
/// a different group count, or no match give `None`.
#[verifier::external_body]
pub fn pattern_capture(pattern: &str, text: &str) -> (r: Option<String>)
    ensures
        match r {
            Some(s) => regex_capture(pattern@, text@) == Some(s@),
            None => regex_capture(pattern@, text@) is None,
        },
{
    match regex::Regex::new(pattern) {
        Ok(re) => match re.captures(text) {
            Some(caps) if caps.len() == 2 => caps.get(1).map(|m| m.as_str().to_string()),
            _ => None,
        },
        Err(_) => None,
    }
}

} // verus!
