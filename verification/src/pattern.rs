//! Regular expressions, as far as the library needs them: a pattern is
//! compiled once and then tried on texts.
//!
//! The matching itself is the work of the `regex` crate. What a pattern
//! matches is not described here; it has a name, [`pattern_matches`], and
//! so has the question whether a text is a pattern at all,
//! [`pattern_compiles`].

use vstd::prelude::*;

verus! {

#[verifier::external_type_specification]
#[verifier::external_body]
pub struct ExRegex(regex::Regex);

#[verifier::external_type_specification]
#[verifier::external_body]
pub struct ExRegexError(regex::Error);

/// Whether `regex::Regex::new` accepts the text as a pattern.
pub uninterp spec fn pattern_compiles(pattern: Seq<char>) -> bool;

/// Whether the pattern, compiled by `regex::Regex::new`, has a match
/// somewhere in the text, as `regex::Regex::is_match` says.
pub uninterp spec fn pattern_matches(pattern: Seq<char>, text: Seq<char>) -> bool;

/// A compiled pattern, with the text it was compiled from.
pub struct Pattern {
    source: String,
    compiled: regex::Regex,
}

impl Pattern {
    /// The text that the pattern was compiled from.
    pub closed spec fn source(&self) -> Seq<char> {
        self.source@
    }
}

/// Calls `regex::Regex::new`. Trusted: the call succeeds exactly on the
/// texts that [`pattern_compiles`] names, and the pattern that comes back
/// is the one compiled from the given text.
#[verifier::external_body]
pub(crate) fn compile(pattern: &str) -> (r: Result<Pattern, regex::Error>)
    ensures
        r is Ok <==> pattern_compiles(pattern@),
        r is Ok ==> r->Ok_0.source() == pattern@,
{
    regex::Regex::new(pattern).map(|compiled| Pattern { source: pattern.to_string(), compiled })
}

/// Calls `regex::Regex::is_match`. Trusted: the answer is what
/// [`pattern_matches`] names for the text of the pattern and the given
/// text.
#[verifier::external_body]
pub(crate) fn is_match(pattern: &Pattern, text: &str) -> (r: bool)
    ensures
        r == pattern_matches(pattern.source(), text@),
{
    pattern.compiled.is_match(text)
}

/// What trying a pattern on a text comes to: nothing when the pattern does
/// not compile, else whether it matches.
pub open spec fn tried(pattern: Seq<char>, text: Seq<char>) -> Option<bool> {
    if pattern_compiles(pattern) {
        Some(pattern_matches(pattern, text))
    } else {
        None
    }
}

/// Tries a pattern on a text. Gives nothing when the pattern does not
/// compile.
pub fn try_pattern(pattern: &str, text: &str) -> (r: Option<bool>)
    ensures
        r == tried(pattern@, text@),
{
    match compile(pattern) {
        Ok(compiled) => Some(is_match(&compiled, text)),
        Err(_) => None,
    }
}

} // verus!
