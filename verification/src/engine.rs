//! The regular-expression engine: the `regex` crate, behind contracts that are
//! believed, not proved.
//!
//! Nothing is claimed of what a pattern matches. The contracts only give names to
//! what the engine answers, so that the evaluator can say which answer it used: the
//! answers depend on the pattern text and the haystack alone.

use vstd::prelude::*;

verus! {

/// A compiled pattern, `regex::Regex`. Its contents are not visible to the
/// verifier; only [`pattern_text`] speaks of them.
#[verifier::external_type_specification]
#[verifier::external_body]
pub struct ExRegex(regex::Regex);

/// The error with which `regex::Regex::new` rejects a pattern, `regex::Error`.
#[verifier::external_type_specification]
#[verifier::external_body]
pub struct ExRegexError(regex::Error);

/// Whether `regex::Regex::new` accepts the pattern.
///
/// The engine rejects a pattern whose compiled form is over a size limit that is
/// counted in bytes, so for a pattern at that limit the answer is that of the
/// build at hand.
pub uninterp spec fn pattern_compiles(pattern: Seq<char>) -> bool;

/// Whether a compiled pattern is one that `regex::Regex::new` made, with the
/// engine's default options.
pub uninterp spec fn plainly_compiled(re: regex::Regex) -> bool;

/// The pattern text that a compiled `regex::Regex` was built from, which is what
/// `regex::Regex::as_str` returns.
pub uninterp spec fn pattern_text(re: regex::Regex) -> Seq<char>;

/// The byte offsets `(start, end)` of the match that `regex::Regex::find` reports
/// for a pattern in a haystack, or `None` where it reports no match.
pub uninterp spec fn leftmost_match(pattern: Seq<char>, haystack: Seq<char>) -> Option<
    (usize, usize),
>;

/// Compiles a pattern with `regex::Regex::new`.
///
/// Believed: whether the engine accepts a pattern depends on its text alone, and
/// the compiled pattern is that of the text given, with the default options.
#[verifier::external_body]
pub(crate) fn compile(pattern: &str) -> (r: Result<regex::Regex, regex::Error>)
    ensures
        r is Ok <==> pattern_compiles(pattern@),
        r matches Ok(re) ==> pattern_text(re) == pattern@ && plainly_compiled(re),
{
    regex::Regex::new(pattern)
}

/// Searches a haystack with `regex::Regex::find` and hands back the byte offsets
/// of the match that it reports.
///
/// Believed: for a pattern compiled with the default options, the offsets depend on
/// the pattern text and the haystack alone. Nothing is believed of where they lie:
/// what follows the search is verified for every answer.
#[verifier::external_body]
pub(crate) fn find(re: &regex::Regex, haystack: &str) -> (r: Option<(usize, usize)>)
    requires
        plainly_compiled(*re),
    ensures
        r == leftmost_match(pattern_text(*re), haystack@),
{
    match re.find(haystack) {
        Some(m) => Some((m.start(), m.end())),
        None => None,
    }
}

} // verus!
