//! Regular expressions, as the `regex` crate reads and applies them.

use regex::Regex;
use vstd::prelude::*;

verus! {

#[verifier::external_type_specification]
#[verifier::external_body]
pub struct ExRegex(regex::Regex);

#[verifier::external_type_specification]
#[verifier::external_body]
pub struct ExRegexError(regex::Error);

/// `Regex::new` accepts the pattern on a machine with pointers of that many
/// bits: its syntax is valid and its program fits the default size limit, which
/// counts bytes of pointer-sized fields.
pub uninterp spec fn regex_compiles(pattern: Seq<char>, pointer_bits: int) -> bool;

/// The pattern that a compiled expression came from, as `Regex::as_str` gives it.
pub uninterp spec fn regex_source(regex: Regex) -> Seq<char>;

/// The pattern matches somewhere in the text, as `Regex::is_match` finds it.
pub uninterp spec fn regex_matches(pattern: Seq<char>, text: Seq<char>) -> bool;

/// `Regex::new` compiles a pattern and keeps its text. Whether a pattern
/// compiles depends on the pattern and the pointer width alone; the pattern
/// `.*` does.
pub assume_specification[ regex::Regex::new ](re: &str) -> (r: Result<regex::Regex, regex::Error>)
    ensures
        r is Ok <==> regex_compiles(re@, usize::BITS as int),
        r matches Ok(regex) ==> regex_source(regex) == re@,
        re@ == ".*"@ ==> r is Ok,
;

/// `Regex::is_match` depends on the pattern and the text alone. The pattern
/// `.*` matches in every text, if only the empty string at its start.
pub assume_specification[ regex::Regex::is_match ](re: &regex::Regex, haystack: &str) -> (r: bool)
    ensures
        r == regex_matches(regex_source(*re), haystack@),
        regex_source(*re) == ".*"@ ==> r,
;

} // verus!
