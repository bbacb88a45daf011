//! The outside operations that the trigger logic needs: regular
//! expressions (the `regex` crate), lossy UTF-8 decoding and upper-casing
//! (std).  Each is a trusted wrapper whose contract names its result.
use vstd::prelude::*;
use vstd::utf8::{decode_utf8, valid_utf8};
use vstd::string::StringSliceAdditionalSpecFns;

verus! {

#[verifier::external_type_specification]
#[verifier::external_body]
pub struct ExRegexError(regex::Error);

/// Whether `regex::Regex::new` accepts `pattern`: the pattern is valid and
/// its compiled form stays within the default size limit.
pub uninterp spec fn regex_compiles(pattern: Seq<char>) -> bool;

/// What `Regex::is_match` answers for the regex compiled from `pattern`
/// on `haystack`: whether it matches anywhere in it.
pub uninterp spec fn regex_matches(pattern: Seq<char>, haystack: Seq<char>) -> bool;

/// What `Regex::find` gives for the regex compiled from `pattern` on
/// `haystack`: the byte range of the leftmost-first match, if any.
pub uninterp spec fn regex_leftmost(pattern: Seq<char>, haystack: Seq<char>) -> Option<(usize, usize)>;

/// Compiles `pattern` with `regex::Regex::new` and tests it on `haystack`
/// with `Regex::is_match`.
///
/// Trusted: the compilation succeeds exactly when `regex_compiles`, and
/// then the answer is `regex_matches` of the pattern and the haystack.
#[verifier::external_body]
pub(crate) fn regex_is_match(pattern: &str, haystack: &str) -> (r: Result<bool, regex::Error>)
    ensures
        r is Ok == regex_compiles(pattern@),
        r matches Ok(b) ==> b == regex_matches(pattern@, haystack@),
{
    match regex::Regex::new(pattern) {
        Ok(re) => Ok(re.is_match(haystack)),
        Err(e) => Err(e),
    }
}

/// Compiles `pattern` with `regex::Regex::new` and searches `haystack`
/// with `Regex::find`, giving the byte offsets `Match::start` and
/// `Match::end` of the match.
///
/// Trusted: the compilation succeeds exactly when `regex_compiles`; then
/// the result is `regex_leftmost` of the pattern and the haystack, there is
/// a match exactly when `Regex::is_match` says so, and, as the crate
/// documents, `start <= end` and both lie within the haystack's bytes.
#[verifier::external_body]
pub(crate) fn regex_find(pattern: &str, haystack: &str) -> (r: Result<Option<(usize, usize)>, regex::Error>)
    ensures
        r is Ok == regex_compiles(pattern@),
        r matches Ok(m) ==> {
            &&& m == regex_leftmost(pattern@, haystack@)
            &&& m is Some == regex_matches(pattern@, haystack@)
            &&& m matches Some((s, e)) ==> s <= e <= haystack.spec_bytes().len()
        },
{
    match regex::Regex::new(pattern) {
        Ok(re) => match re.find(haystack) {
            Some(m) => Ok(Some((m.start(), m.end()))),
            None => Ok(None),
        },
        Err(e) => Err(e),
    }
}

/// What `String::from_utf8_lossy` makes of `bytes`: the decoded text, with
/// U+FFFD in place of each invalid sequence.
pub uninterp spec fn utf8_lossy(bytes: Seq<u8>) -> Seq<char>;

/// Decodes `bytes` with `String::from_utf8_lossy`.
///
/// Trusted: the result is `utf8_lossy` of the bytes, and, as std
/// documents, it is the plain decoding when the bytes are valid UTF-8.
#[verifier::external_body]
pub(crate) fn decode_lossy(bytes: &[u8]) -> (s: String)
    ensures
        s@ == utf8_lossy(bytes@),
        valid_utf8(bytes@) ==> s@ == decode_utf8(bytes@),
{
    String::from_utf8_lossy(bytes).into_owned()
}

/// What `str::to_uppercase` makes of `s`: its Unicode upper-case mapping.
pub uninterp spec fn upper_case(s: Seq<char>) -> Seq<char>;

/// Upper-cases `s` with `str::to_uppercase`.
///
/// Trusted: the result is `upper_case` of `s`.
#[verifier::external_body]
pub(crate) fn uppercase(s: &str) -> (r: String)
    ensures
        r@ == upper_case(s@),
{
    s.to_uppercase()
}

} // verus!
