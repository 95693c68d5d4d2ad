//! Compiled regular expressions from the `regex` crate, seen through names.

use regex::Regex;
use vstd::prelude::*;

verus! {

/// `regex::Regex`, a compiled regular expression. Nothing of its inside is
/// visible here.
#[verifier::external_type_specification]
#[verifier::external_body]
pub struct ExRegex(Regex);

/// `regex::Error`, the reason why a pattern did not compile.
#[verifier::external_type_specification]
#[verifier::external_body]
pub struct ExRegexError(regex::Error);

/// The pattern text that a compiled expression was built from.
pub uninterp spec fn regex_source(re: Regex) -> Seq<char>;

/// The expression was compiled by `Regex::new`, that is with every option
/// of the builder at its default.
pub uninterp spec fn compiled_by_new(re: Regex) -> bool;

/// Whether the expression written as `pattern`, compiled with the default
/// options, has a match anywhere in `text`.
pub uninterp spec fn regex_accepts(pattern: Seq<char>, text: Seq<char>) -> bool;

/// `Regex::new`: on success the compiled expression remembers the pattern
/// text it was given. Nothing is claimed about which patterns compile.
#[verifier::external_body]
pub(crate) fn regex_compile(pattern: &str) -> (res: Result<Regex, regex::Error>)
    ensures
        res matches Ok(re) ==> regex_source(re) == pattern@ && compiled_by_new(re),
{
    Regex::new(pattern)
}

/// `Regex::is_match`: true exactly when the expression has a match anywhere
/// in the haystack. For an expression compiled with the default options the
/// answer depends on the pattern text and the haystack only.
#[verifier::external_body]
pub(crate) fn regex_is_match(re: &Regex, text: &str) -> (b: bool)
    ensures
        compiled_by_new(*re) ==> b == regex_accepts(regex_source(*re), text@),
{
    re.is_match(text)
}

/// `Regex::as_str`: the pattern text that the expression was compiled from.
#[verifier::external_body]
pub(crate) fn regex_as_str(re: &Regex) -> (s: &str)
    ensures
        s@ == regex_source(*re),
{
    re.as_str()
}

} // verus!
