//! Whole-string matching with the `regex` crate.
use regex::Error as RegexError;
use regex::Regex;
use vstd::prelude::*;

verus! {

#[verifier::external_type_specification]
#[verifier::external_body]
pub struct ExRegex(Regex);

#[verifier::external_type_specification]
#[verifier::external_body]
pub struct ExRegexError(RegexError);

/// Whether `regex::Regex::new` accepts `source`.
pub uninterp spec fn regex_compiles(source: Seq<char>) -> bool;

/// What `is_match` of the regex compiled from `source` answers for
/// `haystack`.
pub uninterp spec fn regex_is_match(source: Seq<char>, haystack: Seq<char>) -> bool;

/// A compiled regex, with the source it was compiled from.
pub struct Matcher {
    regex: Regex,
    source: String,
}

impl Matcher {
    /// The source the regex was compiled from.
    pub closed spec fn source(&self) -> Seq<char> {
        self.source@
    }
}

/// Compiles `source` with `regex::Regex::new`. The contract claims that the
/// outcome depends on the source alone, and keeps the source beside the
/// regex; which error is reported is left unsaid.
#[verifier::external_body]
pub fn compile(source: &str) -> (res: Result<Matcher, RegexError>)
    ensures
        res is Ok <==> regex_compiles(source@),
        res matches Ok(m) ==> m.source() == source@,
{
    Ok(Matcher { regex: Regex::new(source)?, source: source.to_string() })
}

/// `Regex::is_match`: whether the compiled regex matches somewhere in
/// `haystack`; the contract claims that the answer depends on the source and
/// the haystack alone.
#[verifier::external_body]
pub fn is_match(matcher: &Matcher, haystack: &str) -> (b: bool)
    ensures
        b == regex_is_match(matcher.source(), haystack@),
{
    matcher.regex.is_match(haystack)
}

} // verus!
