use vstd::prelude::*;

verus! {

/// A compiled regular expression of the `regex` crate, declared so that it
/// can appear in signatures; its match behaviour is named by
/// [`regex_matches`].
#[verifier::external_type_specification]
#[verifier::external_body]
pub struct ExRegex(regex::Regex);

/// Names the result of `regex::Regex::is_match`: whether `re` matches
/// somewhere inside `text`. The result is a function of the compiled
/// pattern and the text alone.
pub uninterp spec fn regex_matches(re: regex::Regex, text: Seq<char>) -> bool;

/// Relies on `regex::Regex::is_match`: true exactly when the pattern
/// matches somewhere inside `text`; deterministic in `re` and `text`.
#[verifier::external_body]
pub(crate) fn regex_is_match(re: &regex::Regex, text: &str) -> (b: bool)
    ensures
        b == regex_matches(*re, text@),
{
    re.is_match(text)
}

} // verus!
