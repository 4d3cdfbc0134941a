//! Regular expressions, as the `regex` crate compiles and matches them.
//!
//! What a pattern compiles to and what a compiled expression matches is
//! named, not defined: the contracts of the filters speak of these names.

use regex::Regex;
use vstd::prelude::*;

verus! {

/// `regex::Regex`, a compiled regular expression.
#[verifier::external_type_specification]
#[verifier::external_body]
pub struct ExRegex(Regex);

/// `regex::Error`, why a pattern did not compile.
#[verifier::external_type_specification]
#[verifier::external_body]
pub struct ExRegexError(regex::Error);

/// What `Regex::new` makes of a pattern: the compiled regular expression,
/// or nothing where the pattern is none.
pub uninterp spec fn compiled(pattern: Seq<char>) -> Option<Regex>;

/// Whether a regular expression matches somewhere in the text: what
/// `Regex::is_match` returns.
pub uninterp spec fn regex_matches(re: Regex, text: Seq<char>) -> bool;

/// What `Regex::captures` returns for a regular expression on the text:
/// nothing where the text has no match, else for the leftmost match the
/// text of the whole match and of every group, in the order of the
/// groups, nothing for a group that took no part in it.
pub uninterp spec fn captured(re: Regex, text: Seq<char>) -> Option<Seq<Option<Seq<char>>>>;

/// The groups of a match as plain values.
pub open spec fn groups_view(groups: Seq<Option<String>>) -> Seq<Option<Seq<char>>> {
    Seq::new(
        groups.len(),
        |i: int|
            match groups[i] {
                Some(s) => Some(s@),
                None => None,
            },
    )
}

/// `Regex::new`: compiles the pattern, or says why it is no regular
/// expression.
#[verifier::external_body]
pub(crate) fn compile(pattern: &str) -> (r: Result<Regex, regex::Error>)
    ensures
        r is Ok == compiled(pattern@) is Some,
        r matches Ok(re) ==> compiled(pattern@) == Some(re),
{
    Regex::new(pattern)
}

/// `Regex::is_match`: whether the expression matches somewhere in the
/// text.
#[verifier::external_body]
pub(crate) fn is_match(re: &Regex, text: &str) -> (r: bool)
    ensures
        r == regex_matches(*re, text@),
{
    re.is_match(text)
}

/// `Regex::captures`, each group copied out of the text.
#[verifier::external_body]
pub(crate) fn captures(re: &Regex, text: &str) -> (r: Option<Vec<Option<String>>>)
    ensures
        r is Some == captured(*re, text@) is Some,
        r matches Some(groups) ==> groups_view(groups@) == captured(*re, text@).unwrap(),
{
    re.captures(text).map(|c| c.iter().map(|m| m.map(|m| m.as_str().to_string())).collect())
}

} // verus!
