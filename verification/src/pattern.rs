//! Regular-expression matching through the `regex` crate.
//!
//! What `regex` decides is named, not restated: [`regex_compiles`] for whether
//! `Regex::new` accepts a pattern, [`regex_is_match`] for what `Regex::is_match`
//! answers. A compiled regex carries the pattern it was built from. The one
//! pattern whose meaning takes a few lines to state, the test-flag pattern,
//! is stated ([`test_flag_shape`]); the others use Unicode classes (`\d`,
//! `\w`, `\s`) and stay named.

use vstd::prelude::*;
use crate::envelope::{test_flag_shape, TEST_FLAG_PATTERN};

verus! {

#[verifier::external_type_specification]
#[verifier::external_body]
pub struct ExRegex(regex::Regex);

/// Whether `regex::Regex::new` accepts `pattern` (a valid pattern within the
/// default size limit).
pub uninterp spec fn regex_compiles(pattern: Seq<char>) -> bool;

/// Whether `regex::Regex::is_match` finds a match of `pattern` anywhere in
/// `haystack`.
pub uninterp spec fn regex_is_match(pattern: Seq<char>, haystack: Seq<char>) -> bool;

/// A compiled regex together with the pattern it was compiled from.
pub struct CompiledRegex {
    re: regex::Regex,
    source: Ghost<Seq<char>>,
}

impl CompiledRegex {
    pub closed spec fn pattern(&self) -> Seq<char> {
        self.source@
    }
}

/// Calls `regex::Regex::new(pattern)`. Claims that the result is `Some`
/// exactly when the crate accepts the pattern, that it remembers `pattern`,
/// and that the crate accepts the test-flag pattern `^-t+X?$` (plain regex
/// syntax, far below the size limit).
#[verifier::external_body]
pub(crate) fn regex_new(pattern: &str) -> (r: Option<CompiledRegex>)
    ensures
        r is Some <==> regex_compiles(pattern@),
        r matches Some(c) ==> c.pattern() == pattern@,
        pattern@ == TEST_FLAG_PATTERN@ ==> r is Some,
{
    match regex::Regex::new(pattern) {
        Ok(re) => Some(CompiledRegex { re, source: Ghost(pattern@) }),
        Err(_) => None,
    }
}

/// Calls `regex::Regex::is_match`. Claims that the answer is the named result
/// for the regex's pattern and `haystack`; for the test-flag pattern
/// `^-t+X?$` it is what the regex syntax documents: `^` and `$` anchor at the
/// start and end of the whole haystack (no multi-line mode), so the haystack
/// is `-`, one or more `t`, and an optional `X` ([`test_flag_shape`]).
#[verifier::external_body]
fn regex_find_in(re: &CompiledRegex, haystack: &str) -> (r: bool)
    ensures
        r == regex_is_match(re.pattern(), haystack@),
        re.pattern() == TEST_FLAG_PATTERN@ ==> r == test_flag_shape(haystack@),
{
    re.re.is_match(haystack)
}

/// Whether `pattern` compiles and matches somewhere in `haystack`.
pub fn pattern_matches(pattern: &str, haystack: &str) -> (r: bool)
    ensures
        r == (regex_compiles(pattern@) && regex_is_match(pattern@, haystack@)),
        pattern@ == TEST_FLAG_PATTERN@ ==> r == test_flag_shape(haystack@),
{
    match regex_new(pattern) {
        Some(re) => regex_find_in(&re, haystack),
        None => false,
    }
}

/// [`pattern_matches`] on a line held as characters.
pub fn pattern_matches_chars(pattern: &str, haystack: &Vec<char>) -> (r: bool)
    ensures
        r == (regex_compiles(pattern@) && regex_is_match(pattern@, haystack@)),
{
    let h = crate::text::string_of(haystack);
    pattern_matches(pattern, h.as_str())
}

/// Whether the compiled `re` matches somewhere in `haystack`.
pub fn compiled_matches_chars(re: &CompiledRegex, haystack: &Vec<char>) -> (r: bool)
    ensures
        r == regex_is_match(re.pattern(), haystack@),
{
    let h = crate::text::string_of(haystack);
    regex_find_in(re, h.as_str())
}

} // verus!
