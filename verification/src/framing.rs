//! Arcadia envelope framing: which suite / chunk / totals lines are kept.

use vstd::prelude::*;
use crate::pattern::{pattern_matches_chars, regex_compiles, regex_is_match};
use crate::text::{
    chars_of, contains, contains_str, eq_str, is_digit, starts_with, starts_with_str, trim_start,
    trim_start_chars,
};

verus! {

/// Outcome under a `Total` line: `84 - GOOD`, `2 - FAIL`, …
pub const OUTCOME_PATTERN: &'static str = r"^\d+\s+-\s+(GOOD|FAIL|SKIP|TIMEOUT)";

/// A digit in the sense of `char::is_ascii_digit`.
pub open spec fn first_is_digit(t: Seq<char>) -> bool {
    t.len() > 0 && is_digit(t[0])
}

/// A word that an outcome line ends with; the outcome pattern is consulted
/// only for lines that hold one (no other line can match it).
pub open spec fn has_outcome_word(t: Seq<char>) -> bool {
    contains(t, "GOOD"@) || contains(t, "FAIL"@) || contains(t, "SKIP"@) || contains(t, "TIMEOUT"@)
}

/// Whether the outcome pattern matches `t`, as `regex` decides (consulted
/// only when `t` holds an outcome word).
pub open spec fn outcome_hit(t: Seq<char>) -> bool {
    has_outcome_word(t) && regex_compiles(OUTCOME_PATTERN@) && regex_is_match(OUTCOME_PATTERN@, t)
}

/// Whether a line is envelope framing worth keeping.
pub open spec fn framing_kept(line: Seq<char>) -> bool {
    framing_kept_given(line, outcome_hit(trim_start(line)))
}

/// The framing rule once it is known whether the outcome pattern matches
/// the line (without its leading whitespace).
pub open spec fn framing_kept_given(line: Seq<char>, outcome: bool) -> bool {
    let t = trim_start(line);
    if t.len() == 0 {
        false
    } else if contains(t, "[TM]"@) || starts_with(t, "------- [GO]"@) || starts_with(
        t,
        "------- [PB]"@,
    ) {
        true
    } else if starts_with(t, "------"@) {
        contains(t, "chunk ran"@) || contains(t, "FAIL"@) || contains(t, "sole chunk"@)
    } else if starts_with(t, "Total "@) {
        true
    } else if contains(t, "<py3test>"@) || contains(t, "<go_test>"@) || contains(t, "<gtest>"@) {
        true
    } else if first_is_digit(t) && contains(t, " - FAIL"@) {
        true
    } else if outcome {
        true
    } else {
        t == "Ok"@
    }
}

/// Framing, or a `Log:` / `Logsdir:` line.
pub open spec fn postamble_kept(line: Seq<char>) -> bool {
    framing_kept(line) || starts_with(trim_start(line), "Log:"@) || starts_with(
        trim_start(line),
        "Logsdir:"@,
    )
}

pub fn is_ascii_digit(c: char) -> (r: bool)
    ensures
        r == is_digit(c),
{
    '0' <= c && c <= '9'
}

pub fn framing_kept_chars(line: &Vec<char>) -> (r: bool)
    ensures
        r == framing_kept(line@),
{
    let t = trim_start_chars(line);
    let hit = (contains_str(&t, "GOOD") || contains_str(&t, "FAIL") || contains_str(&t, "SKIP")
        || contains_str(&t, "TIMEOUT")) && pattern_matches_chars(OUTCOME_PATTERN, &t);
    framing_given_chars(line, hit)
}

fn framing_given_chars(line: &Vec<char>, outcome: bool) -> (r: bool)
    ensures
        r == framing_kept_given(line@, outcome),
{
    let t = trim_start_chars(line);
    if t.len() == 0 {
        return false;
    }
    if contains_str(&t, "[TM]") || starts_with_str(&t, "------- [GO]") || starts_with_str(
        &t,
        "------- [PB]",
    ) {
        return true;
    }
    if starts_with_str(&t, "------") {
        return contains_str(&t, "chunk ran") || contains_str(&t, "FAIL") || contains_str(
            &t,
            "sole chunk",
        );
    }
    if starts_with_str(&t, "Total ") {
        return true;
    }
    if contains_str(&t, "<py3test>") || contains_str(&t, "<go_test>") || contains_str(
        &t,
        "<gtest>",
    ) {
        return true;
    }
    if is_ascii_digit(t[0]) && contains_str(&t, " - FAIL") {
        return true;
    }
    if outcome {
        return true;
    }
    eq_str(&t, "Ok")
}

pub fn postamble_kept_chars(line: &Vec<char>) -> (r: bool)
    ensures
        r == postamble_kept(line@),
{
    if framing_kept_chars(line) {
        return true;
    }
    let t = trim_start_chars(line);
    starts_with_str(&t, "Log:") || starts_with_str(&t, "Logsdir:")
}

/// Whether a line is envelope framing worth keeping (suite identity headers,
/// chunk summaries, totals and outcomes, runner tags, the final `Ok`).
/// The second argument does not change the answer.
pub fn keep_framing_line(line: &str, _has_fails: bool) -> (r: bool)
    ensures
        r == framing_kept(line@),
{
    let l = chars_of(line);
    framing_kept_chars(&l)
}

/// [`framing_kept_given`]: the framing rule once it is known whether the
/// outcome pattern matched the line.
pub fn keep_framing_line_given(line: &str, outcome_matched: bool) -> (r: bool)
    ensures
        r == framing_kept_given(line@, outcome_matched),
{
    let l = chars_of(line);
    framing_given_chars(&l, outcome_matched)
}

/// Framing, or a `Log:` / `Logsdir:` line (these must survive after a chunk
/// boundary).
pub fn keep_postamble_line(line: &str, _has_fails: bool) -> (r: bool)
    ensures
        r == postamble_kept(line@),
{
    let l = chars_of(line);
    postamble_kept_chars(&l)
}

} // verus!
