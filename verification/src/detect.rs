//! Fingerprint the inner test runner from the output text (not from paths).

use vstd::prelude::*;
use crate::text::{chars_of, contains, contains_str};

verus! {

/// Runner nested under the Arcadia envelope.
#[derive(Debug, Clone, Copy, PartialEq, Eq, Structural)]
pub enum InnerRunner {
    Py3test,
    GoTest,
    JestVitest,
    Unknown,
}

pub open spec fn py3test_like(s: Seq<char>) -> bool {
    contains(s, "py3test"@) || contains(s, "<py3test>"@) || contains(s, "test-results/py3test"@)
}

pub open spec fn go_test_like(s: Seq<char>) -> bool {
    contains(s, "<go_test>"@) || contains(s, "go_test"@) || (contains(s, "=== RUN"@) && contains(
        s,
        ".go:"@,
    ))
}

pub open spec fn jest_vitest_like(s: Seq<char>) -> bool {
    (contains(s, "PASS  "@) && (contains(s, "vitest"@) || contains(s, ".test.ts"@))) || (
    contains(s, "FAIL  "@) && contains(s, "vitest"@)) || (contains(s, "Jest"@) && contains(
        s,
        "Tests:"@,
    )) || (contains(s, "Test Files "@) && contains(s, "vitest"@))
}

/// Fingerprints tried in order: py3test, go, js, else unknown.
pub open spec fn inner_runner_of(s: Seq<char>) -> InnerRunner {
    if py3test_like(s) {
        InnerRunner::Py3test
    } else if go_test_like(s) {
        InnerRunner::GoTest
    } else if jest_vitest_like(s) {
        InnerRunner::JestVitest
    } else {
        InnerRunner::Unknown
    }
}

pub fn detect_inner_runner_chars(s: &Vec<char>) -> (r: InnerRunner)
    ensures
        r == inner_runner_of(s@),
{
    if contains_str(s, "py3test") || contains_str(s, "<py3test>") || contains_str(
        s,
        "test-results/py3test",
    ) {
        return InnerRunner::Py3test;
    }
    if contains_str(s, "<go_test>") || contains_str(s, "go_test") || (contains_str(s, "=== RUN")
        && contains_str(s, ".go:")) {
        return InnerRunner::GoTest;
    }
    if (contains_str(s, "PASS  ") && (contains_str(s, "vitest") || contains_str(s, ".test.ts")))
        || (contains_str(s, "FAIL  ") && contains_str(s, "vitest")) || (contains_str(s, "Jest")
        && contains_str(s, "Tests:")) || (contains_str(s, "Test Files ") && contains_str(
        s,
        "vitest",
    )) {
        return InnerRunner::JestVitest;
    }
    InnerRunner::Unknown
}

/// Scan output for runner fingerprints. Order: py3test, go, js, unknown.
pub fn detect_inner_runner(raw: &str) -> (r: InnerRunner)
    ensures
        r == inner_runner_of(raw@),
{
    let s = chars_of(raw);
    detect_inner_runner_chars(&s)
}

} // verus!
