use ya_filters::envelope::{filter_ya_envelope, test_stream_filter, YaTestStreamFilter};
use ya_filters::generic_fail::{
    compact_fail_block, compact_fail_block_given, insert_overflow_hint, dump_overflow_tee, split_fail_sections,
    MAX_FAIL_BLOCKS,
};
use ya_filters::framing::{keep_framing_line, keep_framing_line_given};
use ya_filters::go_test::filter_go_test;
use ya_filters::py3test::filter_py3test;
use ya_filters::pytest::filter_pytest_output;
use ya_filters::ya_cmd::{classify, pipeline, YaKind, YaPipeline};

const PY_SUITE: &str = "\
------- [TM] {x} s/py3test
[fail] a.py::t1 [p] (0.1s)
a.py:3: in t1
E   AssertionError: no
Log: /l/t1.log
Logsdir: /l
------ FAIL: 1 - FAIL s
";

fn stream_all(raw: &str) -> (String, YaTestStreamFilter) {
    let mut f = test_stream_filter();
    let mut out = String::new();
    for line in raw.lines() {
        if let Some(c) = f.feed_line(line) {
            out.push_str(&c);
        }
    }
    out.push_str(&f.flush());
    if let Some(t) = f.on_exit(0, raw) {
        out.push_str(&t);
    }
    (out, f)
}

#[test]
fn py3test_output_is_exact() {
    let (body, truncated) = filter_py3test(PY_SUITE).expect("has a fail");
    assert!(truncated);
    assert_eq!(
        body,
        "------- [TM] {x} s/py3test\n\
         Pytest: 0 passed, 1 failed in 0.00s\n\
         [FAIL] a.py::t1\n\
         a.py:3: in t1\n\
         E   AssertionError: no\n\
         Log: /l/t1.log\n\
         Logsdir: /l\n\
         ------ FAIL: 1 - FAIL s\n"
    );
    assert_eq!(filter_ya_envelope(PY_SUITE), body);
}

#[test]
fn pytest_report_compaction_is_exact() {
    let report = "\
============================= FAILURES =============================
________________________ test_one ________________________
tests/test_a.py:10: in test_one
    assert 1 == 2
E   assert 1 == 2
________________________ test_two ________________________
E   AssertionError: boom
=========================== short test summary info ===========================
FAILED tests/test_a.py::test_one
================= 2 failed, 3 passed in 0.12s =================
";
    assert_eq!(
        filter_pytest_output(report),
        "Pytest: 2 failed, 3 passed in 0.12s\n\
         [FAIL] test_one\n\
         tests/test_a.py:10: in test_one\n\
         E   assert 1 == 2\n\
         [FAIL] test_two\n\
         E   AssertionError: boom"
    );
    assert_eq!(filter_pytest_output(""), "");
}

#[test]
fn stream_output_is_exact_and_recorded() {
    let (out, f) = stream_all(PY_SUITE);
    assert_eq!(
        out,
        "------- [TM] {x} s/py3test\n\
         [fail] a.py::t1 [p] (0.1s)\n\
         a.py:3: in t1\n\
         E   AssertionError: no\n\
         Log: /l/t1.log\n\
         Logsdir: /l\n\
         ------ FAIL: 1 - FAIL s\n"
    );
    assert_eq!(f.emitted_so_far(), out);
    assert!(!f.did_drop_fat());
    assert!(f.overflow_tee().is_none());
}

#[test]
fn generic_filter_keeps_headline_location_and_logsdir() {
    let raw = "[fail] x::t [p] (1s)\nx.cc:10: failure\njunk line\nLogsdir: /l\nTotal 1 suite\n";
    assert_eq!(
        filter_ya_envelope(raw),
        "[fail] x::t [p] (1s)\nx.cc:10: failure\nLogsdir: /l\nTotal 1 suite\n"
    );
}

#[test]
fn compact_block_headline_first_and_never_longer() {
    let block = ["  [fail] a", "junk", "Logsdir: /x", "Logsdir: /y", "Log: /1", "Log: /2"];
    let (out, truncated) = compact_fail_block(&block);
    assert_eq!(out, vec!["  [fail] a", "Logsdir: /x", "Log: /1"]);
    assert!(truncated);
    assert!(out.len() <= block.len());
    let (single, t) = compact_fail_block(&["[fail] only"]);
    assert_eq!(single, vec!["[fail] only"]);
    assert!(!t);
}

#[test]
fn compact_block_given_location_answers_decide() {
    let block = ["[fail] a", "x.py:1 here", "E boom"];
    let (kept, t) = compact_fail_block_given(&block, &[false, true, false]);
    assert_eq!(kept, vec!["[fail] a", "x.py:1 here", "E boom"]);
    assert!(!t);
    let (dropped, t2) = compact_fail_block_given(&block, &[false, false, false]);
    assert_eq!(dropped, vec!["[fail] a", "E boom"]);
    assert!(t2);
}

#[test]
fn sections_split_at_fail_and_boundaries() {
    let raw = "pre 1\n[fail] a\nbody a\n[fail] b\n------ FAIL: 2 - FAIL s\npost\n";
    let (pre, blocks, post) = split_fail_sections(raw);
    assert_eq!(pre, vec!["pre 1"]);
    assert_eq!(blocks, vec![vec!["[fail] a", "body a"], vec!["[fail] b"]]);
    assert_eq!(post, vec!["------ FAIL: 2 - FAIL s", "post"]);
}

#[test]
fn preamble_waits_and_no_fail_exit_is_never_longer() {
    let mut f = test_stream_filter();
    assert_eq!(f.feed_line("------- [TM] {x} s/py3test"), None);
    assert_eq!(f.feed_line("Total 1 suite:"), None);
    assert_eq!(f.flush(), "");
    assert!(f.emitted_so_far().is_empty());
    let raw = "------- [TM] {x} s/py3test\nTotal 1 suite:\n";
    let shown = f.on_exit(0, raw).expect("no fail: filtered at exit");
    assert!(shown.len() <= raw.len());
    assert_eq!(shown, raw);
    assert_eq!(f.emitted_so_far(), shown);
    let mut g = YaTestStreamFilter::default();
    let noisy = "x\n".repeat(3);
    let shown = g.on_exit(1, &noisy).expect("shown");
    assert!(shown.len() <= noisy.len());
}

#[test]
fn stream_overflow_requests_full_headline_tee() {
    let mut raw = String::new();
    for i in 0..(MAX_FAIL_BLOCKS + 2) {
        raw.push_str(&format!("[fail] t{i}\n"));
    }
    let (out, f) = stream_all(&raw);
    assert!(out.ends_with("… +2 more failing tests\n"), "{out}");
    let tee = f.overflow_tee().expect("two hidden blocks");
    assert_eq!(tee.offset, MAX_FAIL_BLOCKS + 1);
    assert_eq!(tee.label, "ya-fails");
    assert_eq!(tee.content.lines().count(), MAX_FAIL_BLOCKS + 2);
    assert_eq!(tee.hint("/tmp/f"), "[see remaining: tail -n +21 /tmp/f]");
}

#[test]
fn stream_dedupes_logsdir_across_blocks() {
    let raw = "[fail] a\nLogsdir: /same\n[fail] b\nLogsdir: /same\n";
    let (out, _) = stream_all(raw);
    assert_eq!(out, "[fail] a\nLogsdir: /same\n[fail] b\n");
}

#[test]
fn py3test_keeps_each_log_and_one_logsdir() {
    let raw = "[fail] a.py::x [p]\nLog: /l/x.log\nLogsdir: /l\n[fail] a.py::y [p]\nLog: /l/y.log\nLogsdir: /l\n";
    let (body, _) = filter_py3test(raw).expect("fails");
    assert_eq!(body.lines().filter(|l| l.starts_with("Log:")).count(), 2);
    assert_eq!(body.lines().filter(|l| l.starts_with("Logsdir:")).count(), 1);
}

#[test]
fn go_filter_shortens_headline_and_log() {
    let raw = "[fail] pkg::TestA [default-linux-x86_64-debug] (1s)\nmain_test.go:3: boom failed\nLog: /a/b/c.log\nLogsdir: /a/b\n";
    let (out, truncated) = filter_go_test(raw);
    assert!(truncated);
    assert_eq!(out, "[fail] pkg::TestA\nmain_test.go:3: boom failed\nLog: …/c.log\nLogsdir: /a/b\n");
}

#[test]
fn ya_routing_law_on_examples() {
    for a in [vec!["test"], vec!["test", "-r", "x"]] {
        let a: Vec<String> = a.iter().map(|s| s.to_string()).collect();
        assert_eq!(classify(&a), YaKind::Test);
        assert_eq!(pipeline(&a), YaPipeline::Filtered { tee: "ya" });
    }
    for a in [vec!["tool", "-t"], vec!["other", "--test"], vec![]] {
        let a: Vec<String> = a.iter().map(|s| s.to_string()).collect();
        assert_eq!(pipeline(&a), YaPipeline::Passthrough);
    }
}

#[test]
fn envelope_strips_ansi_and_blank_gives_empty() {
    assert_eq!(filter_ya_envelope("\u{1b}[1;31m\u{1b}[0m   \n"), "");
    let colored = "\u{1b}[31m[fail] x::t\u{1b}[0m\nLogsdir: /l\n";
    assert_eq!(filter_ya_envelope(colored), "[fail] x::t\nLogsdir: /l\n");
}

#[test]
fn dump_overflow_tee_lists_every_headline() {
    let mut raw = String::from("pre\n");
    for i in 0..(MAX_FAIL_BLOCKS + 3) {
        raw.push_str(&format!("[fail] t{i}   \nbody {i}\n"));
    }
    let tail = dump_overflow_tee(&raw).expect("three hidden blocks");
    assert_eq!(tail.offset, MAX_FAIL_BLOCKS + 1);
    assert_eq!(tail.label, "ya-fails");
    let lines: Vec<&str> = tail.content.lines().collect();
    assert_eq!(lines.len(), MAX_FAIL_BLOCKS + 3);
    assert_eq!(lines[0], "[fail] t0");
    assert_eq!(lines[MAX_FAIL_BLOCKS], format!("[fail] t{}", MAX_FAIL_BLOCKS));
    assert!(dump_overflow_tee("[fail] a\n[fail] b\n").is_none());
    let out = filter_ya_envelope(&raw);
    assert!(out.contains("… +3 more failing tests"), "{out}");
}

#[test]
fn framing_rule_given_the_outcome_match() {
    assert!(keep_framing_line_given("\t84 - GOOD", true));
    assert!(!keep_framing_line_given("\t84 - GOOD", false));
    assert!(keep_framing_line_given("Ok", false));
    assert!(keep_framing_line_given("Total 2 suites", false));
    assert!(!keep_framing_line_given("   ", true));
    assert_eq!(keep_framing_line("\t84 - GOOD", false), keep_framing_line_given("\t84 - GOOD", true));
    assert!(!keep_framing_line("84 GOOD", false));
    assert!(keep_framing_line("12 -\tTIMEOUT", false));
}

#[test]
fn envelope_keeps_logsdir_after_fail_framing() {
    let raw = "[fail] a::t [p] (0.1s)\nE   boom\n------ FAIL: 1 - FAIL s\nLogsdir: /tmp/out\n";
    let out = filter_ya_envelope(raw);
    assert!(out.contains("[fail] a::t"));
    assert!(out.contains("Logsdir: /tmp/out"));
    assert_eq!(out.matches("Logsdir: /tmp/out").count(), 1);
}

#[test]
fn envelope_logsdir_not_repeated() {
    let raw = "[fail] a::t [p] (0.1s)\nLogsdir: /tmp/out\n------ FAIL: 1 - FAIL s\nLogsdir: /tmp/out\n";
    let out = filter_ya_envelope(raw);
    assert_eq!(out.matches("Logsdir: /tmp/out").count(), 1);
}

#[test]
fn overflow_hint_goes_after_overflow_line() {
    let filtered = "[fail] a\n… +2 more failing tests\nTotal 1 suite";
    let out = insert_overflow_hint(filtered, "[see remaining: tail -n +3 /t]");
    assert_eq!(
        out,
        "[fail] a\n… +2 more failing tests\n[see remaining: tail -n +3 /t]\nTotal 1 suite\n"
    );
    assert_eq!(insert_overflow_hint("x\n", "h"), "x\n");
}

#[test]
fn stream_chunks_are_lines_and_exit_defers_to_live_output() {
    let mut f = test_stream_filter();
    let mut chunks = Vec::new();
    for l in ["------- [TM] {x} s", "[fail] a::t [p] (1s)", "E   boom", "------ FAIL: 1 - FAIL s"] {
        if let Some(c) = f.feed_line(l) {
            chunks.push(c);
        }
    }
    chunks.push(f.flush());
    for c in chunks.iter().filter(|c| !c.is_empty()) {
        assert!(c.ends_with('\n'));
    }
    assert!(f.on_exit(1, "raw").is_none());
    let mut g = test_stream_filter();
    assert!(g.feed_line("Total 1 suite").is_none());
    assert_eq!(g.on_exit(0, "Total 1 suite\n"), Some("Total 1 suite\n".to_string()));
}

#[test]
fn stream_shows_logsdir_after_fail_line_once() {
    let mut f = test_stream_filter();
    let mut live = String::new();
    for l in ["[fail] a::t [p] (0.1s)", "E   boom", "------ FAIL: 1 - FAIL s"] {
        if let Some(c) = f.feed_line(l) {
            live.push_str(&c);
        }
    }
    assert_eq!(f.feed_line("Logsdir: /tmp/out"), Some("Logsdir: /tmp/out\n".to_string()));
    assert_eq!(f.feed_line("Logsdir: /tmp/out"), None);
    assert!(live.contains("[fail] a::t"));
    assert!(f.emitted_so_far().contains("Logsdir: /tmp/out"));
}

#[test]
fn test_flag_shape_is_exact() {
    let a = |v: &[&str]| v.iter().map(|s| s.to_string()).collect::<Vec<String>>();
    assert!(ya_filters::envelope::is_test_mode(&a(&["make", "-tttX"])));
    assert!(!ya_filters::envelope::is_test_mode(&a(&["make", "-tXt"])));
    assert!(!ya_filters::envelope::is_test_mode(&a(&["make", "-X"])));
    assert!(!ya_filters::envelope::is_test_mode(&a(&["make", "-t\n"])));
}

#[test]
fn build_stream_error_cap_over_a_run() {
    let mut f = ya_filters::ya_build::build_stream_filter();
    let cap = ya_filters::generic_fail::CAP_ERRORS;
    for k in 1..=cap + 2 {
        let shown = f.feed_line(&format!("ERROR broke {k}"));
        assert_eq!(shown.is_none(), k > cap);
    }
}

#[test]
fn stream_writes_no_full_output_marker_itself() {
    let mut f = test_stream_filter();
    let mut out = String::new();
    for l in ["------- [TM] {x} s", "[fail] a::t [p] (1s)", "E   boom", "------ FAIL: 1 - FAIL s"] {
        if let Some(c) = f.feed_line(l) {
            out.push_str(&c);
        }
    }
    out.push_str(&f.flush());
    assert!(!out.contains("[full output:"));
}
