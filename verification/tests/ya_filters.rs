use ya_filters::detect::{detect_inner_runner, InnerRunner};
use ya_filters::envelope::{filter_ya_envelope, is_test_mode, test_stream_filter};
use ya_filters::framing::{keep_framing_line, keep_postamble_line};
use ya_filters::generic_fail::{
    compact_fail_block, fail_overflow_tee_hint, is_fat_drop_line, slim_line_for_buffer,
    MAX_FAIL_BLOCKS, MAX_LINE_CHARS,
};
use ya_filters::go_test::filter_go_test;
use ya_filters::py3test::{extract_node_id, filter_py3test};
use std::time::Instant;

// ------------------------------------------------------------------ helpers

fn count_tokens(s: &str) -> usize {
    s.split_whitespace().count()
}

fn savings(raw: &str, out: &str) -> f64 {
    let i = count_tokens(raw);
    let o = count_tokens(out);
    if i == 0 {
        return 0.0;
    }
    100.0 * (1.0 - o as f64 / i as f64)
}

fn assert_min_savings(raw: &str, out: &str, min: f64) {
    let s = savings(raw, out);
    assert!(
        s >= min,
        "expected ≥{min}% savings, got {s:.1}% ({} → {} tokens)\n--- out ---\n{out}",
        count_tokens(raw),
        count_tokens(out)
    );
}

fn args(v: &[&str]) -> Vec<String> {
    v.iter().map(|s| s.to_string()).collect()
}

fn strings(v: &[String]) -> Vec<String> {
    v.to_vec()
}

/// Build noise that a `ya make -t` run prints before the suites.
fn build_noise(n: usize) -> String {
    let mut s = String::new();
    for i in 0..n {
        s.push_str(&format!(
            "Ok [{i}/{n}] building pay/lib/module_{i}/py3 PEERDIR contrib/python/package_{i}\n"
        ));
        s.push_str(&format!(
            "------- [PB] proto compiled pay/proto/message_{i}.proto into python module\n"
        ));
    }
    s
}

/// A pytest-under-ya failure block with a fat assertion dump.
fn py_fail_block(node: &str, platform: &str, file: &str, log_dir: &str) -> String {
    let mut s = format!("[fail] {node} [{platform}] (0.14s)\n");
    s.push_str(&format!("{file}:42: in {}\n", node.rsplit("::").next().unwrap()));
    s.push_str("    assert_that(response.json(), equal_to(expected_payload))\n");
    s.push_str("E   AssertionError: \n");
    let mut big = String::from("E   Expected: <{");
    for k in 0..120 {
        big.push_str(&format!("'field_{k}': 'value number {k}', "));
    }
    big.push_str("}>\n");
    s.push_str(&big);
    let mut but = String::from("E        but: was <{");
    for k in 0..120 {
        but.push_str(&format!("'field_{k}': 'other value {k}', "));
    }
    but.push_str("}>\n");
    s.push_str(&but);
    for k in 0..15 {
        s.push_str(&format!(
            "    frame {k}: in handler_call site-packages/library/module_{k}.py line {k} call_next()\n"
        ));
    }
    s.push_str(&format!("Log: {log_dir}/testing_out_stuff/{node}.log\n"));
    s.push_str(&format!("Logsdir: {log_dir}\n"));
    s
}

/// G1: py3test suite with three failing tests and their logs.
fn fixture_py_fail_logsdir() -> String {
    let mut s = build_noise(40);
    s.push_str("------- [TM] {default-darwin-arm64, release} pay/api/tests/py3test\n");
    let dir = "/Users/user/arcadia/pay/api/tests/test-results/py3test";
    for node in [
        "api.handlers.merchant.test_order.py::test_returned_fiscal_contact",
        "api.handlers.merchant.test_order.py::test_returned_split_code",
        "api.handlers.merchant.test_sku.py::test_sku_version_excluded",
    ] {
        s.push_str(&py_fail_block(
            node,
            "default-darwin-arm64-debug",
            "api/handlers/merchant/test_order.py",
            dir,
        ));
    }
    s.push_str("------ FAIL: 3 - FAIL pay/api/tests\n");
    s.push_str("Total 1 suite:\n");
    s.push_str("\t3 - FAIL\n");
    s.push_str("Failed\n");
    s
}

/// G2 / G3: a large py3test chunk with many failing tests.
fn fixture_py_fail_large(n: usize, with_chunk_noise: bool) -> String {
    let mut s = build_noise(60);
    s.push_str("------- [TM] {default-linux-x86_64, release} pay/plus/tests/py3test\n");
    let dir = "/home/user/arcadia/pay/plus/tests/test-results/py3test/chunk1";
    for i in 0..n {
        if with_chunk_noise && i % 5 == 0 {
            s.push_str(&build_noise(4));
        }
        let node = format!("plus.tests.test_cashback.py::test_cashback_case_{i}");
        s.push_str(&py_fail_block(&node, "default-linux-x86_64-debug", "plus/tests/test_cashback.py", dir));
    }
    s.push_str(&format!("------ FAIL: {n} - FAIL pay/plus/tests chunk ran {n} tests\n"));
    s.push_str("Total 1 suite:\n");
    s.push_str(&format!("\t{n} - FAIL\n"));
    s
}

/// G4: a py3test run that passes, with warning spam.
fn fixture_py_pass_or_mixed() -> String {
    let mut s = build_noise(30);
    s.push_str("------- [TM] {default-darwin-arm64, release} pay/admin/tests/py3test\n");
    for i in 0..40 {
        s.push_str(&format!(
            "site-packages/library/compat_{i}.py:12: DeprecationWarning: the legacy helper number {i} is deprecated and will be removed soon\n"
        ));
        s.push_str("  warnings.warn(message, DeprecationWarning, stacklevel=2)\n");
    }
    s.push_str("------ sole chunk ran 84 tests (total:12.5s)\n");
    s.push_str("Total 1 suite:\n");
    s.push_str("\t84 - GOOD\n");
    s.push_str("Ok\n");
    s
}

fn go_fail_block(name: &str, dir: &str) -> String {
    let mut s = format!("[fail] component::{name} [default-linux-x86_64-debug] (1.52s)\n");
    s.push_str("main_test.go:31: non-zero status returned by the merchant loader\n");
    s.push_str("    Error Trace:	/home/user/arcadia/receiptron/component/main_test.go:31\n");
    for k in 0..25 {
        s.push_str(&format!(
            "        ydb/driver/conn.go:{k}: dial tcp [::1]:2135: connect: connection refused while retrying attempt {k} of the pool\n"
        ));
    }
    s.push_str(&format!("Log: {dir}/{name}.log\n"));
    s.push_str(&format!("Logsdir: {dir}\n"));
    s
}

/// G5: go_test suite with two failing tests.
fn fixture_go_fail_logsdir_chunk() -> String {
    let mut s = String::new();
    for i in 0..20 {
        s.push_str(&format!("Ok [{i}/20] building receiptron/component/lib_{i} with GO_LIBRARY rules\n"));
    }
    s.push_str("------- [TM] {default-linux-x86_64, release} receiptron/component <go_test>\n");
    let dir = "/home/user/arcadia/receiptron/component/test-results/go_test/chunk0";
    s.push_str(&go_fail_block("TestFeatures", dir));
    s.push_str(&go_fail_block("TestFeatures/Загрузка_мерчанта", dir));
    s.push_str("------ FAIL: 2 - FAIL receiptron/component chunk ran 2 tests\n");
    s.push_str("Total 1 suite:\n");
    s.push_str("\t2 - FAIL\n");
    s
}

/// G6: go_test build errors, warnings and shell chrome, no failing test.
fn fixture_go_other() -> String {
    let mut s = String::from("➜  receiptron git:(trunk) ya make -tt\n");
    for i in 0..30 {
        s.push_str(&format!(
            "Warn[-WBadIncl]: {{default-linux-x86_64}} $S/receiptron/lib_{i}/ya.make:3:0: BUILD_ONLY_IF is deprecated here, move the condition into the RECURSE block\n"
        ));
        s.push_str(&format!(
            "Configuring dependencies for platform default-linux-x86_64 target receiptron/lib_{i} go_test\n"
        ));
    }
    s.push_str("Error[-WSyntax]: {default-linux-x86_64} $S/receiptron/ya.make:12:0: unexpected command GO_LIBRARY in SRCS. Only macros are allowed here\n");
    s.push_str("Error[-WBadFile]: {default-linux-x86_64} $S/receiptron/ya.make:14:0: cannot find source file: root.go\n");
    s.push_str("Failed\n");
    s
}

/// A `ya make -tt` go failure dump with testify names.
fn fixture_tt_go_fail() -> String {
    let mut s = String::from("------- [TM] {default-linux-x86_64, release} fes/sender <go_test>\n");
    let dir = "/home/user/arcadia/fes/sender/test-results/go_test/chunk0";
    for name in ["TestSendFESJobBatchAction_V12", "TestSendFESJobBatchAction_V13"] {
        s.push_str(&go_fail_block(name, dir));
    }
    s.push_str("------ FAIL: 2 - FAIL fes/sender\n");
    s
}

/// G8: compile failure under `ya make -t` with no known inner runner.
fn fixture_unk_fail() -> String {
    let mut s = String::new();
    for i in 0..30 {
        s.push_str(&format!(
            "command (pid: {i}) /opt/toolchain/bin/clang++ -c -o $B/lib/obj_{i}.o -I$S/include -O2 -fPIC $S/lib/src_{i}.cpp\n"
        ));
    }
    s.push_str("BUILD ERRORS: 1 target failed\n");
    s.push_str("Failed\n");
    s
}

/// G10: a `-ttX` verbose py3test dump.
fn fixture_ttx_py_fail() -> String {
    let mut s = build_noise(30);
    s.push_str("------- [TM] {default-darwin-arm64, release} pay/render/tests/py3test\n");
    let dir = "/Users/user/arcadia/pay/render/tests/test-results/py3test/chunk2";
    for node in [
        "render.tests.test_order.py::TestRenderOrder::test_response",
        "render.tests.test_order.py::TestRenderOrder::test_response_empty",
    ] {
        s.push_str(&py_fail_block(node, "default-darwin-arm64-debug", "render/tests/test_order.py", dir));
    }
    s.push_str("------ FAIL: 2 - FAIL pay/render/tests\n");
    s
}

fn filter_via_stream(raw: &str) -> String {
    let mut filter = test_stream_filter();
    let mut out = String::new();
    for line in raw.lines() {
        if let Some(chunk) = filter.feed_line(line) {
            out.push_str(&chunk);
        }
    }
    out.push_str(&filter.flush());
    if let Some(tail) = filter.on_exit(0, raw) {
        out.push_str(&tail);
    }
    out
}

// ------------------------------------------------------------------ generic_fail

#[test]
fn compact_keeps_headline_location_e_logsdir() {
    let block = [
        "[fail] mod::test_x [default-darwin-arm64-debug] (0.1s)",
        "path/to/test.py:10: in test_x",
        "    assert_that(a, equal_to(b))",
        "E   AssertionError: ",
        "E   Expected: <{'huge': 'blob'}>",
        "E        but: was <{'other': 1}>",
        "Log: /tmp/test.log",
        "Logsdir: /tmp/out",
    ];
    let refs: Vec<&str> = block.to_vec();
    let (out, truncated) = compact_fail_block(&refs);
    assert!(truncated);
    let joined = out.join("\n");
    assert!(joined.contains("[fail] mod::test_x"));
    assert!(joined.contains("test.py:10"));
    assert!(joined.contains("E   AssertionError"));
    assert!(!joined.contains("Expected:"));
    assert!(joined.contains("Logsdir:"));
    assert!(joined.contains("Log:"));
}

#[test]
fn fat_drop_line_targets_expected_and_progress() {
    assert!(is_fat_drop_line("E   Expected: <huge>"));
    assert!(is_fat_drop_line("E        but: was <x>"));
    assert!(is_fat_drop_line("Ok [12/100] building"));
    assert!(is_fat_drop_line("------- [PB] proto.spam"));
    assert!(!is_fat_drop_line("Logsdir: /tmp/out"));
    assert!(!is_fat_drop_line("[fail] mod::t [default-linux-x86_64-debug] (0.1s)"));
    assert!(!is_fat_drop_line("Log: /tmp/t.log"));
    let fat_e = format!("E   AssertionError: {}", "x".repeat(2_500));
    assert!(!is_fat_drop_line(&fat_e));
    let slimmed = slim_line_for_buffer(&fat_e);
    assert!(slimmed.chars().count() <= MAX_LINE_CHARS);
    assert!(slimmed.starts_with("E   AssertionError"));
    let spam = format!("stack frame junk {}", "y".repeat(2_500));
    assert!(is_fat_drop_line(&spam));
}

#[test]
fn fail_overflow_tee_uses_full_list_offset() {
    let headlines = ["[fail] t0", "[fail] t1", "[fail] t2", "[fail] t3", "[fail] t4"];
    assert!(fail_overflow_tee_hint(&headlines, headlines.len()).is_none());
    if let Some(tail) = fail_overflow_tee_hint(&headlines, 3) {
        let hint = tail.hint("/tmp/ya-fails.log");
        assert!(hint.contains("tail -n +4"), "offset must be shown+1 on full list, got {hint}");
        assert!(hint.contains("[see remaining:"));
    }
}

#[test]
fn compact_preserves_linux_platform_in_headline() {
    let block = [
        "[fail] mod::test_x [default-linux-x86_64-debug] (0.1s)",
        "path.py:10: in test_x",
        "E   AssertionError: boom",
        "Logsdir: /tmp/out",
    ];
    let refs: Vec<&str> = block.to_vec();
    let (out, _) = compact_fail_block(&refs);
    let joined = out.join("\n");
    assert!(joined.contains("default-linux-x86_64-debug"));
    assert!(joined.contains("Logsdir:"));
}

// ------------------------------------------------------------------ go_test

#[test]
fn g5_go_fail_keeps_headlines_logsdir_and_saves() {
    let raw = fixture_go_fail_logsdir_chunk();
    assert_eq!(detect_inner_runner(&raw), InnerRunner::GoTest);
    let (out, truncated) = filter_go_test(&raw);
    assert!(truncated, "fail bodies should be truncated");
    assert!(out.contains("[fail] component::TestFeatures"), "headline\n{out}");
    assert!(
        out.contains("TestFeatures/Загрузка_мерчанта") || out.contains("Загрузка_мерчанта"),
        "second fail\n{out}"
    );
    assert!(out.contains("Logsdir:"), "Logsdir\n{out}");
    assert!(out.contains("Log:"), "Log:\n{out}");
    assert!(
        out.contains("main_test.go:31") || out.contains("non-zero status"),
        "location/error head\n{out}"
    );
    assert!(savings(&raw, &out) >= 60.0, "savings {:.1}%\n{out}", savings(&raw, &out));
}

#[test]
fn g6_go_other_keeps_errors_drops_warn_spam() {
    let raw = fixture_go_other();
    assert_eq!(detect_inner_runner(&raw), InnerRunner::GoTest);
    let (out, _) = filter_go_test(&raw);
    assert!(
        out.contains("Error[-WSyntax]") || out.contains("unexpected command"),
        "must keep real errors\n{out}"
    );
    assert!(
        out.contains("GO_LIBRARY") || out.contains("root.go") || out.contains("SRCS"),
        "actionable path/command\n{out}"
    );
    assert!(!out.contains("BUILD_ONLY_IF"), "Warn BUILD_ONLY_IF should drop\n{out}");
    assert!(!out.contains('➜'), "shell chrome should drop\n{out}");
    assert!(savings(&raw, &out) >= 60.0, "savings {:.1}%\n{out}", savings(&raw, &out));
}

#[test]
fn tt_go_fail_keeps_test_names_and_logsdir() {
    let raw = fixture_tt_go_fail();
    assert_eq!(detect_inner_runner(&raw), InnerRunner::GoTest);
    let (out, _) = filter_go_test(&raw);
    assert!(out.contains("TestSendFESJobBatchAction_V12"));
    assert!(out.contains("Logsdir:"));
    let fail_n = out.lines().filter(|l| l.trim_start().starts_with("[fail]")).count();
    let log_n = out.lines().filter(|l| l.trim_start().starts_with("Log:")).count();
    assert_eq!(log_n, fail_n, "S0-T5: one Log: per [fail] block\n{out}");
    assert!(savings(&raw, &out) >= 60.0, "savings {:.1}%", savings(&raw, &out));
}

#[test]
fn go_test_g5_locked_shape() {
    let raw = fixture_go_fail_logsdir_chunk();
    let (out, _) = filter_go_test(&raw);
    assert!(out.contains("<go_test>") || out.contains("chunk"));
    assert_eq!(out.lines().filter(|l| l.trim_start().starts_with("[fail]")).count(), 2);
    assert!(out.contains("------ FAIL") || out.contains("FAIL"));
    let logsdirs = out.lines().filter(|l| l.trim_start().starts_with("Logsdir:")).count();
    assert!(logsdirs >= 1);
    let log_n = out.lines().filter(|l| l.trim_start().starts_with("Log:")).count();
    assert_eq!(log_n, 2, "one Log: per fail block\n{out}");
}

// ------------------------------------------------------------------ py3test

#[test]
fn extract_node_id_from_headline() {
    let h = "[fail] api.handlers.merchant.test_order.py::test_returned_fiscal_contact [default-darwin-arm64-debug] (0.14s)";
    assert_eq!(
        extract_node_id(h),
        "api.handlers.merchant.test_order.py::test_returned_fiscal_contact"
    );
}

#[test]
fn extract_node_id_linux_platform_variant() {
    let h = "[fail] pkg.test_mod.py::test_x [default-linux-x86_64-release] (0.02s)";
    assert_eq!(extract_node_id(h), "pkg.test_mod.py::test_x");
    let arm = "[fail] pkg::TestFoo [default-linux-arm64-debug] (1.0s)";
    assert_eq!(extract_node_id(arm), "pkg::TestFoo");
}

#[test]
fn g1_reuses_pytest_keeps_node_ids_and_logsdir() {
    let raw = fixture_py_fail_logsdir();
    let (out, _) = filter_py3test(&raw).expect("G1 has fails");
    assert!(out.contains("test_returned_fiscal_contact"), "node id must survive pytest compression\n{out}");
    assert!(out.contains("Logsdir:"), "Logsdir must remain\n{out}");
    assert!(out.contains("Log:"), "Log: path must remain\n{out}");
    assert!(out.contains("[FAIL]") || out.contains("failed"), "failure signal expected\n{out}");
    assert!(savings(&raw, &out) >= 60.0, "savings {:.1}%\n{out}", savings(&raw, &out));
}

#[test]
fn g3_large_chunk_savings_and_ids() {
    let raw = fixture_py_fail_large(9, true);
    let (out, _) = filter_py3test(&raw).expect("G3 has fails");
    assert!(out.contains("[FAIL]") || out.contains("failed"));
    assert!(out.contains("Logsdir:"));
    assert!(savings(&raw, &out) >= 60.0);
}

#[test]
fn no_fails_returns_none() {
    let raw = fixture_py_pass_or_mixed();
    assert!(filter_py3test(&raw).is_none());
}

// ------------------------------------------------------------------ detect

#[test]
fn detects_py_fail_fixture() {
    assert_eq!(detect_inner_runner(&fixture_py_fail_logsdir()), InnerRunner::Py3test);
}

#[test]
fn detects_py_pass_mixed() {
    assert_eq!(detect_inner_runner(&fixture_py_pass_or_mixed()), InnerRunner::Py3test);
}

#[test]
fn detects_go_fail_fixture() {
    assert_eq!(detect_inner_runner(&fixture_go_fail_logsdir_chunk()), InnerRunner::GoTest);
}

#[test]
fn detects_unk_fail_as_unknown() {
    assert_eq!(detect_inner_runner(&fixture_unk_fail()), InnerRunner::Unknown);
}

#[test]
fn empty_is_unknown() {
    assert_eq!(detect_inner_runner(""), InnerRunner::Unknown);
    assert_eq!(detect_inner_runner("hello world\n"), InnerRunner::Unknown);
}

// ------------------------------------------------------------------ framing

#[test]
fn keeps_tm_header_despite_dash_prefix() {
    let line = "------- [TM] {default-darwin-arm64, release} path/py3test";
    assert!(keep_framing_line(line, false));
}

#[test]
fn keeps_tm_header_linux_platform_variant() {
    let line = "------- [TM] {default-linux-x86_64, release} path/py3test";
    assert!(keep_framing_line(line, false));
    let arm = "------- [TM] {default-linux-arm64, debug} path/gotest";
    assert!(keep_framing_line(arm, false));
}

#[test]
fn keeps_chunk_fail_summary() {
    assert!(keep_framing_line("------ FAIL: 2 - FAIL pay/receiptron/tests", true));
    assert!(keep_framing_line("------ sole chunk ran 2 tests (total:1s)", true));
}

#[test]
fn drops_plain_separator() {
    assert!(!keep_framing_line("------", false));
}

#[test]
fn keeps_tab_indented_good_outcomes() {
    assert!(keep_framing_line("\t84 - GOOD", false));
    assert!(keep_framing_line("\t255 - GOOD", false));
    assert!(keep_framing_line("        3 - FAIL", true));
    assert!(keep_framing_line("\t1 - SKIP", false));
    assert!(keep_framing_line("Ok", false));
    assert!(!keep_framing_line("GOOD vibes only", false));
}

#[test]
fn postamble_keeps_log_and_logsdir() {
    assert!(keep_postamble_line("Log: /tmp/t.log", true));
    assert!(keep_postamble_line("Logsdir: /tmp/out", true));
    assert!(keep_postamble_line("------ FAIL: 1 - FAIL suite", true));
    assert!(!keep_postamble_line("E   Expected: <spam>", true));
    assert!(!keep_framing_line("Log: /tmp/t.log", true));
}

// ------------------------------------------------------------------ envelope

#[test]
fn test_mode_flags() {
    assert!(is_test_mode(&args(&["make", "-t", "path"])));
    assert!(is_test_mode(&args(&["make", "-tt"])));
    assert!(is_test_mode(&args(&["make", "-ttX"])));
    assert!(is_test_mode(&args(&["make", "--test"])));
    assert!(is_test_mode(&args(&["test", "-r"])));
    assert!(!is_test_mode(&args(&["make", "python", "-r"])));
    assert!(!is_test_mode(&args(&["tool", "dump"])));
}

#[test]
fn empty_and_malformed_never_panic() {
    assert_eq!(filter_ya_envelope(""), "");
    let out = filter_ya_envelope("not valid ya output\nrandom text\n");
    let _ = out;
}

#[test]
fn g1_py_fail_keeps_fail_logsdir_and_saves() {
    let raw = fixture_py_fail_logsdir();
    let out = filter_ya_envelope(&raw);
    assert!(out.contains("test_returned_fiscal_contact"), "must keep node id");
    assert!(out.contains("Logsdir:"), "must keep Logsdir");
    assert!(out.contains("[FAIL]") || out.contains("failed"), "failure signal\n{out}");
    assert_min_savings(&raw, &out, 60.0);
}

#[test]
fn g5_go_fail_keeps_fail_logsdir_and_saves() {
    let raw = fixture_go_fail_logsdir_chunk();
    let out = filter_ya_envelope(&raw);
    assert!(out.contains("[fail]"));
    assert!(out.contains("Logsdir:"));
    assert!(out.contains("FAIL") || out.contains("chunk"));
    assert_min_savings(&raw, &out, 60.0);
}

#[test]
fn g2_large_slice_savings() {
    let raw = fixture_py_fail_large(14, false);
    let out = filter_ya_envelope(&raw);
    assert!(out.contains("[FAIL]") || out.contains("failed"), "expected failure signal\n{out}");
    assert_min_savings(&raw, &out, 60.0);
}

#[test]
fn g3_large_chunk_keeps_logsdir() {
    let raw = fixture_py_fail_large(9, true);
    let out = filter_ya_envelope(&raw);
    assert!(out.contains("[FAIL]") || out.contains("failed"));
    assert!(out.contains("Logsdir:"));
    assert_min_savings(&raw, &out, 60.0);
}

#[test]
fn g8_unk_fail_keeps_signal() {
    let raw = fixture_unk_fail();
    let out = filter_ya_envelope(&raw);
    assert!(
        out.contains("FAILED") || out.contains("Failed") || out.contains("BUILD ERRORS"),
        "out={out}"
    );
    assert_min_savings(&raw, &out, 60.0);
}

#[test]
fn g10_ttx_fail_extracts_fails() {
    let raw = fixture_ttx_py_fail();
    assert!(is_test_mode(&args(&["make", "-ttX"])), "-ttX must select test-mode filter");
    let out = filter_ya_envelope(&raw);
    assert!(
        out.contains("test_response") || out.contains("TestRenderOrder"),
        "must keep failed node id\n{out}"
    );
    assert!(out.contains("[FAIL]") || out.contains("failed") || out.contains("[fail]"));
    assert!(out.contains("Logsdir:"));
    assert_min_savings(&raw, &out, 60.0);
}

#[test]
fn g1_locked_shape() {
    let raw = fixture_py_fail_logsdir();
    let out = filter_ya_envelope(&raw);
    assert!(out.contains("test_returned_fiscal_contact"));
    assert!(out.contains("test_returned_split_code"));
    assert!(out.contains("test_sku_version_excluded"));
    let mut logsdirs = 0;
    for line in out.lines() {
        if line.starts_with("Logsdir:") {
            logsdirs += 1;
        }
    }
    assert!(logsdirs >= 1, "at least one Logsdir retained");
}

#[test]
fn g4_pass_mixed_savings() {
    let raw = fixture_py_pass_or_mixed();
    assert_eq!(detect_inner_runner(&raw), InnerRunner::Py3test);
    let out = filter_ya_envelope(&raw);
    assert!(
        out.contains("[TM]") || out.contains("py3test") || out.contains("Total "),
        "expected framing\n{out}"
    );
    assert_min_savings(&raw, &out, 40.0);
}

#[test]
fn envelope_g5_locked_shape() {
    let raw = fixture_go_fail_logsdir_chunk();
    let out = filter_ya_envelope(&raw);
    assert!(out.contains("<go_test>") || out.contains("chunk"));
    assert_eq!(out.lines().filter(|l| l.starts_with("[fail]")).count(), 2);
    assert!(out.contains("------ FAIL") || out.contains("FAIL"));
}

#[test]
fn g6_go_other_via_envelope() {
    let raw = fixture_go_other();
    assert_eq!(detect_inner_runner(&raw), InnerRunner::GoTest);
    let out = filter_ya_envelope(&raw);
    assert!(out.contains("Error[-WSyntax]") || out.contains("unexpected command"), "out={out}");
    assert!(!out.contains("BUILD_ONLY_IF"));
    assert_min_savings(&raw, &out, 60.0);
}

// ------------------------------------------------------------------ stream

#[test]
fn stream_filter_g1_keeps_logsdir_and_saves() {
    let raw = fixture_py_fail_logsdir();
    let out = filter_via_stream(&raw);
    assert!(out.contains("test_returned_fiscal_contact"), "node id\n{out}");
    assert!(out.contains("Logsdir:"), "Logsdir\n{out}");
    assert!(out.contains("Log:"), "Log:\n{out}");
    assert_min_savings(&raw, &out, 60.0);
}

#[test]
fn stream_filter_emits_fail_block_before_flush() {
    let mut filter = test_stream_filter();
    let _ = filter.feed_line("------- [TM] {default-linux-x86_64, release} suite/py3test");
    assert!(filter.emitted_so_far().is_empty(), "preamble must wait for first [fail]");
    let _ = filter.feed_line("[fail] mod::test_a [default-linux-x86_64-debug] (0.1s)");
    let _ = filter.feed_line("path.py:1: in test_a");
    let _ = filter.feed_line("E   AssertionError");
    let _ = filter.feed_line("Logsdir: /tmp/out");
    let chunk = filter.feed_line("------ FAIL: 1 - FAIL suite");
    assert!(chunk.is_some(), "fail block must emit on boundary before flush");
    let live = chunk.unwrap();
    assert!(live.contains("[fail] mod::test_a") || live.contains("test_a"));
    assert!(live.contains("Logsdir:"));
    assert!(filter.emitted_so_far().contains("Logsdir:"), "live path must have emitted before flush");
}

#[test]
fn stream_filter_drops_fat_expected_live() {
    let mut filter = test_stream_filter();
    let lines = [
        "[fail] mod::test_x [default-darwin-arm64-debug] (0.1s)",
        "path.py:10: in test_x",
        "E   AssertionError: boom",
        "E   Expected: <{'huge': 'blob'}>",
        "E        but: was <{'other': 1}>",
        "Log: /tmp/test.log",
        "Logsdir: /tmp/out",
        "------ FAIL: 1 - FAIL suite",
    ];
    let mut out = String::new();
    for line in lines {
        if let Some(chunk) = filter.feed_line(line) {
            out.push_str(&chunk);
        }
    }
    out.push_str(&filter.flush());
    assert!(filter.did_drop_fat(), "Expected/but must be dropped");
    assert!(out.contains("Logsdir:"));
    assert!(out.contains("test_x") || out.contains("[fail]"));
    assert!(!out.contains("Expected:"));
    assert!(!out.contains("[full output:"), "no in-filter full-raw tee");
}

#[test]
fn logsdir_never_stripped_on_fail_goldens() {
    let fixtures = [
        fixture_py_fail_logsdir(),
        fixture_py_fail_large(9, true),
        fixture_py_fail_large(14, false),
        fixture_go_fail_logsdir_chunk(),
        fixture_ttx_py_fail(),
    ];
    for raw in strings(&fixtures) {
        assert!(raw.contains("Logsdir:"), "fixture must contain Logsdir for this audit");
        let out = filter_via_stream(&raw);
        assert!(
            out.contains("Logsdir:"),
            "Logsdir must survive stream filter\n--- out (truncated) ---\n{}",
            out.chars().take(800).collect::<String>()
        );
        if raw.lines().any(|l| l.trim_start().starts_with("Log:")) {
            assert!(out.contains("Log:"), "Log: paths must survive stream filter when present in raw");
        }
    }
}

#[test]
fn capped_fail_list_emits_overflow_summary() {
    let mut raw = String::from("------- [TM] {default-linux-x86_64, release} suite/py3test\n");
    for i in 0..(MAX_FAIL_BLOCKS + 5) {
        raw.push_str(&format!("[fail] mod::test_{i} [default-linux-x86_64-debug] (0.01s)\n"));
        raw.push_str("path.py:1: in test\n");
        raw.push_str("E   AssertionError\n");
        raw.push_str("Log: /tmp/t.log\n");
        raw.push_str("Logsdir: /tmp/out\n");
    }
    raw.push_str("Total 1 suite: 25 FAIL\n");
    let out = filter_via_stream(&raw);
    assert!(out.contains("more failing tests"), "overflow must be explicit\n{out}");
    assert!(out.contains("Logsdir:"));
    let fail_headlines = out.lines().filter(|l| l.trim_start().starts_with("[fail]")).count();
    assert_eq!(fail_headlines, MAX_FAIL_BLOCKS, "stream must keep exactly CAP fails\n{out}");
    if let Some(hint_line) = out.lines().find(|l| l.contains("[see remaining:")) {
        assert!(
            hint_line.contains(&format!("tail -n +{}", MAX_FAIL_BLOCKS + 1)),
            "overflow tee offset must be shown+1 on full list: {hint_line}"
        );
    }
}

#[test]
fn linux_platform_fail_headline_retained() {
    let raw = "\
------- [TM] {default-linux-x86_64, release} pay/lib/py3test
[fail] api.test_order.py::test_sku [default-linux-x86_64-debug] (0.14s)
api/test_order.py:10: in test_sku
E   AssertionError: boom
Log: /tmp/test.log
Logsdir: /tmp/test-results/py3test
Total 1 suite: 1 FAIL
";
    let out = filter_via_stream(raw);
    assert!(out.contains("test_sku"), "linux-tagged node id must remain\n{out}");
    assert!(out.contains("Logsdir:"));
}

#[test]
fn large_fixture_filter_perf_smoke() {
    let raw = fixture_py_fail_large(14, false);
    let start = Instant::now();
    const ITERS: u32 = 20;
    for _ in 0..ITERS {
        let out = filter_via_stream(&raw);
        assert!(out.contains("Logsdir:") || out.contains("[fail]") || out.contains("failed"));
    }
    let elapsed = start.elapsed();
    assert!(elapsed.as_millis() < 2_000, "{ITERS}× large stream filter took {elapsed:?} (budget 2s)");
}

#[test]
fn large_fixture_stream_filter_perf_smoke() {
    let raw = fixture_py_fail_large(14, false);
    let start = Instant::now();
    let out = filter_via_stream(&raw);
    let elapsed = start.elapsed();
    assert!(out.contains("Logsdir:") || out.contains("[fail]") || out.contains("failed"));
    assert!(elapsed.as_millis() < 500, "stream filter on large fixture took {elapsed:?}");
}

#[test]
fn fuzz_binary_noise_and_nul_never_panic() {
    let mut s = String::from("------- [TM] noise/py3test\n");
    s.push('\0');
    s.push_str("[fail] t::x [default-linux-arm64-debug] (0.1s)\n");
    s.push_str(&String::from_utf8_lossy(&[0xff, 0xfe, 0x00, 0x01]));
    s.push('\n');
    s.push_str("Logsdir: /tmp/out\n");
    let _ = filter_ya_envelope(&s);
    let _ = filter_via_stream(&s);
    let _ = filter_ya_envelope("\0\0\0");
    let _ = filter_via_stream("");
}

#[test]
fn fuzz_truncated_mid_fail_keeps_headline() {
    let raw = "\
[fail] mod::test_partial [default-darwin-arm64-debug] (0.1s)
path.py:10: in test_partial
E   AssertionError: cut off mid
";
    let out = filter_via_stream(raw);
    assert!(out.contains("test_partial") || out.contains("[fail]"), "truncated fail must not lose node id\n{out}");
    assert!(!out.contains("Logsdir:") || raw.contains("Logsdir:"));
}

#[test]
fn fuzz_truncated_after_logsdir_keeps_path() {
    let raw = "\
[fail] mod::test_y [default-linux-x86_64-debug] (0.1s)
path.py:1: in test_y
E   AssertionError
Logsdir: /tmp/results/py3test
";
    let out = filter_via_stream(raw);
    assert!(out.contains("Logsdir:"));
    assert!(out.contains("test_y") || out.contains("[fail]"));
}

#[test]
fn stream_filter_no_double_full_tee_hint() {
    let raw = fixture_py_fail_logsdir();
    let out = filter_via_stream(&raw);
    assert!(!out.contains("[full output:"), "in-filter must not force_tee_hint full raw\n{out}");
}
