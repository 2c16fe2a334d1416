use ya_filters::generic_fail::CAP_ERRORS;
use ya_filters::ya_build::{build_stream_filter, filter_ya_build, is_build_mode, YaBuildHandler};
use ya_filters::ya_cmd::{classify, pipeline, YaKind, YaPipeline};

fn count_tokens(s: &str) -> usize {
    s.split_whitespace().count()
}

fn savings(raw: &str, out: &str) -> f64 {
    let i = count_tokens(raw);
    let o = count_tokens(out);
    if i == 0 {
        return 0.0;
    }
    100.0 * (1.0 - o as f64 / i as f64)
}

fn error_line_count(out: &str) -> usize {
    out.lines().filter(|l| l.trim_start().starts_with("ERROR ")).count()
}

fn args(v: &[&str]) -> Vec<String> {
    v.iter().map(|s| s.to_string()).collect()
}

/// G7: `ya make python -r` with proto spam, progress, hot-settings warnings
/// and a pytest error summary over the cap.
fn fixture_build_large_proto() -> String {
    let mut s = String::new();
    for i in 0..80 {
        s.push_str(&format!(
            "------- [PB] {{default-darwin-arm64, release}} yandex_pay_plus/proto/msg_{i}.proto generated python stubs\n"
        ));
        s.push_str(&format!(
            "yandex_pay_plus/proto/msg_{i}.proto: warning: Import google/protobuf/timestamp.proto is unused in this file\n"
        ));
        s.push_str(&format!("Ok [{i}/80] building yandex_pay_plus/lib_{i} python module\n"));
        s.push_str("Unexpected getting uninitialized hot settings for key plus.cashback.limits, using defaults\n");
    }
    for i in 0..26 {
        s.push_str(&format!(
            "ERROR yandex_pay_plus/tests/test_api_{i}.py::test_case_{i} - OperationalError: Connection refused\n"
        ));
    }
    s.push_str("=========== 26 errors in 12.34s ===========\n");
    s.push_str("make: *** [all] Error 1\n");
    s
}

/// A pure compile failure under `ya make -r`.
fn fixture_unk_build_fail() -> String {
    let mut s = String::new();
    for i in 0..25 {
        s.push_str(&format!(
            "command (pid: {i}) /opt/go/pkg/tool/compile -o $B/receiptron/lib_{i}.a -trimpath $S -p receiptron/lib_{i} -complete -buildid abc{i}\n"
        ));
        s.push_str(&format!("Ok [{i}/25] receiptron/lib_{i}\n"));
    }
    s.push_str("receiptron/cmd/main.go:17:5: could not import receiptron/internal/config (missing package)\n");
    s.push_str("------- [GO] {default-linux-x86_64, release} $(B)/receiptron/cmd/cmd FAILED\n");
    s.push_str("Failed\n");
    s
}

// ------------------------------------------------------------------ ya_build

#[test]
fn build_mode_detect() {
    assert!(is_build_mode(&args(&["make", "python", "-r"])));
    assert!(!is_build_mode(&args(&["make", "-t", "path"])));
    assert!(!is_build_mode(&args(&["make", "-ttX"])));
    assert!(!is_build_mode(&args(&["test", "-r"])));
    assert!(!is_build_mode(&args(&["tool", "dump"])));
}

#[test]
fn g7_build_proto_saves_and_keeps_errors() {
    let raw = fixture_build_large_proto();
    let out = filter_ya_build(&raw);
    assert!(out.contains("ERROR ") || out.contains("errors in"), "must keep failure signal\n{out}");
    assert!(
        out.contains("make:") || out.contains("Error 1") || out.contains("26 errors"),
        "must keep final outcome\n{out}"
    );
    assert!(!out.contains("------- [PB]"), "[PB] spam must drop\n{out}");
    assert!(
        !out.contains("Unexpected getting uninitialized hot settings"),
        "hot settings spam must drop\n{out}"
    );
    assert!(
        !out.contains("[full output:") && !out.contains("[see remaining:"),
        "filter must not embed tee hints\n{out}"
    );
    assert!(savings(&raw, &out) >= 60.0, "savings {:.1}%\n{out}", savings(&raw, &out));
}

#[test]
fn g7_caps_error_lines_with_overflow_summary() {
    let raw = fixture_build_large_proto();
    let raw_errors = raw.lines().filter(|l| l.trim_start().starts_with("ERROR ")).count();
    assert!(raw_errors > CAP_ERRORS, "fixture must exercise the cap");
    let out = filter_ya_build(&raw);
    assert_eq!(error_line_count(&out), CAP_ERRORS, "kept ERROR lines must equal CAP_ERRORS\n{out}");
    assert!(out.contains("more ERROR lines"), "overflow must be summarized, not silent\n{out}");
    assert!(out.contains("26 errors") || out.contains("errors in"));
}

#[test]
fn compile_fail_keeps_go_failed_and_import_error() {
    let raw = fixture_unk_build_fail();
    assert!(is_build_mode(&args(&["make", "-r"])));
    let out = filter_ya_build(&raw);
    assert!(out.contains("[GO]") && out.contains("FAILED"), "must keep [GO] FAILED\n{out}");
    assert!(
        out.contains("could not import") || out.contains("main.go:"),
        "must keep compile diagnostic\n{out}"
    );
    assert!(out.contains("Failed"), "must keep Failed outcome\n{out}");
    assert!(!out.contains("command (pid:"), "tool argv noise should drop\n{out}");
    assert!(
        savings(&raw, &out) >= 40.0,
        "compile-fail should still compress (got {:.1}%)\n{out}",
        savings(&raw, &out)
    );
}

#[test]
fn g7_locked_shape() {
    let raw = fixture_build_large_proto();
    let out = filter_ya_build(&raw);
    assert!(
        out.contains("proto import noise suppressed") || out.contains("[PB]"),
        "PB suppression summary\n{out}"
    );
    assert!(out.contains("ERROR yandex_pay_plus") || out.contains("ERROR "));
    assert!(out.contains("26 errors") || out.contains("errors in"));
    assert!(out.contains("make:"));
    assert!(!out.lines().any(|l| l.trim_start().starts_with("------- [PB]")));
}

#[test]
fn build_summary_counts_each_kind_of_noise() {
    let mut h = YaBuildHandler::default();
    assert!(h.should_skip("------- [PB] proto spam"));
    assert!(h.should_skip("Ok [1/2] building"));
    assert!(h.should_skip("Ok"));
    assert!(h.should_skip("Unexpected getting uninitialized hot settings x"));
    assert!(h.should_skip("lib.py:3: UserWarning: old"));
    assert!(!h.should_skip("make: *** [all] Error 1"));
    assert!(h.should_skip("OperationalError: Connection refused"));
    assert!(h.should_skip(""));
    let summary = h.format_summary(1, "").expect("noise was counted");
    assert_eq!(
        summary,
        "… 1× [PB]/proto import noise suppressed\n\
         … 2× Ok progress suppressed\n\
         … 1× uninitialized hot settings warnings suppressed\n\
         … 1× UserWarning/PEERDIR suppressed\n\
         … repeated OperationalError: Connection refused (bodies in tee)\n"
    );
    assert!(YaBuildHandler::default().format_summary(0, "").is_none());
}

#[test]
fn build_stream_filter_cuts_long_lines() {
    let mut f = build_stream_filter();
    let long = format!("Error[-WSyntax]: {}", "z".repeat(400));
    let shown = f.feed_line(&long).expect("an error line is kept");
    assert_eq!(shown.chars().count(), 241);
    assert!(shown.ends_with("…\n"));
    assert_eq!(f.feed_line("Ok [3/9] x"), None);
    assert_eq!(f.flush(), "");
    assert_eq!(f.on_exit(0, "").as_deref(), Some("… 1× Ok progress suppressed\n"));
}

#[test]
fn build_filter_blank_input_is_empty() {
    assert_eq!(filter_ya_build(""), "");
    assert_eq!(filter_ya_build("  \n\t\n"), "");
    assert_eq!(filter_ya_build("\u{1b}[31m\u{1b}[0m\n"), "");
    assert_eq!(filter_ya_build("make: done"), "make: done\n");
    assert_eq!(filter_ya_build("noise only\nmore noise"), "");
    assert_eq!(
        filter_ya_build("Ok [1/1] x\nmake: *** Error 1"),
        "make: *** Error 1\n… 1× Ok progress suppressed\n"
    );
}

// ------------------------------------------------------------------ ya_cmd

#[test]
fn classify_make() {
    let a = ["make", "-t", "path"].map(String::from);
    assert_eq!(classify(&a), YaKind::Make);
}

#[test]
fn classify_test() {
    assert_eq!(classify(&args(&["test", "-r"])), YaKind::Test);
}

#[test]
fn classify_tool() {
    assert_eq!(classify(&args(&["tool", "dump_json"])), YaKind::Tool);
}

#[test]
fn classify_empty_and_other() {
    assert_eq!(classify(&[]), YaKind::Other);
    assert_eq!(classify(&args(&["package"])), YaKind::Other);
    assert_eq!(classify(&args(&["-h"])), YaKind::Other);
}

#[test]
fn ya_test_and_make_t_share_filtered_tee_pipeline() {
    let make_t = ["make", "-t", "pay/lib/tests"].map(String::from);
    let ya_test = ["test", "-r", "pay/lib/tests"].map(String::from);
    let filtered = YaPipeline::Filtered { tee: "ya" };
    assert_eq!(pipeline(&make_t), filtered);
    assert_eq!(pipeline(&ya_test), filtered);
    assert_eq!(pipeline(&["make", "python", "-r"].map(String::from)), YaPipeline::Passthrough);
    assert_eq!(pipeline(&["tool", "dump"].map(String::from)), YaPipeline::Passthrough);
}

#[test]
fn make_with_test_flag_anywhere_is_test_mode() {
    assert_eq!(
        pipeline(&args(&["make", "-r", "pay/lib", "-tt"])),
        YaPipeline::Filtered { tee: "ya" }
    );
    assert_eq!(pipeline(&args(&["make", "-tX"])), YaPipeline::Filtered { tee: "ya" });
    assert_eq!(pipeline(&args(&["make", "-Xt"])), YaPipeline::Passthrough);
    assert_eq!(pipeline(&args(&["make", "-t2"])), YaPipeline::Passthrough);
    assert_eq!(pipeline(&args(&["tool", "-t"])), YaPipeline::Passthrough);
    assert!(is_build_mode(&args(&["make", "-Xt"])));
}

#[test]
fn error_run_keeps_first_cap_and_reports_rest() {
    let mut h = YaBuildHandler::default();
    let n = CAP_ERRORS + 3;
    for k in 1..=n {
        let line = format!("ERROR something broke {k}");
        assert_eq!(h.should_skip(&line), k > CAP_ERRORS);
    }
    let summary = h.format_summary(1, "").expect("overflow is reported");
    assert_eq!(summary, "… +3 more ERROR lines\n");
    let mut few = YaBuildHandler::default();
    for k in 1..=CAP_ERRORS {
        assert!(!few.should_skip(&format!("ERROR e{k}")));
    }
    assert!(few.format_summary(0, "").is_none());
}
