use ya_filters::arc_cmd::{
    arc_filter_opts, classify, filter_arc_diff_safe, filter_arc_log, filter_arc_log_safe,
    filter_arc_show, filter_arc_status_safe, has_log_limit_flag, log_args_with_default_limit,
    parse_user_log_limit, pipeline, resolve_log_limit, user_log_format, ArcKind, ArcPipeline,
    DEFAULT_LOG_LIMIT,
};
use ya_filters::arc_diff::{compact_diff, filter_arc_diff, normalize_arc_unified_diff};
use ya_filters::arc_status::filter_arc_status;

fn count_tokens(s: &str) -> usize {
    s.split_whitespace().count()
}

fn savings(raw: &str, out: &str) -> f64 {
    let i = count_tokens(raw);
    let o = count_tokens(out);
    if i == 0 {
        return 0.0;
    }
    100.0 * (1.0 - o as f64 / i as f64)
}

fn s(v: &[&str]) -> Vec<String> {
    v.iter().map(|x| x.to_string()).collect()
}

/// A verbose `arc status` with hints in every section.
fn fixture_status() -> String {
    "On branch feat/FININT-160_split_tfa_otp_channel
Your branch is up-to-date with 'arcadia/users/user/feat/FININT-160_split_tfa_otp_channel'.
Changes to be committed:
  (use \"arc reset HEAD <file>...\" to unstage)

        modified:   billing/yandex_pay_plus/split/frameless.py

Changes not staged for commit:
  (use \"arc add <file>...\" to update what will be committed)
  (use \"arc checkout -- <file>...\" to discard changes in working directory)

        modified:   billing/yandex_pay_plus/split/tests/test_tfa.py

Untracked files:
  (use \"arc add <file>...\" to include in what will be committed)

        billing/yandex_pay_plus/progress.md

no changes added to commit (use \"arc add\" and/or \"arc commit -a\")
"
    .to_string()
}

const SUBJECTS: [&str; 20] = [
    "FININT-160: keep previous Split OTP channel on retry",
    "FININT-158: add confirm_method to the split payload",
    "FININT-157: log OTP delivery failures",
    "FININT-156: bump split client timeout",
    "FININT-155: drop legacy frameless flag",
    "FININT-154: rename tfa handler",
    "FININT-153: cover OTP resend with tests",
    "FININT-152: fix typo in channel enum",
    "FININT-151: move split settings",
    "FININT-150: add metrics for tfa",
    "FININT-149: refactor otp sender",
    "FININT-148: handle empty phone",
    "FININT-147: add retries",
    "FININT-146: update schema",
    "FININT-145: add fixtures",
    "FININT-144: clean imports",
    "FININT-143: pin dependency",
    "FININT-142: add docs",
    "FININT-141: adjust logging",
    "FININT-140: initial split otp",
];

fn hash_of(i: usize) -> String {
    if i == 0 {
        "7c37aa64a238d993f85a67c12962cad5594e87b8".to_string()
    } else {
        format!("{:040x}", 0x1234_5678_9abc_u64 + i as u64 * 7919)
    }
}

/// A verbose `arc log` of twenty commits with bodies.
fn fixture_log() -> String {
    let mut out = String::new();
    for (i, subject) in SUBJECTS.iter().enumerate() {
        if i == 0 {
            out.push_str(&format!("commit {} (HEAD -> feat/FININT-160, arcadia/feat/FININT-160)\n", hash_of(i)));
        } else {
            out.push_str(&format!("commit {}\n", hash_of(i)));
        }
        out.push_str("author: user\n");
        out.push_str(&format!("date: 2025-03-{:02}T12:00:00+03:00\n", i + 1));
        out.push_str(&format!("revision: {}\n", 15_000_000 + i));
        out.push('\n');
        out.push_str(&format!("    {subject}\n"));
        out.push('\n');
        out.push_str("    Longer description of the change that explains the motivation and the rollout plan.\n");
        out.push_str("    Note: reviewed in the pull request together with the team, see the linked ticket.\n");
        out.push('\n');
    }
    out
}

fn hunk(file: &str, n: usize) -> String {
    let mut out = format!("@@ -1,{n} +1,{n} @@ def {file}_handler():\n");
    for k in 0..n {
        out.push_str(&format!("-    old_value_{k} = compute_old_value(request, context, {k})\n"));
        out.push_str(&format!("+    new_value_{k} = compute_new_value(request, context, {k})\n"));
        out.push_str(&format!("     unchanged_line_{k} = keep(request)\n"));
    }
    out
}

/// An arc unified diff over two files.
fn fixture_diff() -> String {
    let mut out = String::new();
    for file in [
        "billing/yandex_pay_plus/split/split_frameless.py",
        "billing/yandex_pay_plus/split/tests/test_tfa.py",
    ] {
        out.push_str(&format!("--- {file}\t(index 7c37aa6)\n"));
        out.push_str(&format!("+++ {file}\t(working tree)\n"));
        out.push_str(&hunk("split", 12));
        out.push_str(&hunk("tfa", 10));
    }
    out
}

fn fixture_show() -> String {
    let mut out = String::from("commit 81f4fcbfd098e9e6f27bd881cdd5641e088a0d30\n");
    out.push_str("author: user\ndate: 2025-03-01T12:00:00+03:00\nrevision: 15000001\n\n");
    out.push_str("    FININT-161: keep OTP channel, send confirm_method to split\n\n");
    out.push_str("    Body of the commit message with more details about confirm_method.\n\n");
    out.push_str(&fixture_diff());
    out
}

// ------------------------------------------------------------------ routing

#[test]
fn classify_known_and_other() {
    assert_eq!(classify(&s(&["status"])), ArcKind::Status);
    assert_eq!(classify(&s(&["log", "-n", "5"])), ArcKind::Log);
    assert_eq!(classify(&s(&["diff"])), ArcKind::Diff);
    assert_eq!(classify(&s(&["show", "abc"])), ArcKind::Show);
    assert_eq!(classify(&s(&["pr", "list"])), ArcKind::Other);
    assert_eq!(classify(&[]), ArcKind::Other);
}

#[test]
fn pipeline_routes_filtered_vs_passthrough() {
    assert_eq!(pipeline(&s(&["status"])), ArcPipeline::StatusFiltered);
    assert_eq!(pipeline(&s(&["log"])), ArcPipeline::LogFiltered);
    assert_eq!(pipeline(&s(&["diff"])), ArcPipeline::DiffFiltered);
    assert_eq!(pipeline(&s(&["show"])), ArcPipeline::ShowFiltered);
    assert_eq!(pipeline(&s(&["info"])), ArcPipeline::Passthrough);
}

#[test]
fn passthrough_pipeline_for_other_subcommands() {
    for sub in ["info", "pr", "branch", "root", "add", "commit"] {
        assert_eq!(pipeline(&s(&[sub])), ArcPipeline::Passthrough, "{sub} must passthrough + track");
        assert_eq!(classify(&s(&[sub])), ArcKind::Other);
    }
}

#[test]
fn arc_filter_opts_skip_filter_on_failure() {
    let opts = arc_filter_opts();
    assert!(opts.skip_filter_on_failure);
    assert_eq!(opts.tee_label, Some("arc"));
}

// ------------------------------------------------------------------ log args

#[test]
fn log_args_inject_default_n() {
    let a = s(&["log"]);
    let out = log_args_with_default_limit(&a);
    assert_eq!(out, vec!["log", "-n", "10"]);
    let with_n = s(&["log", "-n", "3"]);
    assert_eq!(log_args_with_default_limit(&with_n), with_n);
}

#[test]
fn log_combined_n_forms_recognized_no_double_inject() {
    for a in [
        s(&["log", "-n20"]),
        s(&["log", "-20"]),
        s(&["log", "--max-count=15"]),
        s(&["log", "--max-count", "15"]),
    ] {
        assert_eq!(log_args_with_default_limit(&a), a, "must not inject second -n for {a:?}");
        assert!(has_log_limit_flag(&a[1..]), "{a:?}");
    }
    assert_eq!(parse_user_log_limit(&s(&["-n20"])), Some(20));
    assert_eq!(parse_user_log_limit(&s(&["-20"])), Some(20));
    assert_eq!(resolve_log_limit(&s(&["-n", "200"])), (200, true));
    assert_eq!(resolve_log_limit(&[]), (DEFAULT_LOG_LIMIT, false));
}

#[test]
fn log_limit_parsing_edge_cases() {
    assert_eq!(parse_user_log_limit(&s(&["-n", "+7"])), Some(7));
    assert_eq!(parse_user_log_limit(&s(&["-n", "x", "5"])), None);
    assert_eq!(parse_user_log_limit(&s(&["-n", "x", "-5"])), Some(5));
    assert_eq!(parse_user_log_limit(&s(&["-n"])), None);
    assert_eq!(parse_user_log_limit(&s(&["-n+5"])), None);
    assert_eq!(parse_user_log_limit(&s(&["--max-count=+9"])), Some(9));
    assert_eq!(parse_user_log_limit(&s(&["-99999999999999999999999"])), None);
    assert_eq!(parse_user_log_limit(&s(&["--oneline", "-3"])), Some(3));
    assert_eq!(resolve_log_limit(&s(&["-0"])), (1, true));
    assert_eq!(log_args_with_default_limit(&s(&["show", "x"])), s(&["show", "x"]));
    assert_eq!(log_args_with_default_limit(&[]), Vec::<String>::new());
    assert_eq!(
        log_args_with_default_limit(&s(&["log", "--oneline"])),
        s(&["log", "-n", "10", "--oneline"])
    );
    assert!(user_log_format(&s(&["--pretty=short"])));
    assert!(user_log_format(&s(&["-n", "2", "--json-lines"])));
    assert!(!user_log_format(&s(&["--jsonx", "-n", "2"])));
}

#[test]
fn default_limit_is_injected_once() {
    let once = log_args_with_default_limit(&s(&["log", "trunk"]));
    assert_eq!(once, s(&["log", "-n", "10", "trunk"]));
    assert_eq!(log_args_with_default_limit(&once), once);
}

// ------------------------------------------------------------------ status

#[test]
fn status_fixture_compacts_and_saves() {
    let raw = fixture_status();
    let out = filter_arc_status(&raw);
    assert!(out.contains("feat/FININT-160_split_tfa_otp_channel"), "{out}");
    assert!(out.contains("progress.md"), "{out}");
    assert!(out.contains("??"), "{out}");
    assert!(!out.contains("(use \"arc"), "{out}");
    assert!(savings(&raw, &out) >= 60.0, "savings {:.1}%\n{out}", savings(&raw, &out));
}

#[test]
fn status_short_passthrough() {
    let raw = "?? billing/yandex_pay_plus/progress.md\n";
    let out = filter_arc_status(raw);
    assert_eq!(out, "?? billing/yandex_pay_plus/progress.md");
}

#[test]
fn status_clean_shape() {
    let raw = "On branch trunk\nnothing to commit, working tree clean\n";
    let out = filter_arc_status(raw);
    assert!(out.contains("* trunk"), "{out}");
    assert!(out.contains("clean"), "{out}");
}

#[test]
fn status_staged_and_unstaged_compact() {
    let raw = "\
On branch feat/example
Your branch is up-to-date with 'arcadia/users/me/feat/example'.
Changes to be committed:
  (use \"arc reset HEAD <file>...\" to unstage)

        modified:   path/a.py
        new file:   path/b.py

Changes not staged for commit:
  (use \"arc add <file>...\" to update what will be committed)

        modified:   path/c.py
        deleted:    path/d.py

Untracked files:
  (use \"arc add <file>...\" to include in what will be committed)

    path/e.md
";
    let out = filter_arc_status(raw);
    assert!(out.contains("* feat/example"), "{out}");
    assert!(out.contains("M  path/a.py"), "{out}");
    assert!(out.contains("A  path/b.py"), "{out}");
    assert!(out.contains(" M path/c.py"), "{out}");
    assert!(out.contains(" D path/d.py"), "{out}");
    assert!(out.contains("?? path/e.md"), "{out}");
    assert!(!out.contains("(use \"arc"), "{out}");
}

#[test]
fn status_ahead_behind_and_unmerged() {
    let raw = "\
On branch feat/x
Your branch is ahead of 'arcadia/trunk' by 3 commits.
Your branch is behind 'arcadia/trunk' by 12 commits.
Unmerged paths:
        both modified:   path/conflict.py
";
    assert_eq!(filter_arc_status(raw), "* feat/x [ahead 3] [behind 12]\nUU path/conflict.py");
    assert_eq!(filter_arc_status("On branch solo\n"), "* solo\nclean — nothing to commit");
    assert_eq!(filter_arc_status("HEAD detached at 1234abc\n"), "HEAD detached at 1234abc");
    assert_eq!(
        filter_arc_status("On branch x\nHEAD detached at 1234abc\n"),
        "* HEAD detached at 1234abc\nclean — nothing to commit"
    );
    assert_eq!(filter_arc_status("Changes to be committed:\n"), "clean — nothing to commit");
}

// ------------------------------------------------------------------ log

#[test]
fn log_fixture_oneline_cap_and_saves() {
    let raw = fixture_log();
    let out = filter_arc_log(&raw, DEFAULT_LOG_LIMIT, false, false);
    assert!(out.contains("7c37aa64a238") || out.contains("7c37aa64a238d993f85a67c12962cad5594e87b8"), "{out}");
    assert!(out.contains("keep previous Split OTP channel"), "{out}");
    assert!(!out.contains("author:"), "{out}");
    assert!(!out.contains("date:"), "{out}");
    let tops: Vec<_> = out.lines().filter(|l| !l.is_empty()).collect();
    assert_eq!(tops.len(), DEFAULT_LOG_LIMIT, "{out}");
    assert!(savings(&raw, &out) >= 60.0, "savings {:.1}%\n{out}", savings(&raw, &out));
}

#[test]
fn log_respects_limit() {
    let raw = fixture_log();
    let out = filter_arc_log(&raw, 3, true, false);
    assert_eq!(out.lines().filter(|l| !l.is_empty()).count(), 3, "{out}");
}

#[test]
fn log_user_large_n_not_silently_capped() {
    let raw = fixture_log();
    let out = filter_arc_log(&raw, 200, true, false);
    let n = out.lines().filter(|l| !l.is_empty()).count();
    assert!(n > 10, "expected >10 commits when user set large -n, got {n}\n{out}");
    assert_eq!(n, 20, "fixture has 20 commits; must not truncate below that\n{out}");
}

#[test]
fn log_oneline_user_format_light_truncate() {
    let raw = "\
aaa111 subject one with a very long padding that should be truncated when over width for agents reading logs
bbb222 subject two
ccc333 subject three
";
    let out = filter_arc_log(raw, 2, false, true);
    assert_eq!(out.lines().count(), 2, "{out}");
    assert!(out.contains("aaa111"), "{out}");
    assert!(!out.contains("ccc333"), "{out}");
    let out_all = filter_arc_log(raw, 50, true, true);
    assert_eq!(out_all.lines().count(), 3, "{out_all}");
}

#[test]
fn log_line_shape_is_exact() {
    let raw = "commit 0123456789abcdef0123 (HEAD -> trunk)\nauthor: me\n\n    Fix the thing\n";
    assert_eq!(filter_arc_log(raw, 10, false, false), "0123456789ab (HEAD -> trunk) Fix the thing");
    let bare = "commit abc\n";
    assert_eq!(filter_arc_log(bare, 10, false, false), "abc (no subject)");
    let wide = "x".repeat(130);
    assert_eq!(filter_arc_log(&wide, 1, false, true), format!("{}...", "x".repeat(97)));
}

// ------------------------------------------------------------------ diff / show

#[test]
fn diff_fixture_compacts_and_saves() {
    let raw = fixture_diff();
    let out = filter_arc_diff(&raw);
    assert!(out.contains("split_frameless.py") || out.contains("test_tfa.py"), "{out}");
    assert!(out.contains("@@") || out.contains('+') || out.contains('-'), "{out}");
    assert!(savings(&raw, &out) >= 60.0, "savings {:.1}%\n{out}", savings(&raw, &out));
}

#[test]
fn normalize_injects_diff_git_headers() {
    let raw = "--- foo.py\t(abc)\n+++ foo.py\t(def)\n@@ -1 +1 @@\n-x\n+y\n";
    let n = normalize_arc_unified_diff(raw);
    assert!(n.contains("diff --git a/foo.py b/foo.py"), "{n}");
}

#[test]
fn normalize_strips_prefixes_and_keeps_existing_headers() {
    let raw = "--- a/x.py\n+++ b/x.py\t(rev)\n";
    assert_eq!(
        normalize_arc_unified_diff(raw),
        "diff --git a/x.py b/x.py\n--- a/x.py\n+++ b/x.py\t(rev)\n"
    );
    let git = "diff --git a/y b/y\n--- a/y\n+++ b/y\n";
    assert_eq!(normalize_arc_unified_diff(git), git);
    let gone = "--- z.py\n+++ /dev/null\n";
    assert!(normalize_arc_unified_diff(gone).starts_with("diff --git a/dev/null b/dev/null\n"));
}

#[test]
fn compact_diff_counts_per_file() {
    let d = "diff --git a/f.py b/f.py\n--- a/f.py\n+++ b/f.py\n@@ -1,2 +1,2 @@ ctx\n-a\n+b\n c\n";
    assert_eq!(compact_diff(d, 500), "\nf.py\n  @@ -1,2 +1,2 @@\n  -a\n  +b\n   c\n  +1 -1");
}

#[test]
fn tighten_caps_changes_per_hunk() {
    let mut raw = String::from("--- f.py\n+++ f.py\n@@ -1,9 +1,9 @@\n");
    for k in 0..9 {
        raw.push_str(&format!("-old {k}\n+new {k}\n"));
    }
    let out = filter_arc_diff(&raw);
    assert_eq!(out, "f.py\n  @@ -1,9 +1,9 @@\n  -old 0\n  +new 0\n  -old 1\n  ... (15 more changed lines)\n  +9 -9");
}

#[test]
fn tighten_stat_mode_for_many_files() {
    let mut raw = String::new();
    for i in 0..7 {
        raw.push_str(&format!("--- f{i}.py\n+++ f{i}.py\n@@ -1 +1 @@\n-a\n+b\n"));
    }
    let out = filter_arc_diff(&raw);
    let expected: Vec<String> = (0..7).map(|i| format!("f{i}.py\n  +1 -1")).collect();
    assert_eq!(out, expected.join("\n"));
}

#[test]
fn show_fixture_compacts_and_saves() {
    let raw = fixture_show();
    let out = filter_arc_show(&raw);
    assert!(out.contains("81f4fcbfd098") || out.contains("81f4fcbfd098e9e6f27bd881cdd5641e088a0d30"), "{out}");
    assert!(out.contains("OTP channel") || out.contains("confirm_method"), "{out}");
    assert!(!out.contains("author:"), "{out}");
    assert!(savings(&raw, &out) >= 60.0, "savings {:.1}%\n{out}", savings(&raw, &out));
}

#[test]
fn empty_and_malformed_do_not_panic() {
    assert!(filter_arc_status("").is_empty());
    assert!(filter_arc_log("", 10, false, false).is_empty());
    assert!(filter_arc_diff("").is_empty());
    assert!(filter_arc_show("").is_empty());
    let _ = filter_arc_status("garbage\nnot status\n");
    let _ = filter_arc_log("not a log\n", 5, false, false);
    let _ = filter_arc_diff("not a diff\n");
    let _ = filter_arc_show("orphan text\n");
}

#[test]
fn guarded_filters_never_longer_than_raw() {
    let tiny = "x\n";
    assert_eq!(filter_arc_status(tiny), "clean — nothing to commit");
    assert_eq!(filter_arc_status_safe(tiny), "x\n");
    assert_eq!(filter_arc_diff_safe(tiny), "");
    assert_eq!(filter_arc_log("commit a\n", 1, true, false), "a (no subject)");
    assert_eq!(filter_arc_log_safe("commit a\n", 1, true, false), "commit a\n");
    let raw = fixture_status();
    assert_eq!(filter_arc_status_safe(&raw), filter_arc_status(&raw));
}

#[test]
fn normalize_twice_is_normalize_once() {
    let raw = "--- a/x.py\t(rev)\n+++ b/x.py\t(rev)\n@@ -1 +1 @@\n-a\n+b\n--- y\n--- z\n+++ z\nend";
    let once = normalize_arc_unified_diff(raw);
    assert!(once.starts_with("diff --git a/x.py b/x.py\n--- a/x.py"));
    assert!(once.contains("--- y\ndiff --git a/z b/z\n--- z\n+++ z\n"));
    assert_eq!(normalize_arc_unified_diff(&once), once);
}
