//! `arc` routing and the compact `log` / `show` filters; `status` and `diff`
//! live in their own modules. Other subcommands pass through.

use vstd::prelude::*;
use crate::arc_diff::{arc_diff_chars, arc_diff_filter};
use crate::arc_status::{arc_status_chars, arc_status_filter};
use crate::generic_fail::utf8_width;
use crate::text::{
    all_digits, append_chars, chars_of, copy_chars, decimal, decimal_chars, eq_str, find, find_str,
    join_nl, join_nl_exec, lemma_find_facts, lemma_take_all, lemma_take_step, line_of, lines,
    occurs_at, parse_usize_chars, push_line, push_str, slice_chars, split_lines, starts_with,
    starts_with_str, string_of, string_views, trim, trim_chars, usize_of, views,
};
use crate::util::{never_worse, never_worse_chars, strip_ansi_lite, strip_ansi_lite_chars};

verus! {

/// Default commit cap when the user did not pass `-n` / `--max-count`.
pub const DEFAULT_LOG_LIMIT: usize = 10;

/// First-token subdispatch for filter routing.
#[derive(Debug, Clone, Copy, PartialEq, Eq, Structural)]
pub enum ArcKind {
    Status,
    Log,
    Diff,
    Show,
    Other,
}

/// Execution plan for an `arc` command line.
#[derive(Debug, Clone, Copy, PartialEq, Eq, Structural)]
pub enum ArcPipeline {
    StatusFiltered,
    LogFiltered,
    DiffFiltered,
    ShowFiltered,
    Passthrough,
}

// ---------------------------------------------------------------- routing

pub open spec fn arc_kind_of(args: Seq<Seq<char>>) -> ArcKind {
    if args.len() == 0 {
        ArcKind::Other
    } else if args[0] == "status"@ {
        ArcKind::Status
    } else if args[0] == "log"@ {
        ArcKind::Log
    } else if args[0] == "diff"@ {
        ArcKind::Diff
    } else if args[0] == "show"@ {
        ArcKind::Show
    } else {
        ArcKind::Other
    }
}

pub open spec fn pipeline_for(k: ArcKind) -> ArcPipeline {
    match k {
        ArcKind::Status => ArcPipeline::StatusFiltered,
        ArcKind::Log => ArcPipeline::LogFiltered,
        ArcKind::Diff => ArcPipeline::DiffFiltered,
        ArcKind::Show => ArcPipeline::ShowFiltered,
        ArcKind::Other => ArcPipeline::Passthrough,
    }
}

/// Classify `arc` argv by the first positional token.
pub fn classify(args: &[String]) -> (r: ArcKind)
    ensures
        r == arc_kind_of(string_views(args@)),
{
    if args.len() == 0 {
        return ArcKind::Other;
    }
    let first = chars_of(args[0].as_str());
    assert(string_views(args@)[0] == first@);
    if eq_str(&first, "status") {
        ArcKind::Status
    } else if eq_str(&first, "log") {
        ArcKind::Log
    } else if eq_str(&first, "diff") {
        ArcKind::Diff
    } else if eq_str(&first, "show") {
        ArcKind::Show
    } else {
        ArcKind::Other
    }
}

/// `status`, `log`, `diff` and `show` are filtered; the rest passes through.
pub fn pipeline(args: &[String]) -> (r: ArcPipeline)
    ensures
        r == pipeline_for(arc_kind_of(string_views(args@))),
{
    match classify(args) {
        ArcKind::Status => ArcPipeline::StatusFiltered,
        ArcKind::Log => ArcPipeline::LogFiltered,
        ArcKind::Diff => ArcPipeline::DiffFiltered,
        ArcKind::Show => ArcPipeline::ShowFiltered,
        ArcKind::Other => ArcPipeline::Passthrough,
    }
}

/// How a filtered `arc` command is run: the raw output is kept under a tee
/// label, and a failing command is shown unfiltered.
pub struct RunOptions {
    pub tee_label: Option<&'static str>,
    pub skip_filter_on_failure: bool,
}

/// Tee label `arc`; skip the filter on a non-zero exit.
pub fn arc_filter_opts() -> (r: RunOptions)
    ensures
        r.skip_filter_on_failure,
        r.tee_label matches Some(l) && l@ == "arc"@,
{
    let l = "arc";
    proof {
        reveal_strlit("arc");
    }
    RunOptions { tee_label: Some(l), skip_filter_on_failure: true }
}

// ---------------------------------------------------------------- log args

/// An explicit limit written as `N` after a flag, or glued to one.
pub open spec fn limit_from(args: Seq<Seq<char>>, i: int) -> Option<nat>
    decreases args.len() - i,
{
    if i < 0 || i >= args.len() {
        None
    } else {
        let a = args[i];
        let glued_n = a.skip("-n"@.len() as int);
        let glued_max = a.skip("--max-count="@.len() as int);
        let dashed = a.skip(1);
        if a == "-n"@ || a == "--max-count"@ {
            if i + 1 < args.len() && usize_of(args[i + 1]) is Some {
                usize_of(args[i + 1])
            } else {
                limit_from(args, i + 1)
            }
        } else if starts_with(a, "--max-count="@) && usize_of(glued_max) is Some {
            usize_of(glued_max)
        } else if starts_with(a, "-n"@) && glued_n.len() > 0 && all_digits(glued_n) && usize_of(
            glued_n,
        ) is Some {
            usize_of(glued_n)
        } else if starts_with(a, "-"@) && a.len() > 1 && all_digits(dashed) && usize_of(
            dashed,
        ) is Some {
            usize_of(dashed)
        } else {
            limit_from(args, i + 1)
        }
    }
}

/// The user's log limit: `-n N`, `-nN`, `--max-count N`, `--max-count=N` or
/// `-N`, the first that parses.
pub open spec fn user_log_limit(args: Seq<Seq<char>>) -> Option<nat> {
    limit_from(args, 0)
}

/// `arc log` argv with `-n 10` put after `log` unless a limit is given.
pub open spec fn with_default_limit(args: Seq<Seq<char>>) -> Seq<Seq<char>> {
    if args.len() == 0 || args[0] != "log"@ || limit_from(args, 1) is Some {
        args
    } else {
        seq!["log"@, "-n"@, decimal(DEFAULT_LOG_LIMIT as nat)] + args.skip(1)
    }
}

pub open spec fn log_format_arg(a: Seq<char>) -> bool {
    a == "--oneline"@ || starts_with(a, "--pretty"@) || starts_with(a, "--format"@) || a
        == "--json"@ || a == "--json-lines"@
}

/// Whether the user chose the log format.
pub open spec fn user_format_set(args: Seq<Seq<char>>) -> bool {
    exists|i: int| 0 <= i < args.len() && log_format_arg(#[trigger] args[i])
}

fn usize_at(args: &[String], i: usize) -> (r: Option<usize>)
    requires
        i < args@.len(),
    ensures
        match r {
            Some(n) => usize_of(string_views(args@)[i as int]) == Some(n as nat),
            None => usize_of(string_views(args@)[i as int]) is None,
        },
{
    let a = chars_of(args[i].as_str());
    assert(string_views(args@)[i as int] == a@);
    parse_usize_chars(&a)
}

fn glued_limit(a: &Vec<char>, prefix: &str, digits_only: bool) -> (r: Option<usize>)
    ensures
        ({
            let rest = a@.skip(prefix@.len() as int);
            let ok = starts_with(a@, prefix@) && (!digits_only || (rest.len() > 0 && all_digits(
                rest,
            )));
            match r {
                Some(n) => ok && usize_of(rest) == Some(n as nat),
                None => !(ok && usize_of(rest) is Some),
            }
        }),
{
    if !starts_with_str(a, prefix) {
        return None;
    }
    let p = chars_of(prefix);
    let rest = slice_chars(a, p.len(), a.len());
    assert(rest@ =~= a@.skip(prefix@.len() as int));
    if digits_only {
        if rest.len() == 0 {
            return None;
        }
        let mut k: usize = 0;
        while k < rest.len()
            invariant
                k <= rest.len(),
                rest@ == a@.skip(prefix@.len() as int),
                digits_only,
                starts_with(a@, prefix@),
                forall|j: int| 0 <= j < k ==> crate::text::is_digit(rest@[j]),
            decreases rest.len() - k,
        {
            if !('0' <= rest[k] && rest[k] <= '9') {
                assert(!crate::text::is_digit(rest@[k as int]));
                return None;
            }
            k += 1;
        }
    }
    parse_usize_chars(&rest)
}

fn limit_from_exec(args: &[String], start: usize) -> (r: Option<usize>)
    ensures
        match r {
            Some(n) => limit_from(string_views(args@), start as int) == Some(n as nat),
            None => limit_from(string_views(args@), start as int) is None,
        },
{
    let ghost sv = string_views(args@);
    let mut i: usize = start;
    while i < args.len()
        invariant
            start <= i,
            sv == string_views(args@),
            limit_from(sv, start as int) == limit_from(sv, i as int),
        decreases args.len() - i,
    {
        let a = chars_of(args[i].as_str());
        assert(sv[i as int] == a@);
        if eq_str(&a, "-n") || eq_str(&a, "--max-count") {
            if i + 1 < args.len() {
                match usize_at(args, i + 1) {
                    Some(n) => {
                        return Some(n);
                    },
                    None => {},
                }
            }
            i += 1;
            continue;
        }
        match glued_limit(&a, "--max-count=", false) {
            Some(n) => {
                return Some(n);
            },
            None => {},
        }
        match glued_limit(&a, "-n", true) {
            Some(n) => {
                return Some(n);
            },
            None => {},
        }
        match glued_limit(&a, "-", true) {
            Some(n) => {
                proof {
                    reveal_strlit("-");
                }
                return Some(n);
            },
            None => {
                proof {
                    reveal_strlit("-");
                }
            },
        }
        i += 1;
    }
    None
}

/// Parse an explicit user log limit, if any (see [`user_log_limit`]).
pub fn parse_user_log_limit(args: &[String]) -> (r: Option<usize>)
    ensures
        match r {
            Some(n) => user_log_limit(string_views(args@)) == Some(n as nat),
            None => user_log_limit(string_views(args@)) is None,
        },
{
    limit_from_exec(args, 0)
}

/// Whether the arguments set a log limit.
pub fn has_log_limit_flag(args: &[String]) -> (r: bool)
    ensures
        r == user_log_limit(string_views(args@)) is Some,
{
    parse_user_log_limit(args).is_some()
}

/// `(limit, user_set_limit)`: the user's limit (at least 1), or the default.
pub fn resolve_log_limit(args: &[String]) -> (r: (usize, bool))
    ensures
        match user_log_limit(string_views(args@)) {
            Some(n) => r == (if n >= 1 {
                n as usize
            } else {
                1usize
            }, true),
            None => r == (DEFAULT_LOG_LIMIT, false),
        },
{
    match parse_user_log_limit(args) {
        Some(n) => (if n >= 1 {
            n
        } else {
            1
        }, true),
        None => (DEFAULT_LOG_LIMIT, false),
    }
}

/// Whether the user asked for a log format of their own.
pub fn user_log_format(args: &[String]) -> (r: bool)
    ensures
        r == user_format_set(string_views(args@)),
{
    let ghost sv = string_views(args@);
    let mut i: usize = 0;
    while i < args.len()
        invariant
            i <= args.len(),
            sv == string_views(args@),
            forall|j: int| 0 <= j < i ==> !log_format_arg(#[trigger] sv[j]),
        decreases args.len() - i,
    {
        let a = chars_of(args[i].as_str());
        assert(sv[i as int] == a@);
        if eq_str(&a, "--oneline") || starts_with_str(&a, "--pretty") || starts_with_str(
            &a,
            "--format",
        ) || eq_str(&a, "--json") || eq_str(&a, "--json-lines") {
            assert(log_format_arg(sv[i as int]));
            return true;
        }
        i += 1;
    }
    false
}

/// Put `-n 10` after `log` when the user set no limit (see
/// [`with_default_limit`]).
pub fn log_args_with_default_limit(args: &[String]) -> (r: Vec<String>)
    ensures
        string_views(r@) == with_default_limit(string_views(args@)),
{
    let ghost sv = string_views(args@);
    let mut out: Vec<String> = Vec::new();
    let inject = if args.len() == 0 {
        false
    } else {
        let first = chars_of(args[0].as_str());
        assert(sv[0] == first@);
        eq_str(&first, "log") && limit_from_exec(args, 1).is_none()
    };
    let mut from: usize = 0;
    if inject {
        out.push(string_of(&line_of("log")));
        out.push(string_of(&line_of("-n")));
        out.push(string_of(&decimal_chars(DEFAULT_LOG_LIMIT)));
        from = 1;
    }
    let ghost head = string_views(out@);
    let mut i: usize = from;
    while i < args.len()
        invariant
            from <= i <= args.len(),
            from <= 1,
            from == 1 ==> args.len() >= 1,
            sv == string_views(args@),
            string_views(out@) == head + sv.subrange(from as int, i as int),
        decreases args.len() - i,
    {
        let ghost prev = string_views(out@);
        let c = string_of(&chars_of(args[i].as_str()));
        out.push(c);
        assert(string_views(out@) =~= prev.push(sv[i as int]));
        assert(sv.subrange(from as int, i + 1) =~= sv.subrange(from as int, i as int).push(
            sv[i as int],
        ));
        i += 1;
    }
    assert(sv.subrange(0, sv.len() as int) =~= sv);
    assert(sv.subrange(1, sv.len() as int) =~= sv.skip(1));
    proof {
        if inject {
            assert(head =~= seq!["log"@, "-n"@, decimal(DEFAULT_LOG_LIMIT as nat)]);
        } else {
            assert(head =~= Seq::<Seq<char>>::empty());
        }
    }
    out
}

// ---------------------------------------------------------------- log

/// `line` cut to `width` characters, the cut marked by `...`.
pub open spec fn truncate_line(line: Seq<char>, width: nat) -> Seq<char> {
    if line.len() > width {
        line.take(if width >= 3 {
            width - 3
        } else {
            0
        }) + "..."@
    } else {
        line
    }
}

/// The longest prefix of `h` that fits in `budget` UTF-8 bytes.
pub open spec fn byte_prefix(h: Seq<char>, budget: nat) -> Seq<char>
    decreases h.len(),
{
    if h.len() == 0 || utf8_width(h[0]) > budget {
        seq![]
    } else {
        seq![h[0]] + byte_prefix(h.drop_first(), (budget - utf8_width(h[0])) as nat)
    }
}

/// The first 12 bytes of a commit hash.
pub open spec fn short_hash(h: Seq<char>) -> Seq<char> {
    byte_prefix(h, 12)
}

/// `hash (decorations)` → `(hash, " (decorations)")`.
pub open spec fn split_commit_header(rest: Seq<char>) -> (Seq<char>, Seq<char>) {
    let r = trim(rest);
    match find(r, " ("@) {
        Some(i) => (r.take(i), r.skip(i)),
        None => (r, seq![]),
    }
}

/// One commit: `short-hash [decorations] subject`, cut to 140 characters.
pub open spec fn commit_line(hash: Seq<char>, deco: Seq<char>, subject: Option<Seq<char>>) -> Seq<
    char,
> {
    let subj = match subject {
        Some(s) => s,
        None => "(no subject)"@,
    };
    let deco_part = if deco.len() == 0 {
        seq![]
    } else {
        " "@ + truncate_line(trim(deco), 48)
    };
    truncate_line(short_hash(hash) + deco_part + " "@ + subj, 140)
}

/// Commit being read: hash, decorations, subject.
pub type OpenCommit = (Seq<char>, Seq<char>, Option<Seq<char>>);

/// Reader of verbose `arc log`: commit lines, the open commit, stopped.
pub type LogState = (Seq<Seq<char>>, Option<OpenCommit>, bool);

pub open spec fn metadata_line(line: Seq<char>) -> bool {
    starts_with(line, "author:"@) || starts_with(line, "date:"@) || starts_with(line, "merge:"@)
        || starts_with(line, "revision:"@)
}

#[verifier::opaque]
pub open spec fn log_step(st: LogState, line: Seq<char>, limit: nat) -> LogState {
    let (commits, cur, done) = st;
    if done {
        st
    } else if starts_with(line, "commit "@) {
        let commits2 = match cur {
            Some((h, d, s)) => commits.push(commit_line(h, d, s)),
            None => commits,
        };
        if cur is Some && commits2.len() >= limit {
            (commits2, None, true)
        } else {
            let (h, d) = split_commit_header(line.skip("commit "@.len() as int));
            (commits2, Some((h, d, None)), false)
        }
    } else {
        match cur {
            None => st,
            Some((h, d, subj)) => {
                let t = trim(line);
                if metadata_line(line) || t.len() == 0 {
                    st
                } else if subj is None && !starts_with(line, " "@) && !starts_with(line, "\t"@)
                    && starts_with(t, "revision:"@) {
                    st
                } else if subj is None {
                    (commits, Some((h, d, Some(t))), false)
                } else {
                    st
                }
            },
        }
    }
}

pub open spec fn log_run(ls: Seq<Seq<char>>, limit: nat) -> LogState
    decreases ls.len(),
{
    if ls.len() == 0 {
        (seq![], None, false)
    } else {
        log_step(log_run(ls.drop_last(), limit), ls.last(), limit)
    }
}

/// The commit lines of a verbose log, at most `limit` of them.
pub open spec fn commit_lines(ls: Seq<Seq<char>>, limit: nat) -> Seq<Seq<char>> {
    let (commits, cur, _) = log_run(ls, limit);
    let all = match cur {
        Some((h, d, s)) => if commits.len() < limit {
            commits.push(commit_line(h, d, s))
        } else {
            commits
        },
        None => commits,
    };
    if all.len() > limit {
        all.take(limit as int)
    } else {
        all
    }
}

/// Lines that are not blank, in order.
pub open spec fn filled_lines(ls: Seq<Seq<char>>) -> Seq<Seq<char>>
    decreases ls.len(),
{
    if ls.len() == 0 {
        seq![]
    } else if trim(ls.last()).len() > 0 {
        filled_lines(ls.drop_last()).push(ls.last())
    } else {
        filled_lines(ls.drop_last())
    }
}

/// The effective commit cap: the user's (at least 1), or at most the default.
pub open spec fn log_cap(limit: nat, user_set_limit: bool) -> nat {
    if limit < 1 {
        1
    } else if !user_set_limit && limit > DEFAULT_LOG_LIMIT {
        DEFAULT_LOG_LIMIT as nat
    } else {
        limit
    }
}

/// The `arc log` filter. With a user format, the non-blank lines (all of
/// them when the user set the limit, else at most the cap) each cut to 120
/// (user limit) or 100 characters; otherwise one line per commit.
pub open spec fn arc_log_filter(raw: Seq<char>, limit: nat, user_set_limit: bool, user_format: bool) -> Seq<char> {
    let s = strip_ansi_lite(raw);
    let cap = log_cap(limit, user_set_limit);
    if trim(s).len() == 0 {
        seq![]
    } else if user_format {
        let filled = filled_lines(lines(s));
        let n = if user_set_limit || filled.len() <= cap {
            filled.len()
        } else {
            cap
        };
        let width: nat = if user_set_limit {
            120
        } else {
            100
        };
        join_nl(filled.take(n as int).map_values(|l: Seq<char>| truncate_line(l, width)))
    } else {
        join_nl(commit_lines(lines(s), cap))
    }
}

pub fn truncate_line_exec(line: &Vec<char>, width: usize) -> (r: Vec<char>)
    ensures
        r@ == truncate_line(line@, width as nat),
{
    if line.len() > width {
        let keep = if width >= 3 {
            width - 3
        } else {
            0
        };
        let mut out = slice_chars(line, 0, keep);
        push_str(&mut out, "...");
        out
    } else {
        copy_chars(line)
    }
}

fn short_hash_exec(h: &Vec<char>) -> (r: Vec<char>)
    ensures
        r@ == short_hash(h@),
{
    let mut out: Vec<char> = Vec::new();
    let mut budget: usize = 12;
    let mut i: usize = 0;
    assert(h@.skip(0) =~= h@);
    while i < h.len()
        invariant
            i <= h.len(),
            budget <= 12,
            out@ + byte_prefix(h@.skip(i as int), budget as nat) == short_hash(h@),
        decreases h.len() - i,
    {
        let u = h[i] as u32;
        let w: usize = if u < 0x80 {
            1
        } else if u < 0x800 {
            2
        } else if u < 0x10000 {
            3
        } else {
            4
        };
        assert(h@.skip(i as int)[0] == h@[i as int]);
        if w > budget {
            assert(byte_prefix(h@.skip(i as int), budget as nat) =~= Seq::<char>::empty());
            assert(out@ =~= out@ + Seq::<char>::empty());
            return out;
        }
        assert(h@.skip(i as int).drop_first() =~= h@.skip(i + 1));
        out.push(h[i]);
        budget = budget - w;
        i += 1;
    }
    assert(out@ =~= out@ + Seq::<char>::empty());
    out
}

fn split_commit_header_exec(rest: &Vec<char>) -> (r: (Vec<char>, Vec<char>))
    ensures
        (r.0@, r.1@) == split_commit_header(rest@),
{
    let r = trim_chars(rest);
    match find_str(&r, " (") {
        Some(i) => {
            proof {
                lemma_find_facts(r@, " ("@);
            }
            assert(occurs_at(r@, " ("@, i as int));
            (slice_chars(&r, 0, i), slice_chars(&r, i, r.len()))
        },
        None => (r, Vec::new()),
    }
}

fn commit_line_exec(hash: &Vec<char>, deco: &Vec<char>, subject: &Option<Vec<char>>) -> (r: Vec<
    char,
>)
    ensures
        r@ == commit_line(hash@, deco@, match subject {
            Some(s) => Some(s@),
            None => None,
        }),
{
    let mut l = short_hash_exec(hash);
    if deco.len() > 0 {
        l.push(' ');
        append_chars(&mut l, &truncate_line_exec(&trim_chars(deco), 48));
    }
    l.push(' ');
    match subject {
        Some(s) => append_chars(&mut l, s),
        None => push_str(&mut l, "(no subject)"),
    }
    let ghost subj = match subject {
        Some(s) => s@,
        None => "(no subject)"@,
    };
    let ghost deco_part = if deco@.len() == 0 {
        Seq::<char>::empty()
    } else {
        " "@ + truncate_line(trim(deco@), 48)
    };
    proof {
        reveal_strlit(" ");
    }
    assert(l@ =~= short_hash(hash@) + deco_part + " "@ + subj);
    truncate_line_exec(&l, 140)
}

struct LogReader {
    commits: Vec<Vec<char>>,
    cur: Option<(Vec<char>, Vec<char>, Option<Vec<char>>)>,
    done: bool,
}

impl LogReader {
    spec fn model(&self) -> LogState {
        (
            views(self.commits@),
            match self.cur {
                Some((h, d, s)) => Some(
                    (
                        h@,
                        d@,
                        match s {
                            Some(x) => Some(x@),
                            None => None,
                        },
                    ),
                ),
                None => None,
            },
            self.done,
        )
    }
}

fn metadata_line_exec(line: &Vec<char>) -> (r: bool)
    ensures
        r == metadata_line(line@),
{
    starts_with_str(line, "author:") || starts_with_str(line, "date:") || starts_with_str(
        line,
        "merge:",
    ) || starts_with_str(line, "revision:")
}

fn log_step_exec(st: &mut LogReader, line: &Vec<char>, limit: usize)
    ensures
        final(st).model() == log_step(old(st).model(), line@, limit as nat),
{
    proof {
        reveal(log_step);
    }
    if st.done {
        return;
    }
    if starts_with_str(line, "commit ") {
        let had = st.cur.is_some();
        match st.cur.take() {
            Some((h, d, s)) => push_line(&mut st.commits, commit_line_exec(&h, &d, &s)),
            None => {},
        }
        if had && st.commits.len() >= limit {
            st.done = true;
            assert(st.model() =~= log_step(old(st).model(), line@, limit as nat));
            return;
        }
        let n = line_of("commit ").len();
        let (h, d) = split_commit_header_exec(&slice_chars(line, n, line.len()));
        st.cur = Some((h, d, None));
        assert(st.model() =~= log_step(old(st).model(), line@, limit as nat));
        return;
    }
    match st.cur.take() {
        None => {},
        Some((h, d, subj)) => {
            let t = trim_chars(line);
            let keep = metadata_line_exec(line) || t.len() == 0 || subj.is_some() || (
            !starts_with_str(line, " ") && !starts_with_str(line, "\t") && starts_with_str(
                &t,
                "revision:",
            ));
            if keep {
                st.cur = Some((h, d, subj));
            } else {
                st.cur = Some((h, d, Some(t)));
            }
        },
    }
    assert(st.model() =~= log_step(old(st).model(), line@, limit as nat));
}

fn commit_lines_exec(ls: &Vec<Vec<char>>, limit: usize) -> (r: Vec<Vec<char>>)
    ensures
        views(r@) == commit_lines(views(ls@), limit as nat),
{
    let ghost lv = views(ls@);
    let mut st = LogReader { commits: Vec::new(), cur: None, done: false };
    assert(st.model() =~= log_run(lv.take(0), limit as nat));
    let mut i: usize = 0;
    while i < ls.len()
        invariant
            i <= ls.len(),
            lv == views(ls@),
            st.model() == log_run(lv.take(i as int), limit as nat),
        decreases ls.len() - i,
    {
        proof {
            lemma_take_step(lv, i as int);
        }
        log_step_exec(&mut st, &ls[i], limit);
        i += 1;
    }
    proof {
        lemma_take_all(lv);
    }
    let mut commits = st.commits;
    if commits.len() < limit {
        match &st.cur {
            Some((h, d, s)) => push_line(&mut commits, commit_line_exec(h, d, s)),
            None => {},
        }
    }
    if commits.len() > limit {
        let ghost all = views(commits@);
        commits.truncate(limit);
        assert(views(commits@) =~= all.take(limit as int));
    }
    commits
}

fn filled_lines_exec(ls: &Vec<Vec<char>>) -> (r: Vec<Vec<char>>)
    ensures
        views(r@) == filled_lines(views(ls@)),
{
    let mut out: Vec<Vec<char>> = Vec::new();
    let mut i: usize = 0;
    while i < ls.len()
        invariant
            i <= ls.len(),
            views(out@) == filled_lines(views(ls@).take(i as int)),
        decreases ls.len() - i,
    {
        proof {
            lemma_take_step(views(ls@), i as int);
        }
        if trim_chars(&ls[i]).len() > 0 {
            push_line(&mut out, copy_chars(&ls[i]));
        }
        i += 1;
    }
    proof {
        lemma_take_all(views(ls@));
    }
    out
}

/// [`arc_log_filter`] on characters.
pub fn arc_log_chars(raw: &Vec<char>, limit: usize, user_set_limit: bool, user_format: bool) -> (r:
    Vec<char>)
    ensures
        r@ == arc_log_filter(raw@, limit as nat, user_set_limit, user_format),
{
    let s = strip_ansi_lite_chars(raw);
    if trim_chars(&s).len() == 0 {
        return Vec::new();
    }
    let cap: usize = if limit < 1 {
        1
    } else if !user_set_limit && limit > DEFAULT_LOG_LIMIT {
        DEFAULT_LOG_LIMIT
    } else {
        limit
    };
    let ls = split_lines(&s);
    if user_format {
        let filled = filled_lines_exec(&ls);
        let n = if user_set_limit || filled.len() <= cap {
            filled.len()
        } else {
            cap
        };
        let width: usize = if user_set_limit {
            120
        } else {
            100
        };
        let ghost fv = views(filled@);
        let mut out: Vec<Vec<char>> = Vec::new();
        let mut k: usize = 0;
        while k < n
            invariant
                k <= n <= filled.len(),
                fv == views(filled@),
                views(out@) == fv.take(k as int).map_values(
                    |l: Seq<char>| truncate_line(l, width as nat),
                ),
            decreases n - k,
        {
            push_line(&mut out, truncate_line_exec(&filled[k], width));
            assert(views(out@) =~= fv.take(k + 1).map_values(
                |l: Seq<char>| truncate_line(l, width as nat),
            ));
            k += 1;
        }
        return join_nl_exec(&out);
    }
    join_nl_exec(&commit_lines_exec(&ls, cap))
}

/// Cap / oneline bias for verbose `arc log` (see [`arc_log_filter`]). With
/// `user_set_limit` the caller already asked arc for exactly `limit` commits.
pub fn filter_arc_log(raw: &str, limit: usize, user_set_limit: bool, user_format: bool) -> (r:
    String)
    ensures
        r@ == arc_log_filter(raw@, limit as nat, user_set_limit, user_format),
{
    string_of(&arc_log_chars(&chars_of(raw), limit, user_set_limit, user_format))
}

// ---------------------------------------------------------------- show

/// Index of the first `--- ` line at or after `i`, if any.
pub open spec fn patch_start_from(ls: Seq<Seq<char>>, i: int) -> Option<int>
    decreases ls.len() - i,
{
    if i < 0 || i >= ls.len() {
        None
    } else if starts_with(ls[i], "--- "@) {
        Some(i)
    } else {
        patch_start_from(ls, i + 1)
    }
}

/// The `arc show` filter: the header as one commit line, then the compacted
/// patch.
pub open spec fn arc_show_filter(raw: Seq<char>) -> Seq<char> {
    let s = strip_ansi_lite(raw);
    let ls = lines(s);
    if trim(s).len() == 0 {
        seq![]
    } else {
        match patch_start_from(ls, 0) {
            None => arc_log_filter(join_nl(ls), 1, true, false),
            Some(i) => {
                let header = arc_log_filter(join_nl(ls.take(i)), 1, true, false);
                let compact = arc_diff_filter(join_nl(ls.skip(i)));
                if header.len() == 0 {
                    compact
                } else if compact.len() == 0 {
                    header
                } else {
                    header + seq!['\n'] + compact
                }
            },
        }
    }
}

fn patch_start_exec(ls: &Vec<Vec<char>>) -> (r: Option<usize>)
    ensures
        match r {
            Some(i) => patch_start_from(views(ls@), 0) == Some(i as int) && i < ls.len(),
            None => patch_start_from(views(ls@), 0) is None,
        },
{
    let ghost lv = views(ls@);
    let mut i: usize = 0;
    while i < ls.len()
        invariant
            i <= ls.len(),
            lv == views(ls@),
            patch_start_from(lv, 0) == patch_start_from(lv, i as int),
        decreases ls.len() - i,
    {
        if starts_with_str(&ls[i], "--- ") {
            return Some(i);
        }
        i += 1;
    }
    None
}

fn sub_lines(ls: &Vec<Vec<char>>, from: usize, to: usize) -> (r: Vec<Vec<char>>)
    requires
        from <= to <= ls.len(),
    ensures
        views(r@) == views(ls@).subrange(from as int, to as int),
{
    let mut out: Vec<Vec<char>> = Vec::new();
    let mut i: usize = from;
    while i < to
        invariant
            from <= i <= to <= ls.len(),
            views(out@) == views(ls@).subrange(from as int, i as int),
        decreases to - i,
    {
        push_line(&mut out, copy_chars(&ls[i]));
        assert(views(out@) =~= views(ls@).subrange(from as int, i + 1));
        i += 1;
    }
    out
}

/// [`arc_show_filter`] on characters.
pub fn arc_show_chars(raw: &Vec<char>) -> (r: Vec<char>)
    ensures
        r@ == arc_show_filter(raw@),
{
    let s = strip_ansi_lite_chars(raw);
    if trim_chars(&s).len() == 0 {
        return Vec::new();
    }
    let ls = split_lines(&s);
    match patch_start_exec(&ls) {
        None => arc_log_chars(&join_nl_exec(&ls), 1, true, false),
        Some(i) => {
            let head = sub_lines(&ls, 0, i);
            let tail = sub_lines(&ls, i, ls.len());
            assert(views(ls@).subrange(0, i as int) =~= views(ls@).take(i as int));
            assert(views(ls@).subrange(i as int, ls.len() as int) =~= views(ls@).skip(i as int));
            let header = arc_log_chars(&join_nl_exec(&head), 1, true, false);
            let compact = arc_diff_chars(&join_nl_exec(&tail));
            if header.len() == 0 {
                compact
            } else if compact.len() == 0 {
                header
            } else {
                let mut out = header;
                out.push('\n');
                append_chars(&mut out, &compact);
                out
            }
        },
    }
}

/// Compact commit header + patch body for `arc show` (see [`arc_show_filter`]).
pub fn filter_arc_show(raw: &str) -> (r: String)
    ensures
        r@ == arc_show_filter(raw@),
{
    string_of(&arc_show_chars(&chars_of(raw)))
}

// ---------------------------------------------------------------- guarded

/// `arc status` output as shown: the filter's, unless longer than the raw.
pub fn filter_arc_status_safe(raw: &str) -> (r: String)
    ensures
        r@ == never_worse(raw@, arc_status_filter(raw@)),
{
    let c = chars_of(raw);
    string_of(&never_worse_chars(&c, &arc_status_chars(&c)))
}

/// `arc log` output as shown: the filter's, unless longer than the raw.
pub fn filter_arc_log_safe(raw: &str, limit: usize, user_set_limit: bool, user_format: bool) -> (r:
    String)
    ensures
        r@ == never_worse(raw@, arc_log_filter(raw@, limit as nat, user_set_limit, user_format)),
{
    let c = chars_of(raw);
    string_of(&never_worse_chars(&c, &arc_log_chars(&c, limit, user_set_limit, user_format)))
}

/// `arc diff` output as shown: the filter's, unless longer than the raw.
pub fn filter_arc_diff_safe(raw: &str) -> (r: String)
    ensures
        r@ == never_worse(raw@, arc_diff_filter(raw@)),
{
    let c = chars_of(raw);
    string_of(&never_worse_chars(&c, &arc_diff_chars(&c)))
}

/// `arc show` output as shown: the filter's, unless longer than the raw.
pub fn filter_arc_show_safe(raw: &str) -> (r: String)
    ensures
        r@ == never_worse(raw@, arc_show_filter(raw@)),
{
    let c = chars_of(raw);
    string_of(&never_worse_chars(&c, &arc_show_chars(&c)))
}

// ---------------------------------------------------------------- laws

/// Exactly `status`, `log`, `diff` and `show` are filtered.
pub proof fn law_arc_routing(args: Seq<Seq<char>>)
    ensures
        pipeline_for(arc_kind_of(args)) == ArcPipeline::Passthrough <==> arc_kind_of(args)
            == ArcKind::Other,
{
}

/// The default limit is put in at most once: the argv it yields carries a
/// limit, and putting it in again changes nothing.
pub proof fn law_default_limit_once(args: Seq<Seq<char>>)
    requires
        args.len() > 0,
        args[0] == "log"@,
    ensures
        limit_from(with_default_limit(args), 1) is Some,
        with_default_limit(with_default_limit(args)) == with_default_limit(args),
{
    if limit_from(args, 1) is None {
        let w = with_default_limit(args);
        reveal_with_fuel(decimal, 3);
        assert(decimal(10) =~= seq!['1', '0']);
        assert(seq!['1', '0'][0] != '+');
        assert(crate::text::all_digits(seq!['1', '0']));
        assert(seq!['1', '0'].drop_last() =~= seq!['1']);
        assert(seq!['1'].drop_last() =~= Seq::<char>::empty());
        assert(('1' as u32) == 49);
        assert(('0' as u32) == 48);
        assert(crate::text::digits_value(Seq::<char>::empty()) == 0);
        assert(crate::text::digits_value(seq!['1']) == 1);
        assert(crate::text::digits_value(seq!['1', '0']) == 10);
        assert(w[1] == "-n"@);
        assert(w[2] == decimal(10));
        assert(usize_of(w[2]) == Some(10nat));
        assert(w[0] == "log"@);
    }
}

/// Number of `commit …` header lines.
pub open spec fn commit_headers(ls: Seq<Seq<char>>) -> nat
    decreases ls.len(),
{
    if ls.len() == 0 {
        0
    } else {
        commit_headers(ls.drop_last()) + if starts_with(ls.last(), "commit "@) {
            1nat
        } else {
            0nat
        }
    }
}

proof fn lemma_log_run_counts(ls: Seq<Seq<char>>, cap: nat)
    requires
        cap >= 1,
    ensures
        ({
            let (commits, cur, done) = log_run(ls, cap);
            let c = commit_headers(ls);
            &&& !done ==> commits.len() < cap && (cur is Some <==> c > 0) && commits.len() == (if c
                > 0 {
                c - 1
            } else {
                0
            })
            &&& done ==> commits.len() == cap && cur is None && c > cap
        }),
    decreases ls.len(),
{
    reveal(log_step);
    if ls.len() > 0 {
        let prev = ls.drop_last();
        lemma_log_run_counts(prev, cap);
        let line = ls.last();
        let (commits, cur, done) = log_run(prev, cap);
        let c0 = commit_headers(prev);
        assert(log_run(ls, cap) == log_step(log_run(prev, cap), line, cap));
        if !done && starts_with(line, "commit "@) {
            assert(commit_headers(ls) == c0 + 1);
            match cur {
                Some((h, d, sj)) => {
                    let commits2 = commits.push(commit_line(h, d, sj));
                    assert(commits2.len() == c0);
                },
                None => {
                    assert(c0 == 0);
                },
            }
        } else if !starts_with(line, "commit "@) {
            assert(commit_headers(ls) == c0);
        }
    }
}

/// A verbose log yields one line per commit, up to the cap: an explicit
/// user limit is honored in full, never cut further.
pub proof fn law_log_one_line_per_commit(ls: Seq<Seq<char>>, cap: nat)
    requires
        cap >= 1,
    ensures
        commit_lines(ls, cap).len() == if commit_headers(ls) <= cap {
            commit_headers(ls)
        } else {
            cap
        },
{
    lemma_log_run_counts(ls, cap);
    let (commits, cur, done) = log_run(ls, cap);
    let c = commit_headers(ls);
    if !done {
        match cur {
            Some((h, d, sj)) => {
                assert(commits.push(commit_line(h, d, sj)).len() == c);
            },
            None => {},
        }
    }
}

// ---------------------------------------------------------------- log laws

/// [`log_step`] over `ls`, from `st`.
pub open spec fn log_from(st: LogState, ls: Seq<Seq<char>>, limit: nat) -> LogState
    decreases ls.len(),
{
    if ls.len() == 0 {
        st
    } else {
        log_step(log_from(st, ls.drop_last(), limit), ls.last(), limit)
    }
}

/// Reading on at a `commit` header does not stop: no open commit, or room
/// for one more commit line.
pub open spec fn log_goes_on(st: LogState, limit: nat) -> bool {
    !st.2 && (st.1 is None || st.0.len() + 1 < limit)
}

/// A `commit` header opens a commit with no subject yet, whatever the
/// previous commit's subject was.
pub proof fn law_log_header_opens_fresh(st: LogState, line: Seq<char>, limit: nat)
    requires
        log_goes_on(st, limit),
        starts_with(line, "commit "@),
    ensures
        log_step(st, line, limit).1 matches Some((_, _, s)) && s is None,
        !log_step(st, line, limit).2,
{
    reveal(log_step);
}

/// The first message line of an open commit without a subject (not blank, not
/// `author:` / `date:` / `merge:` / `revision:` metadata, not a `commit`
/// header) becomes its subject, trimmed.
pub proof fn law_log_first_message_is_subject(
    st: LogState,
    line: Seq<char>,
    limit: nat,
    h: Seq<char>,
    d: Seq<char>,
)
    requires
        !st.2,
        st.1 == Some((h, d, None::<Seq<char>>)),
        !starts_with(line, "commit "@),
        !metadata_line(line),
        trim(line).len() > 0,
        !starts_with(trim(line), "revision:"@),
    ensures
        log_step(st, line, limit).1 == Some((h, d, Some(trim(line)))),
{
    reveal(log_step);
}

proof fn lemma_log_body_cur(st1: LogState, st2: LogState, body: Seq<Seq<char>>, limit: nat)
    requires
        !st1.2 && !st2.2,
        st1.1 == st2.1,
        forall|k: int| 0 <= k < body.len() ==> !starts_with(#[trigger] body[k], "commit "@),
    ensures
        log_from(st1, body, limit).1 == log_from(st2, body, limit).1,
        !log_from(st1, body, limit).2 && !log_from(st2, body, limit).2,
    decreases body.len(),
{
    reveal(log_step);
    if body.len() > 0 {
        let prev = body.drop_last();
        assert forall|k: int| 0 <= k < prev.len() implies !starts_with(#[trigger] prev[k], "commit "@) by {
            assert(prev[k] == body[k]);
        }
        lemma_log_body_cur(st1, st2, prev, limit);
        assert(!starts_with(body[body.len() - 1], "commit "@));
    }
}

/// A commit's subject comes from its own lines only: after a `commit` header
/// and the lines up to the next header, the open commit is the same whatever
/// the log held before (earlier commits, their subjects).
pub proof fn law_log_subject_from_own_lines(
    st1: LogState,
    st2: LogState,
    header: Seq<char>,
    body: Seq<Seq<char>>,
    limit: nat,
)
    requires
        log_goes_on(st1, limit),
        log_goes_on(st2, limit),
        starts_with(header, "commit "@),
        forall|k: int| 0 <= k < body.len() ==> !starts_with(#[trigger] body[k], "commit "@),
    ensures
        log_from(log_step(st1, header, limit), body, limit).1 == log_from(
            log_step(st2, header, limit),
            body,
            limit,
        ).1,
{
    reveal(log_step);
    lemma_log_body_cur(log_step(st1, header, limit), log_step(st2, header, limit), body, limit);
}

/// The log reader is [`log_from`] started with no commits and nothing open,
/// so the log laws above hold of every `commit` header and message line it
/// reads.
pub proof fn law_log_run_from_start(ls: Seq<Seq<char>>, limit: nat)
    ensures
        log_run(ls, limit) == log_from((seq![], None, false), ls, limit),
    decreases ls.len(),
{
    if ls.len() > 0 {
        law_log_run_from_start(ls.drop_last(), limit);
    }
}

} // verus!
