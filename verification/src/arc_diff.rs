//! `arc diff`: arc's unified diffs get `diff --git` headers, are compacted to
//! file paths, hunk headers, capped change lines and per-file `+N -M` counts,
//! then tightened further (a few changes per hunk; counts only when many
//! files changed).

use vstd::prelude::*;
use crate::text::{
    is_ws, lemma_line_state_concat, lemma_line_state_from_start, lemma_line_state_no_nl,
    lemma_trim_end_prefix, lemma_trim_start_tail, line_state, line_state_from, strip_cr,
    trim_end, trim_start, lemma_first_index_bounds, append_chars, before_char, before_char_exec, chars_of, contains, contains_str, copy_chars,
    decimal, decimal_chars, is_digit, join_nl, join_nl_exec, lemma_take_all, lemma_take_step,
    line_of, lines, push_line, push_str, second_piece, second_piece_exec, slice_chars, split_lines,
    starts_with, starts_with_str, string_of, trim, trim_chars, views,
};
use crate::util::{strip_ansi_lite, strip_ansi_lite_chars};

verus! {

/// Line budget of the compacted diff.
pub const ARC_DIFF_MAX_LINES: usize = 500;

/// Change lines kept per hunk by the compaction.
pub const MAX_HUNK_LINES: usize = 30;

/// Change lines kept per hunk by the tightening.
pub const MAX_CHANGE_PER_HUNK: usize = 3;

/// From this many files on, only paths and `+N -M` counts are kept.
pub const STAT_MODE_FILE_THRESHOLD: usize = 6;

// ---------------------------------------------------------------- normalize

/// `s` without any number of leading `p`.
pub open spec fn strip_all_prefix(s: Seq<char>, p: Seq<char>) -> Seq<char>
    decreases s.len(),
{
    if p.len() > 0 && starts_with(s, p) {
        strip_all_prefix(s.skip(p.len() as int), p)
    } else {
        s
    }
}

/// The path of a `+++ path\t(rev)` line, without `a/` / `b/` prefixes.
pub open spec fn diff_path(plus_line: Seq<char>) -> Seq<char> {
    let rest = if starts_with(plus_line, "+++ "@) {
        plus_line.skip("+++ "@.len() as int)
    } else {
        plus_line
    };
    let path = trim(before_char(rest, '\t'));
    if path == "/dev/null"@ {
        "dev/null"@
    } else {
        strip_all_prefix(strip_all_prefix(path, "a/"@), "b/"@)
    }
}

pub open spec fn git_header(path: Seq<char>) -> Seq<char> {
    "diff --git a/"@ + path + " b/"@ + path + seq!['\n']
}

/// A `---` / `+++` pair at `i` that no `diff --git` line announces.
pub open spec fn bare_pair_at(ls: Seq<Seq<char>>, i: int) -> bool {
    &&& starts_with(ls[i], "--- "@)
    &&& i + 1 < ls.len()
    &&& starts_with(ls[i + 1], "+++ "@)
    &&& (i == 0 || !starts_with(ls[i - 1], "diff --git"@))
}

/// Lines from `i` on, each ended by `\n`, with a `diff --git` header before
/// each bare `---` / `+++` pair.
pub open spec fn normalize_from(ls: Seq<Seq<char>>, i: int) -> Seq<char>
    decreases ls.len() - i,
{
    if i < 0 || i >= ls.len() {
        seq![]
    } else if bare_pair_at(ls, i) {
        git_header(diff_path(ls[i + 1])) + ls[i] + seq!['\n'] + ls[i + 1] + seq!['\n']
            + normalize_from(ls, i + 2)
    } else {
        ls[i] + seq!['\n'] + normalize_from(ls, i + 1)
    }
}

pub open spec fn normalize_diff(diff: Seq<char>) -> Seq<char> {
    normalize_from(lines(diff), 0)
}

fn strip_all_prefix_exec(s: &Vec<char>, p: &str) -> (r: Vec<char>)
    ensures
        r@ == strip_all_prefix(s@, p@),
{
    let pc = chars_of(p);
    let mut from: usize = 0;
    assert(s@.skip(0) =~= s@);
    while pc.len() > 0 && from <= s.len() && crate::text::occurs_at_exec(s, &pc, from)
        invariant
            from <= s.len(),
            pc@ == p@,
            strip_all_prefix(s@, p@) == strip_all_prefix(s@.skip(from as int), p@),
        decreases s.len() - from,
    {
        assert(starts_with(s@.skip(from as int), p@)) by {
            assert(s@.skip(from as int).subrange(0, p@.len() as int) =~= s@.subrange(
                from as int,
                from + p@.len(),
            ));
        }
        assert(s@.skip(from as int).skip(p@.len() as int) =~= s@.skip(from + p@.len()));
        from = from + pc.len();
    }
    if pc.len() > 0 && from <= s.len() {
        assert(!starts_with(s@.skip(from as int), p@)) by {
            if starts_with(s@.skip(from as int), p@) {
                assert(s@.skip(from as int).subrange(0, p@.len() as int) =~= s@.subrange(
                    from as int,
                    from + p@.len(),
                ));
            }
        }
    }
    slice_chars(s, from, s.len())
}

/// [`diff_path`] on characters.
pub fn extract_arc_diff_path(plus_line: &Vec<char>) -> (r: Vec<char>)
    ensures
        r@ == diff_path(plus_line@),
{
    let rest = if starts_with_str(plus_line, "+++ ") {
        let n = line_of("+++ ").len();
        slice_chars(plus_line, n, plus_line.len())
    } else {
        copy_chars(plus_line)
    };
    let path = trim_chars(&before_char_exec(&rest, '\t'));
    if crate::text::eq_str(&path, "/dev/null") {
        return line_of("dev/null");
    }
    let a = strip_all_prefix_exec(&path, "a/");
    strip_all_prefix_exec(&a, "b/")
}

/// [`normalize_diff`] on lines held as characters.
pub fn normalize_lines(ls: &Vec<Vec<char>>) -> (r: Vec<char>)
    ensures
        r@ == normalize_from(views(ls@), 0),
{
    let ghost lv = views(ls@);
    let mut out: Vec<char> = Vec::new();
    let mut i: usize = 0;
    while i < ls.len()
        invariant
            i <= ls.len(),
            lv == views(ls@),
            out@ + normalize_from(lv, i as int) == normalize_from(lv, 0),
        decreases ls.len() - i,
    {
        let pair = starts_with_str(&ls[i], "--- ") && i + 1 < ls.len() && starts_with_str(
            &ls[i + 1],
            "+++ ",
        ) && (i == 0 || !starts_with_str(&ls[i - 1], "diff --git"));
        if pair {
            let path = extract_arc_diff_path(&ls[i + 1]);
            let ghost before = out@;
            push_str(&mut out, "diff --git a/");
            append_chars(&mut out, &path);
            push_str(&mut out, " b/");
            append_chars(&mut out, &path);
            out.push('\n');
            append_chars(&mut out, &ls[i]);
            out.push('\n');
            append_chars(&mut out, &ls[i + 1]);
            out.push('\n');
            assert(out@ =~= before + git_header(diff_path(lv[i + 1])) + lv[i as int] + seq!['\n']
                + lv[i + 1] + seq!['\n']);
            i += 2;
        } else {
            append_chars(&mut out, &ls[i]);
            out.push('\n');
            i += 1;
        }
    }
    assert(normalize_from(lv, i as int) =~= Seq::<char>::empty());
    out
}

/// Inject `diff --git a/path b/path` before each arc `---` / `+++` file pair.
pub fn normalize_arc_unified_diff(diff: &str) -> (r: String)
    ensures
        r@ == normalize_diff(diff@),
{
    let ls = split_lines(&chars_of(diff));
    string_of(&normalize_lines(&ls))
}


// ---------------------------------------------------------------- compact

/// State of the diff compaction.
#[verifier::ext_equal]
pub struct DiffModel {
    pub out: Seq<Seq<char>>,
    pub file: Seq<char>,
    pub added: nat,
    pub removed: nat,
    pub in_hunk: bool,
    pub hunk: nat,
    pub truncated: bool,
    pub done: bool,
}

pub open spec fn diff_start() -> DiffModel {
    DiffModel {
        out: seq![],
        file: seq![],
        added: 0,
        removed: 0,
        in_hunk: false,
        hunk: 0,
        truncated: false,
        done: false,
    }
}

/// `  +A -R`.
pub open spec fn stat_line(added: nat, removed: nat) -> Seq<char> {
    "  +"@ + decimal(added) + " -"@ + decimal(removed)
}

/// The per-file counts of the current file, when it has any.
pub open spec fn with_file_stat(m: DiffModel) -> Seq<Seq<char>> {
    if m.file.len() > 0 && (m.added > 0 || m.removed > 0) {
        m.out.push(stat_line(m.added, m.removed))
    } else {
        m.out
    }
}

/// A change line inside a hunk: counted, kept while the hunk has room.
pub open spec fn hunk_change(m: DiffModel, line: Seq<char>, added: bool) -> DiffModel {
    let m1 = if added {
        DiffModel { added: m.added + 1, ..m }
    } else {
        DiffModel { removed: m.removed + 1, ..m }
    };
    if m.hunk < MAX_HUNK_LINES {
        DiffModel { out: m1.out.push("  "@ + line), hunk: m1.hunk + 1, ..m1 }
    } else {
        m1
    }
}

pub open spec fn hunk_line(m: DiffModel, line: Seq<char>) -> DiffModel {
    let m1 = if starts_with(line, "+"@) && !starts_with(line, "+++"@) {
        hunk_change(m, line, true)
    } else if starts_with(line, "-"@) && !starts_with(line, "---"@) {
        hunk_change(m, line, false)
    } else if m.hunk < MAX_HUNK_LINES && !starts_with(line, "\\"@) && m.hunk > 0 {
        DiffModel { out: m.out.push("  "@ + line), hunk: m.hunk + 1, ..m }
    } else {
        m
    };
    if m1.hunk == MAX_HUNK_LINES {
        DiffModel {
            out: m1.out.push("  ... (truncated)"@),
            hunk: m1.hunk + 1,
            truncated: true,
            ..m1
        }
    } else {
        m1
    }
}

#[verifier::opaque]
pub open spec fn diff_step(m: DiffModel, line: Seq<char>, max_lines: nat) -> DiffModel {
    if m.done {
        m
    } else {
        let m1 = if starts_with(line, "diff --git"@) {
            let f = match second_piece(line, " b/"@) {
                Some(f) => f,
                None => "unknown"@,
            };
            DiffModel {
                out: with_file_stat(m).push(seq!['\n'] + f),
                file: f,
                added: 0,
                removed: 0,
                in_hunk: false,
                ..m
            }
        } else if starts_with(line, "@@"@) {
            let info = match second_piece(line, "@@"@) {
                Some(x) => trim(x),
                None => seq![],
            };
            DiffModel { out: m.out.push("  @@ "@ + info + " @@"@), in_hunk: true, hunk: 0, ..m }
        } else if m.in_hunk {
            hunk_line(m, line)
        } else {
            m
        };
        if m1.out.len() >= max_lines {
            DiffModel {
                out: m1.out.push("\n... (more changes truncated)"@),
                truncated: true,
                done: true,
                ..m1
            }
        } else {
            m1
        }
    }
}

pub open spec fn diff_run(ls: Seq<Seq<char>>, max_lines: nat) -> DiffModel
    decreases ls.len(),
{
    if ls.len() == 0 {
        diff_start()
    } else {
        diff_step(diff_run(ls.drop_last(), max_lines), ls.last(), max_lines)
    }
}

pub const FULL_DIFF_HINT: &'static str = "[full diff: arc diff]";

/// Compact form of a git-style diff: `\n<path>` per file, hunk headers,
/// up to [`MAX_HUNK_LINES`] change lines per hunk, `+A -R` per file, at most
/// about `max_lines` lines.
pub open spec fn compact_diff_text(diff: Seq<char>, max_lines: nat) -> Seq<char> {
    compact_diff_text_of(lines(diff), max_lines)
}

fn stat_line_exec(added: usize, removed: usize) -> (r: Vec<char>)
    ensures
        r@ == stat_line(added as nat, removed as nat),
{
    let mut l = line_of("  +");
    append_chars(&mut l, &decimal_chars(added));
    push_str(&mut l, " -");
    append_chars(&mut l, &decimal_chars(removed));
    l
}

fn indented(line: &Vec<char>) -> (r: Vec<char>)
    ensures
        r@ == "  "@ + line@,
{
    let mut l = line_of("  ");
    append_chars(&mut l, line);
    l
}

struct DiffState {
    out: Vec<Vec<char>>,
    file: Vec<char>,
    added: usize,
    removed: usize,
    in_hunk: bool,
    hunk: usize,
    truncated: bool,
    done: bool,
}

impl DiffState {
    spec fn model(&self) -> DiffModel {
        DiffModel {
            out: views(self.out@),
            file: self.file@,
            added: self.added as nat,
            removed: self.removed as nat,
            in_hunk: self.in_hunk,
            hunk: self.hunk as nat,
            truncated: self.truncated,
            done: self.done,
        }
    }
}

fn hunk_line_exec(st: &mut DiffState, line: &Vec<char>)
    requires
        old(st).added < usize::MAX,
        old(st).removed < usize::MAX,
        old(st).hunk <= MAX_HUNK_LINES + 1,
    ensures
        final(st).model() == hunk_line(old(st).model(), line@),
        final(st).added <= old(st).added + 1,
        final(st).removed <= old(st).removed + 1,
        final(st).hunk <= MAX_HUNK_LINES + 1,
{
    if starts_with_str(line, "+") && !starts_with_str(line, "+++") {
        st.added = st.added + 1;
        if st.hunk < MAX_HUNK_LINES {
            push_line(&mut st.out, indented(line));
            st.hunk = st.hunk + 1;
        }
    } else if starts_with_str(line, "-") && !starts_with_str(line, "---") {
        st.removed = st.removed + 1;
        if st.hunk < MAX_HUNK_LINES {
            push_line(&mut st.out, indented(line));
            st.hunk = st.hunk + 1;
        }
    } else if st.hunk < MAX_HUNK_LINES && !starts_with_str(line, "\\") && st.hunk > 0 {
        push_line(&mut st.out, indented(line));
        st.hunk = st.hunk + 1;
    }
    if st.hunk == MAX_HUNK_LINES {
        push_line(&mut st.out, line_of("  ... (truncated)"));
        st.hunk = st.hunk + 1;
        st.truncated = true;
    }
    assert(st.model() =~= hunk_line(old(st).model(), line@));
}

fn diff_step_exec(st: &mut DiffState, line: &Vec<char>, max_lines: usize)
    requires
        old(st).added < usize::MAX,
        old(st).removed < usize::MAX,
        old(st).hunk <= MAX_HUNK_LINES + 1,
    ensures
        final(st).model() == diff_step(old(st).model(), line@, max_lines as nat),
        final(st).added <= old(st).added + 1,
        final(st).removed <= old(st).removed + 1,
        final(st).hunk <= MAX_HUNK_LINES + 1,
{
    proof {
        reveal(diff_step);
    }
    if st.done {
        return;
    }
    if starts_with_str(line, "diff --git") {
        if st.file.len() > 0 && (st.added > 0 || st.removed > 0) {
            push_line(&mut st.out, stat_line_exec(st.added, st.removed));
        }
        let f = match second_piece_exec(line, " b/") {
            Some(f) => f,
            None => line_of("unknown"),
        };
        let mut h: Vec<char> = Vec::new();
        h.push('\n');
        append_chars(&mut h, &f);
        push_line(&mut st.out, h);
        st.file = f;
        st.added = 0;
        st.removed = 0;
        st.in_hunk = false;
    } else if starts_with_str(line, "@@") {
        let info = match second_piece_exec(line, "@@") {
            Some(x) => trim_chars(&x),
            None => Vec::new(),
        };
        let mut h = line_of("  @@ ");
        append_chars(&mut h, &info);
        push_str(&mut h, " @@");
        push_line(&mut st.out, h);
        st.in_hunk = true;
        st.hunk = 0;
    } else if st.in_hunk {
        hunk_line_exec(st, line);
    }
    if st.out.len() >= max_lines {
        push_line(&mut st.out, line_of("\n... (more changes truncated)"));
        st.truncated = true;
        st.done = true;
    }
    assert(st.model() =~= diff_step(old(st).model(), line@, max_lines as nat));
}

/// [`compact_diff_text_of`] as code.
pub fn compact_diff_lines(ls: &Vec<Vec<char>>, max_lines: usize) -> (r: Vec<char>)
    ensures
        r@ == compact_diff_text_of(views(ls@), max_lines as nat),
{
    let ghost lv = views(ls@);
    let mut st = DiffState {
        out: Vec::new(),
        file: Vec::new(),
        added: 0,
        removed: 0,
        in_hunk: false,
        hunk: 0,
        truncated: false,
        done: false,
    };
    let mut i: usize = 0;
    assert(st.model() =~= diff_start());
    while i < ls.len()
        invariant
            i <= ls.len(),
            lv == views(ls@),
            st.added <= i,
            st.removed <= i,
            st.hunk <= MAX_HUNK_LINES + 1,
            diff_run(lv.take(i as int), max_lines as nat) == st.model(),
        decreases ls.len() - i,
    {
        proof {
            lemma_take_step(lv, i as int);
        }
        diff_step_exec(&mut st, &ls[i], max_lines);
        i += 1;
    }
    proof {
        lemma_take_all(lv);
    }
    if st.file.len() > 0 && (st.added > 0 || st.removed > 0) {
        push_line(&mut st.out, stat_line_exec(st.added, st.removed));
    }
    if st.truncated {
        push_line(&mut st.out, line_of(FULL_DIFF_HINT));
    }
    join_nl_exec(&st.out)
}

/// [`compact_diff_text`] over lines already split.
pub open spec fn compact_diff_text_of(ls: Seq<Seq<char>>, max_lines: nat) -> Seq<char> {
    let m = diff_run(ls, max_lines);
    let o = with_file_stat(m);
    join_nl(
        if m.truncated {
            o.push(FULL_DIFF_HINT@)
        } else {
            o
        },
    )
}


/// Compact a git-style diff (see [`compact_diff_text`]).
pub fn compact_diff(diff: &str, max_lines: usize) -> (r: String)
    ensures
        r@ == compact_diff_text(diff@, max_lines as nat),
{
    let ls = split_lines(&chars_of(diff));
    string_of(&compact_diff_lines(&ls, max_lines))
}

// ---------------------------------------------------------------- tighten

/// A line of the compacted diff that names a file.
pub open spec fn names_file(l: Seq<char>) -> bool {
    &&& l.len() > 0
    &&& !starts_with(l, " "@)
    &&& !starts_with(l, "\t"@)
    &&& !starts_with(trim(l), "..."@)
    &&& !starts_with(trim(l), "[full diff:"@)
}

pub open spec fn file_count(ls: Seq<Seq<char>>) -> nat
    decreases ls.len(),
{
    if ls.len() == 0 {
        0
    } else {
        file_count(ls.drop_last()) + if names_file(ls.last()) {
            1nat
        } else {
            0nat
        }
    }
}

/// State of the tightening.
#[verifier::ext_equal]
pub struct TightModel {
    pub out: Seq<Seq<char>>,
    pub shown: nat,
    pub skipped: nat,
    pub in_hunk: bool,
    pub pending: Option<Seq<char>>,
}

pub open spec fn tight_start() -> TightModel {
    TightModel { out: seq![], shown: 0, skipped: 0, in_hunk: false, pending: None }
}

/// `  ... (N more changed lines)` for skipped change lines.
pub open spec fn flush_skipped(m: TightModel) -> TightModel {
    if m.skipped > 0 {
        TightModel {
            out: m.out.push("  ... ("@ + decimal(m.skipped) + " more changed lines)"@),
            skipped: 0,
            ..m
        }
    } else {
        m
    }
}

/// A path held back in count-only mode is emitted.
pub open spec fn flush_pending(m: TightModel) -> TightModel {
    match m.pending {
        Some(p) => TightModel { out: m.out.push(p), pending: None, ..m },
        None => m,
    }
}

/// A `+N -M` count line.
pub open spec fn count_summary(t: Seq<char>) -> bool {
    starts_with(t, "+"@) && contains(t, " -"@) && t.len() > 1 && is_digit(t[1])
}

pub open spec fn change_line(t: Seq<char>) -> bool {
    (starts_with(t, "+"@) && !starts_with(t, "+++"@)) || (starts_with(t, "-"@) && !starts_with(
        t,
        "---"@,
    ))
}

pub open spec fn tight_step(m: TightModel, line: Seq<char>, stat: bool) -> TightModel {
    let t = trim(line);
    if line.len() == 0 || t.len() == 0 {
        m
    } else if !starts_with(line, " "@) && !starts_with(line, "\t"@) {
        let m1 = flush_skipped(m);
        let m2 = if stat {
            TightModel { pending: Some(t), ..flush_pending(m1) }
        } else {
            TightModel { out: m1.out.push(t), ..m1 }
        };
        TightModel { in_hunk: false, shown: 0, ..m2 }
    } else if starts_with(t, "..."@) || starts_with(t, "[full diff:"@) || count_summary(t) {
        let m1 = flush_pending(flush_skipped(m));
        TightModel { out: m1.out.push("  "@ + t), in_hunk: false, ..m1 }
    } else if stat {
        m
    } else if starts_with(t, "@@"@) {
        let m1 = flush_skipped(m);
        TightModel { out: m1.out.push("  "@ + t), in_hunk: true, shown: 0, ..m1 }
    } else if m.in_hunk && change_line(t) {
        if m.shown < MAX_CHANGE_PER_HUNK {
            TightModel { out: m.out.push("  "@ + t), shown: m.shown + 1, ..m }
        } else {
            TightModel { skipped: m.skipped + 1, ..m }
        }
    } else {
        m
    }
}

pub open spec fn tight_run(ls: Seq<Seq<char>>, stat: bool) -> TightModel
    decreases ls.len(),
{
    if ls.len() == 0 {
        tight_start()
    } else {
        tight_step(tight_run(ls.drop_last(), stat), ls.last(), stat)
    }
}

/// [`tight_step`] over `ls`, from `m`.
pub open spec fn tight_from(m: TightModel, ls: Seq<Seq<char>>, stat: bool) -> TightModel
    decreases ls.len(),
{
    if ls.len() == 0 {
        m
    } else {
        tight_step(tight_from(m, ls.drop_last(), stat), ls.last(), stat)
    }
}

/// An indented line of a diff body (not a path line).
pub open spec fn body_line(line: Seq<char>) -> bool {
    starts_with(line, " "@) || starts_with(line, "\t"@)
}

proof fn lemma_indented_nonempty(line: Seq<char>)
    requires
        body_line(line),
    ensures
        line.len() > 0,
{
    reveal_strlit(" ");
    reveal_strlit("\t");
}

/// Every hunk header starts a fresh hunk, whatever came before: it is shown,
/// and the first [`MAX_CHANGE_PER_HUNK`] change lines after it (each
/// indented, `+…` / `-…` but not `+++` / `---`, and not a `+N -M` count) are
/// all shown, in order. So every hunk of a file, not only the first, shows
/// its first changes.
pub proof fn law_tight_every_hunk_shows_changes(m: TightModel, h: Seq<char>, cs: Seq<Seq<char>>)
    requires
        body_line(h),
        starts_with(trim(h), "@@"@),
        cs.len() <= MAX_CHANGE_PER_HUNK,
        forall|k: int|
            0 <= k < cs.len() ==> body_line(#[trigger] cs[k]) && change_line(trim(cs[k]))
                && !count_summary(trim(cs[k])),
    ensures
        tight_from(tight_step(m, h, false), cs, false).out == flush_skipped(m).out.push("  "@ + trim(h))
            + cs.map_values(|c: Seq<char>| "  "@ + trim(c)),
        tight_from(tight_step(m, h, false), cs, false).shown == cs.len(),
        tight_from(tight_step(m, h, false), cs, false).in_hunk,
    decreases cs.len(),
{
    reveal_strlit("@@");
    reveal_strlit("...");
    reveal_strlit("[full diff:");
    reveal_strlit("+");
    reveal_strlit("-");
    lemma_indented_nonempty(h);
    let t = trim(h);
    assert(t.len() > 0 && t[0] == '@') by {
        assert(t.subrange(0, 2)[0] == t[0]);
    }
    assert(!starts_with(t, "..."@)) by {
        if starts_with(t, "..."@) {
            assert(t.subrange(0, 3)[0] == t[0]);
        }
    }
    assert(!starts_with(t, "[full diff:"@)) by {
        if starts_with(t, "[full diff:"@) {
            assert(t.subrange(0, 11)[0] == t[0]);
        }
    }
    assert(!count_summary(t)) by {
        if starts_with(t, "+"@) {
            assert(t.subrange(0, 1)[0] == t[0]);
        }
    }
    let m0 = tight_step(m, h, false);
    assert(m0.shown == 0 && m0.in_hunk && m0.out == flush_skipped(m).out.push("  "@ + t));
    if cs.len() == 0 {
        assert(cs.map_values(|c: Seq<char>| "  "@ + trim(c)) =~= Seq::<Seq<char>>::empty());
        assert(m0.out + Seq::<Seq<char>>::empty() =~= m0.out);
    } else {
        let prev = cs.drop_last();
        assert forall|k: int|
            0 <= k < prev.len() implies body_line(#[trigger] prev[k]) && change_line(trim(prev[k]))
                && !count_summary(trim(prev[k])) by {
            assert(prev[k] == cs[k]);
        }
        law_tight_every_hunk_shows_changes(m, h, prev);
        let mp = tight_from(m0, prev, false);
        let c = cs.last();
        let u = trim(c);
        assert(body_line(cs[cs.len() - 1]) && change_line(trim(cs[cs.len() - 1])) && !count_summary(
            trim(cs[cs.len() - 1]),
        ));
        lemma_indented_nonempty(c);
        assert(u.len() > 0 && (u[0] == '+' || u[0] == '-')) by {
            if starts_with(u, "+"@) {
                assert(u.subrange(0, 1)[0] == u[0]);
            } else {
                assert(u.subrange(0, 1)[0] == u[0]);
            }
        }
        assert(!starts_with(u, "..."@)) by {
            if starts_with(u, "..."@) {
                assert(u.subrange(0, 3)[0] == u[0]);
            }
        }
        assert(!starts_with(u, "[full diff:"@)) by {
            if starts_with(u, "[full diff:"@) {
                assert(u.subrange(0, 11)[0] == u[0]);
            }
        }
        assert(!starts_with(u, "@@"@)) by {
            if starts_with(u, "@@"@) {
                assert(u.subrange(0, 2)[0] == u[0]);
            }
        }
        let mc = tight_step(mp, c, false);
        assert(mc.out == mp.out.push("  "@ + u));
        assert(cs.map_values(|c: Seq<char>| "  "@ + trim(c)) =~= prev.map_values(
            |c: Seq<char>| "  "@ + trim(c),
        ).push("  "@ + u));
    }
}

/// The tightening never shows more than [`MAX_CHANGE_PER_HUNK`] change lines
/// of the current hunk (the rest are counted for the `... (N more changed
/// lines)` note), and in count-only mode it shows and counts none.
pub proof fn law_tight_hunk_cap(ls: Seq<Seq<char>>, stat: bool)
    ensures
        tight_run(ls, stat).shown <= MAX_CHANGE_PER_HUNK,
        stat ==> tight_run(ls, stat).shown == 0 && tight_run(ls, stat).skipped == 0,
    decreases ls.len(),
{
    if ls.len() > 0 {
        law_tight_hunk_cap(ls.drop_last(), stat);
    }
}

/// Paths, hunk headers and up to [`MAX_CHANGE_PER_HUNK`] changes per hunk
/// (the rest counted); from [`STAT_MODE_FILE_THRESHOLD`] files on, paths and
/// their `+N -M` counts only.
pub open spec fn tighten(ls: Seq<Seq<char>>) -> Seq<char> {
    let stat = file_count(ls) >= STAT_MODE_FILE_THRESHOLD;
    join_nl(flush_pending(flush_skipped(tight_run(ls, stat))).out)
}

fn file_count_exec(ls: &Vec<Vec<char>>) -> (r: usize)
    ensures
        r == file_count(views(ls@)),
{
    let mut n: usize = 0;
    let mut i: usize = 0;
    while i < ls.len()
        invariant
            i <= ls.len(),
            n <= i,
            n == file_count(views(ls@).take(i as int)),
        decreases ls.len() - i,
    {
        proof {
            lemma_take_step(views(ls@), i as int);
        }
        let l = &ls[i];
        let t = trim_chars(l);
        if l.len() > 0 && !starts_with_str(l, " ") && !starts_with_str(l, "\t") && !starts_with_str(
            &t,
            "...",
        ) && !starts_with_str(&t, "[full diff:") {
            n = n + 1;
        }
        i += 1;
    }
    proof {
        lemma_take_all(views(ls@));
    }
    n
}

/// [`tighten`] as code.
pub fn tighten_arc_diff(ls: &Vec<Vec<char>>) -> (r: Vec<char>)
    ensures
        r@ == tighten(views(ls@)),
{
    let ghost lv = views(ls@);
    let stat = file_count_exec(ls) >= STAT_MODE_FILE_THRESHOLD;
    let mut out: Vec<Vec<char>> = Vec::new();
    let mut shown: usize = 0;
    let mut skipped: usize = 0;
    let mut in_hunk = false;
    let mut pending: Option<Vec<char>> = None;
    let mut i: usize = 0;
    while i < ls.len()
        invariant
            i <= ls.len(),
            lv == views(ls@),
            stat == (file_count(lv) >= STAT_MODE_FILE_THRESHOLD),
            shown <= MAX_CHANGE_PER_HUNK,
            skipped <= i,
            tight_run(lv.take(i as int), stat) == (TightModel {
                out: views(out@),
                shown: shown as nat,
                skipped: skipped as nat,
                in_hunk,
                pending: match pending {
                    Some(p) => Some(p@),
                    None => None,
                },
            }),
        decreases ls.len() - i,
    {
        proof {
            lemma_take_step(lv, i as int);
        }
        let line = &ls[i];
        let t = trim_chars(line);
        if line.len() == 0 || t.len() == 0 {
        } else if !starts_with_str(line, " ") && !starts_with_str(line, "\t") {
            flush_skipped_exec(&mut out, &mut skipped);
            if stat {
                flush_pending_exec(&mut out, &mut pending);
                pending = Some(t);
            } else {
                push_line(&mut out, t);
            }
            in_hunk = false;
            shown = 0;
        } else if starts_with_str(&t, "...") || starts_with_str(&t, "[full diff:")
            || count_summary_exec(&t) {
            flush_skipped_exec(&mut out, &mut skipped);
            flush_pending_exec(&mut out, &mut pending);
            push_line(&mut out, indented(&t));
            in_hunk = false;
        } else if stat {
        } else if starts_with_str(&t, "@@") {
            flush_skipped_exec(&mut out, &mut skipped);
            push_line(&mut out, indented(&t));
            in_hunk = true;
            shown = 0;
        } else if in_hunk && ((starts_with_str(&t, "+") && !starts_with_str(&t, "+++")) || (
        starts_with_str(&t, "-") && !starts_with_str(&t, "---"))) {
            if shown < MAX_CHANGE_PER_HUNK {
                push_line(&mut out, indented(&t));
                shown = shown + 1;
            } else {
                skipped = skipped + 1;
            }
        }
        i += 1;
    }
    proof {
        lemma_take_all(lv);
    }
    flush_skipped_exec(&mut out, &mut skipped);
    flush_pending_exec(&mut out, &mut pending);
    join_nl_exec(&out)
}

fn count_summary_exec(t: &Vec<char>) -> (r: bool)
    ensures
        r == count_summary(t@),
{
    starts_with_str(t, "+") && contains_str(t, " -") && t.len() > 1 && '0' <= t[1] && t[1] <= '9'
}

fn flush_skipped_exec(out: &mut Vec<Vec<char>>, skipped: &mut usize)
    ensures
        *final(skipped) == 0,
        views(final(out)@) == (if *old(skipped) > 0 {
            views(old(out)@).push("  ... ("@ + decimal(*old(skipped) as nat) + " more changed lines)"@)
        } else {
            views(old(out)@)
        }),
{
    if *skipped > 0 {
        let mut l = line_of("  ... (");
        append_chars(&mut l, &decimal_chars(*skipped));
        push_str(&mut l, " more changed lines)");
        push_line(out, l);
        *skipped = 0;
    }
}

fn flush_pending_exec(out: &mut Vec<Vec<char>>, pending: &mut Option<Vec<char>>)
    ensures
        *final(pending) is None,
        views(final(out)@) == match *old(pending) {
            Some(p) => views(old(out)@).push(p@),
            None => views(old(out)@),
        },
{
    match pending.take() {
        Some(p) => push_line(out, p),
        None => {},
    }
}

// ---------------------------------------------------------------- filter

/// The `arc diff` filter: ANSI removed; blank text gives nothing; otherwise
/// normalized, compacted to [`ARC_DIFF_MAX_LINES`] lines and tightened.
pub open spec fn arc_diff_filter(raw: Seq<char>) -> Seq<char> {
    let s = strip_ansi_lite(raw);
    if trim(s).len() == 0 {
        seq![]
    } else {
        tighten(lines(compact_diff_text(normalize_diff(s), ARC_DIFF_MAX_LINES as nat)))
    }
}

/// [`arc_diff_filter`] on characters.
pub fn arc_diff_chars(raw: &Vec<char>) -> (r: Vec<char>)
    ensures
        r@ == arc_diff_filter(raw@),
{
    let s = strip_ansi_lite_chars(raw);
    if trim_chars(&s).len() == 0 {
        return Vec::new();
    }
    let normalized = normalize_lines(&split_lines(&s));
    let compacted = compact_diff_lines(&split_lines(&normalized), ARC_DIFF_MAX_LINES);
    tighten_arc_diff(&split_lines(&compacted))
}

/// Normalize an arc unified diff, then compact it (see [`arc_diff_filter`]).
pub fn filter_arc_diff(raw: &str) -> (r: String)
    ensures
        r@ == arc_diff_filter(raw@),
{
    string_of(&arc_diff_chars(&chars_of(raw)))
}

// ---------------------------------------------------------------- normalize law

/// The `diff --git a/P b/P` line, without its `\n`.
pub open spec fn header_line(path: Seq<char>) -> Seq<char> {
    "diff --git a/"@ + path + " b/"@ + path
}

/// The lines [`normalize_from`] writes, each later ended by `\n`.
pub open spec fn normalized_lines(ls: Seq<Seq<char>>, i: int) -> Seq<Seq<char>>
    decreases ls.len() - i,
{
    if i < 0 || i >= ls.len() {
        seq![]
    } else if bare_pair_at(ls, i) {
        seq![header_line(diff_path(ls[i + 1])), ls[i], ls[i + 1]] + normalized_lines(ls, i + 2)
    } else {
        seq![ls[i]] + normalized_lines(ls, i + 1)
    }
}

/// Each line followed by `\n`.
pub open spec fn terminated(ls: Seq<Seq<char>>) -> Seq<char>
    decreases ls.len(),
{
    if ls.len() == 0 {
        seq![]
    } else {
        ls[0] + seq!['\n'] + terminated(ls.drop_first())
    }
}

/// No `\n` inside, and no `\r` at the end.
pub open spec fn plain_line(l: Seq<char>) -> bool {
    (forall|k: int| 0 <= k < l.len() ==> l[k] != '\n') && !(l.len() > 0 && l.last() == '\r')
}

proof fn lemma_normalize_terminated(ls: Seq<Seq<char>>, i: int)
    ensures
        normalize_from(ls, i) == terminated(normalized_lines(ls, i)),
    decreases ls.len() - i,
{
    if 0 <= i < ls.len() {
        if bare_pair_at(ls, i) {
            lemma_normalize_terminated(ls, i + 2);
            let h = header_line(diff_path(ls[i + 1]));
            let rest = normalized_lines(ls, i + 2);
            let o = seq![h, ls[i], ls[i + 1]] + rest;
            assert(o.drop_first() =~= seq![ls[i], ls[i + 1]] + rest);
            assert(o.drop_first().drop_first() =~= seq![ls[i + 1]] + rest);
            assert(o.drop_first().drop_first().drop_first() =~= rest);
            assert(git_header(diff_path(ls[i + 1])) =~= h + seq!['\n']);
            let o1 = o.drop_first();
            let o2 = o1.drop_first();
            let o3 = o2.drop_first();
            assert(o3 == rest);
            assert(terminated(o2) == ls[i + 1] + seq!['\n'] + terminated(o3));
            assert(terminated(o1) == ls[i] + seq!['\n'] + terminated(o2));
            assert(terminated(o) == h + seq!['\n'] + terminated(o1));
            assert(normalize_from(ls, i) =~= terminated(o));
        } else {
            lemma_normalize_terminated(ls, i + 1);
            let o = seq![ls[i]] + normalized_lines(ls, i + 1);
            assert(o.drop_first() =~= normalized_lines(ls, i + 1));
        }
    }
}

proof fn lemma_lines_terminated(d: Seq<Seq<char>>, ls: Seq<Seq<char>>)
    requires
        forall|k: int| 0 <= k < ls.len() ==> plain_line(#[trigger] ls[k]),
    ensures
        line_state_from((d, seq![]), terminated(ls)) == (d + ls, Seq::<char>::empty()),
    decreases ls.len(),
{
    if ls.len() == 0 {
        assert(d + ls =~= d);
    } else {
        let l = ls[0];
        let rest = ls.drop_first();
        assert(plain_line(l));
        lemma_line_state_concat((d, seq![]), l + seq!['\n'], terminated(rest));
        lemma_line_state_concat((d, seq![]), l, seq!['\n']);
        lemma_line_state_no_nl((d, seq![]), l);
        assert(Seq::<char>::empty() + l =~= l);
        let s1 = line_state_from((d, seq![]), l);
        assert(seq!['\n'].drop_last() =~= Seq::<char>::empty());
        assert(line_state_from(s1, seq!['\n'].drop_last()) == s1);
        assert(strip_cr(l) == l);
        assert forall|k: int| 0 <= k < rest.len() implies plain_line(#[trigger] rest[k]) by {
            assert(rest[k] == ls[k + 1]);
        }
        lemma_lines_terminated(d.push(l), rest);
        assert(d.push(l) + rest =~= d + ls);
    }
}

proof fn lemma_lines_of_terminated(ls: Seq<Seq<char>>)
    requires
        forall|k: int| 0 <= k < ls.len() ==> plain_line(#[trigger] ls[k]),
    ensures
        lines(terminated(ls)) == ls,
{
    lemma_line_state_from_start(terminated(ls));
    lemma_lines_terminated(seq![], ls);
    assert(Seq::<Seq<char>>::empty() + ls =~= ls);
}

/// The first line [`normalized_lines`] writes from `k`.
proof fn lemma_normalized_first(ls: Seq<Seq<char>>, k: int)
    requires
        0 <= k < ls.len(),
    ensures
        normalized_lines(ls, k).len() > 0,
        normalized_lines(ls, k)[0] == (if bare_pair_at(ls, k) {
            header_line(diff_path(ls[k + 1]))
        } else {
            ls[k]
        }),
{
}

proof fn lemma_literal_starts()
    ensures
        forall|p: Seq<char>| starts_with(#[trigger] header_line(p), "diff --git"@),
        forall|p: Seq<char>| !starts_with(#[trigger] header_line(p), "--- "@),
        forall|p: Seq<char>| !starts_with(#[trigger] header_line(p), "+++ "@),
        forall|l: Seq<char>| starts_with(l, "+++ "@) ==> !#[trigger] starts_with(l, "--- "@),
        forall|l: Seq<char>| starts_with(l, "+++ "@) ==> !#[trigger] starts_with(l, "diff --git"@),
{
    reveal_strlit("diff --git a/");
    reveal_strlit("diff --git");
    reveal_strlit("--- ");
    reveal_strlit("+++ ");
    assert forall|p: Seq<char>| starts_with(#[trigger] header_line(p), "diff --git"@) by {
        assert(header_line(p).subrange(0, 10) =~= "diff --git"@);
    }
    assert forall|p: Seq<char>| !starts_with(#[trigger] header_line(p), "--- "@) by {
        assert(header_line(p)[0] == 'd');
        if starts_with(header_line(p), "--- "@) {
            assert(header_line(p).subrange(0, 4)[0] == header_line(p)[0]);
        }
    }
    assert forall|p: Seq<char>| !starts_with(#[trigger] header_line(p), "+++ "@) by {
        assert(header_line(p)[0] == 'd');
        if starts_with(header_line(p), "+++ "@) {
            assert(header_line(p).subrange(0, 4)[0] == header_line(p)[0]);
        }
    }
    assert forall|l: Seq<char>| starts_with(l, "+++ "@) implies !#[trigger] starts_with(l, "--- "@) by {
        assert(l.subrange(0, 4)[0] == l[0]);
    }
    assert forall|l: Seq<char>| starts_with(l, "+++ "@) implies !#[trigger] starts_with(
        l,
        "diff --git"@,
    ) by {
        assert(l.subrange(0, 4)[0] == l[0]);
        if starts_with(l, "diff --git"@) {
            assert(l.subrange(0, 10)[0] == l[0]);
        }
    }
}

/// In what [`normalized_lines`] writes from `j`, every `---` line followed by
/// a `+++` line is announced by a `diff --git` line: the one before it, or,
/// at the very start, the input line before `j`.
proof fn lemma_normalized_announced(ls: Seq<Seq<char>>, j: int)
    requires
        0 <= j,
    ensures
        forall|i: int|
            0 <= i && i + 1 < normalized_lines(ls, j).len() && starts_with(
                #[trigger] normalized_lines(ls, j)[i],
                "--- "@,
            ) && starts_with(normalized_lines(ls, j)[i + 1], "+++ "@) ==> (i > 0 && starts_with(
                normalized_lines(ls, j)[i - 1],
                "diff --git"@,
            )) || (i == 0 && j > 0 && j - 1 < ls.len() && starts_with(ls[j - 1], "diff --git"@)),
    decreases ls.len() - j,
{
    lemma_literal_starts();
    let o = normalized_lines(ls, j);
    if j < ls.len() {
        if bare_pair_at(ls, j) {
            lemma_normalized_announced(ls, j + 2);
            let h = header_line(diff_path(ls[j + 1]));
            let o2 = normalized_lines(ls, j + 2);
            assert forall|i: int|
                0 <= i && i + 1 < o.len() && starts_with(#[trigger] o[i], "--- "@) && starts_with(
                    o[i + 1],
                    "+++ "@,
                ) implies (i > 0 && starts_with(o[i - 1], "diff --git"@)) || (i == 0 && j > 0 && j
                - 1 < ls.len() && starts_with(ls[j - 1], "diff --git"@)) by {
                if i == 0 {
                    assert(o[0] == h);
                } else if i == 1 {
                    assert(o[0] == h);
                } else if i == 2 {
                    assert(o[2] == ls[j + 1]);
                } else {
                    assert(o[i] == o2[i - 3]);
                    assert(o[i + 1] == o2[i - 2]);
                    assert(o[i - 1] == (if i == 3 { ls[j + 1] } else { o2[i - 4] }));
                }
            }
        } else {
            lemma_normalized_announced(ls, j + 1);
            let o1 = normalized_lines(ls, j + 1);
            assert forall|i: int|
                0 <= i && i + 1 < o.len() && starts_with(#[trigger] o[i], "--- "@) && starts_with(
                    o[i + 1],
                    "+++ "@,
                ) implies (i > 0 && starts_with(o[i - 1], "diff --git"@)) || (i == 0 && j > 0 && j
                - 1 < ls.len() && starts_with(ls[j - 1], "diff --git"@)) by {
                if i == 0 {
                    assert(o[1] == o1[0]);
                    lemma_normalized_first(ls, j + 1);
                    if bare_pair_at(ls, j + 1) {
                        assert(o1[0] == header_line(diff_path(ls[j + 2])));
                    } else {
                        assert(o1[0] == ls[j + 1]);
                        assert(!bare_pair_at(ls, j));
                    }
                } else {
                    assert(o[i] == o1[i - 1]);
                    assert(o[i + 1] == o1[i]);
                    assert(o[i - 1] == (if i == 1 { ls[j] } else { o1[i - 2] }));
                }
            }
        }
    }
}

/// Lines without a bare `---` / `+++` pair are written back unchanged.
proof fn lemma_normalized_identity(m: Seq<Seq<char>>, j: int)
    requires
        0 <= j <= m.len(),
        forall|i: int| 0 <= i < m.len() ==> !#[trigger] bare_pair_at(m, i),
    ensures
        normalized_lines(m, j) == m.skip(j),
    decreases m.len() - j,
{
    if j < m.len() {
        lemma_normalized_identity(m, j + 1);
        assert(seq![m[j]] + m.skip(j + 1) =~= m.skip(j));
    } else {
        assert(m.skip(j) =~= Seq::<Seq<char>>::empty());
    }
}

proof fn lemma_line_state_no_newlines(s: Seq<char>)
    ensures
        forall|k: int, i: int|
            0 <= k < line_state(s).0.len() && 0 <= i < line_state(s).0[k].len() ==> #[trigger] line_state(s).0[k][i] != '\n',
        forall|i: int| 0 <= i < line_state(s).1.len() ==> #[trigger] line_state(s).1[i] != '\n',
    decreases s.len(),
{
    if s.len() > 0 {
        lemma_line_state_no_newlines(s.drop_last());
        let (done, cur) = line_state(s.drop_last());
        if s.last() == '\n' {
            let c = strip_cr(cur);
            assert forall|i: int| 0 <= i < c.len() implies c[i] != '\n' by {
                assert(c[i] == cur[i]);
            }
            assert forall|k: int, i: int|
                0 <= k < line_state(s).0.len() && 0 <= i < line_state(s).0[k].len() implies #[trigger] line_state(s).0[k][i] != '\n' by {
                if k < done.len() {
                    assert(line_state(s).0[k] == done[k]);
                } else {
                    assert(line_state(s).0[k] == c);
                }
            }
        } else {
            assert forall|i: int| 0 <= i < line_state(s).1.len() implies #[trigger] line_state(s).1[i] != '\n' by {
                if i < cur.len() {
                    assert(line_state(s).1[i] == cur[i]);
                }
            }
        }
    }
}

proof fn lemma_lines_no_newlines(s: Seq<char>)
    ensures
        forall|k: int, i: int|
            0 <= k < lines(s).len() && 0 <= i < lines(s)[k].len() ==> #[trigger] lines(s)[k][i] != '\n',
{
    lemma_line_state_no_newlines(s);
    let (done, cur) = line_state(s);
    assert forall|k: int, i: int|
        0 <= k < lines(s).len() && 0 <= i < lines(s)[k].len() implies #[trigger] lines(s)[k][i] != '\n' by {
        if k < done.len() {
            assert(lines(s)[k] == done[k]);
        } else {
            assert(lines(s)[k] == cur);
        }
    }
}

proof fn lemma_strip_all_suffix(s: Seq<char>, p: Seq<char>)
    ensures
        exists|j: int| 0 <= j <= s.len() && strip_all_prefix(s, p) == #[trigger] s.skip(j),
    decreases s.len(),
{
    if p.len() > 0 && starts_with(s, p) {
        let r = s.skip(p.len() as int);
        lemma_strip_all_suffix(r, p);
        let j = choose|j: int| 0 <= j <= r.len() && strip_all_prefix(r, p) == #[trigger] r.skip(j);
        assert(r.skip(j) =~= s.skip(j + p.len()));
    } else {
        assert(s.skip(0) =~= s);
    }
}

proof fn lemma_trim_end_last(s: Seq<char>)
    ensures
        trim_end(s).len() == 0 || !is_ws(trim_end(s).last()),
    decreases s.len(),
{
    if s.len() > 0 && is_ws(s.last()) {
        lemma_trim_end_last(s.drop_last());
    }
}

/// The path of a `+++` line without `\n` has no `\n`, and does not end with
/// `\r`.
proof fn lemma_diff_path_plain(l: Seq<char>)
    requires
        forall|k: int| 0 <= k < l.len() ==> l[k] != '\n',
    ensures
        plain_line(diff_path(l)),
{
    reveal_strlit("dev/null");
    let rest = if starts_with(l, "+++ "@) {
        l.skip("+++ "@.len() as int)
    } else {
        l
    };
    let b = before_char(rest, '\t');
    let a = trim_start(b);
    let path = trim(b);
    lemma_trim_start_tail(b);
    lemma_trim_end_prefix(a);
    lemma_trim_end_last(a);
    assert(path == trim_end(a));
    lemma_first_index_bounds(rest, '\t');
    assert(b.len() <= rest.len());
    assert forall|k: int| 0 <= k < rest.len() implies rest[k] != '\n' by {
        if starts_with(l, "+++ "@) {
            assert(rest[k] == l[k + "+++ "@.len()]);
        }
    }
    assert forall|k: int| 0 <= k < path.len() implies path[k] != '\n' by {
        assert(path[k] == a[k]);
        assert(a[k] == b[k + (b.len() - a.len())]);
        assert(b[k + (b.len() - a.len())] == rest[k + (b.len() - a.len())]);
    }
    assert(is_ws('\r'));
    if path != "/dev/null"@ {
        let q = strip_all_prefix(path, "a/"@);
        lemma_strip_all_suffix(path, "a/"@);
        let j1 = choose|j: int| 0 <= j <= path.len() && q == #[trigger] path.skip(j);
        let r = strip_all_prefix(q, "b/"@);
        lemma_strip_all_suffix(q, "b/"@);
        let j2 = choose|j: int| 0 <= j <= q.len() && r == #[trigger] q.skip(j);
        assert forall|k: int| 0 <= k < r.len() implies r[k] != '\n' by {
            assert(r[k] == q[k + j2]);
            assert(q[k + j2] == path[k + j2 + j1]);
        }
        if r.len() > 0 {
            assert(r.last() == path.last());
        }
    }
}

/// The header written for a `+++` line without `\n` is a plain line.
proof fn lemma_header_plain(l: Seq<char>)
    requires
        forall|k: int| 0 <= k < l.len() ==> l[k] != '\n',
    ensures
        plain_line(header_line(diff_path(l))),
{
    reveal_strlit("diff --git a/");
    reveal_strlit(" b/");
    lemma_diff_path_plain(l);
    let p = diff_path(l);
    let h = header_line(p);
    let pre = "diff --git a/"@ + p + " b/"@;
    assert(h == pre + p);
    assert forall|k: int| 0 <= k < h.len() implies h[k] != '\n' by {
        if k < 13 {
            assert(h[k] == "diff --git a/"@[k]);
        } else if k < 13 + p.len() {
            assert(h[k] == p[k - 13]);
        } else if k < 16 + p.len() {
            assert(h[k] == " b/"@[k - 13 - p.len()]);
        } else {
            assert(h[k] == p[k - 16 - p.len()]);
        }
    }
    if p.len() > 0 {
        assert(h.last() == p.last());
    } else {
        assert(h.last() == '/');
    }
}

proof fn lemma_normalized_plain(ls: Seq<Seq<char>>, j: int)
    requires
        0 <= j,
        forall|k: int| 0 <= k < ls.len() ==> plain_line(#[trigger] ls[k]),
    ensures
        forall|k: int| 0 <= k < normalized_lines(ls, j).len() ==> plain_line(#[trigger] normalized_lines(ls, j)[k]),
    decreases ls.len() - j,
{
    if j < ls.len() {
        let o = normalized_lines(ls, j);
        if bare_pair_at(ls, j) {
            lemma_normalized_plain(ls, j + 2);
            assert(plain_line(ls[j + 1]));
            lemma_header_plain(ls[j + 1]);
            let o2 = normalized_lines(ls, j + 2);
            assert forall|k: int| 0 <= k < o.len() implies plain_line(#[trigger] o[k]) by {
                if k >= 3 {
                    assert(o[k] == o2[k - 3]);
                }
            }
        } else {
            lemma_normalized_plain(ls, j + 1);
            let o1 = normalized_lines(ls, j + 1);
            assert forall|k: int| 0 <= k < o.len() implies plain_line(#[trigger] o[k]) by {
                if k >= 1 {
                    assert(o[k] == o1[k - 1]);
                }
            }
        }
    }
}

/// Normalizing twice is normalizing once: the written `diff --git` headers
/// announce every `---` / `+++` pair, so the second pass adds none. Left out:
/// input with a line ending in `\r` (that `str::lines` keeps, e.g. a last line
/// without `\n`), whose `\r` a second reading would drop.
pub proof fn law_normalize_idempotent(diff: Seq<char>)
    requires
        forall|k: int|
            0 <= k < lines(diff).len() ==> !(#[trigger] lines(diff)[k].len() > 0 && lines(diff)[k].last() == '\r'),
    ensures
        normalize_diff(normalize_diff(diff)) == normalize_diff(diff),
{
    let ls = lines(diff);
    lemma_lines_no_newlines(diff);
    assert forall|k: int| 0 <= k < ls.len() implies plain_line(#[trigger] ls[k]) by {
        assert forall|i: int| 0 <= i < ls[k].len() implies ls[k][i] != '\n' by {
            assert(lines(diff)[k][i] != '\n');
        }
    }
    let m = normalized_lines(ls, 0);
    lemma_normalize_terminated(ls, 0);
    lemma_normalized_plain(ls, 0);
    lemma_lines_of_terminated(m);
    assert(lines(normalize_diff(diff)) == m);
    lemma_normalized_announced(ls, 0);
    lemma_literal_starts();
    assert forall|i: int| 0 <= i < m.len() implies !#[trigger] bare_pair_at(m, i) by {
        if bare_pair_at(m, i) {
            assert(starts_with(m[i], "--- "@) && starts_with(m[i + 1], "+++ "@));
        }
    }
    lemma_normalized_identity(m, 0);
    assert(m.skip(0) =~= m);
    lemma_normalize_terminated(m, 0);
}

} // verus!

