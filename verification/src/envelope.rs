//! Outer Arcadia envelope filter for `ya make -t*` / `ya test` output.
//!
//! Dispatches by [`inner_runner_of`]: py3test → pytest-style compaction,
//! go_test → go-under-ya compaction, otherwise the generic fail filter.

use vstd::prelude::*;
use crate::framing::{framing_kept, framing_kept_chars};
use crate::generic_fail::{
    assertion_dump, law_compact_lines_from_block, is_logsdir_line, law_compact_keeps_first_logsdir, is_fail_headline, law_compact_keeps_headline, law_split_first_headline, LocationRegex, block_boundary, block_boundary_chars, compact_block, compact_block_chars,
    fail_overflow_tee_chars, fat_drop, fat_drop_chars, split_sections, split_sections_chars,
    TeeTail, MAX_FAIL_BLOCKS, MAX_LINE_CHARS,
};
use crate::text::{
    after_last, after_last_exec, append_chars, before_char, before_char_exec, before_first,
    before_first_exec, chars_of, contains, contains_str, decimal, decimal_chars, first_word,
    first_word_exec, lemma_take_all, lemma_take_step, last_index_exec,
    last_index_of, line_of, lines, push_line, push_str, second_piece, second_piece_exec,
    slice_chars, slim, slim_chars, split_lines, starts_with, starts_with_str, trim,
    trim_chars, trim_end, trim_end_chars, trim_start, trim_start_chars, views,
};
use crate::detect::{detect_inner_runner_chars, inner_runner_of, InnerRunner};
use crate::go_test::{go_filter, go_filter_chars, go_fails, go_join, law_go_keeps_first_headline, short_fail_headline};
use crate::pattern::{pattern_matches, regex_compiles, regex_is_match};
use crate::py3test::{filter_py3test, law_py3test_keeps_a_failure, py3test_filter, py3test_lines};
use crate::text::{
    lemma_contains_split, lemma_contains_take, lemma_contains_slim, lemma_trim_end_prefix,
    lemma_join_contains, is_ws, line_state, strip_cr, occurs_at, find_chars, lemma_find_facts, eq_str, join_nl, lemma_contains_append, lemma_contains_trimmed, string_of, string_views,
};
use crate::generic_fail::utf8_len;
use crate::util::{
    terminate_nl, terminate_nl_exec, law_never_worse, join_lines, join_lines_exec, never_worse, never_worse_chars, seq_has, strip_ansi,
    strip_ansi_chars,
};

verus! {

// ---------------------------------------------------------------- spec

/// Kept framing lines of `ls`, each without trailing whitespace.
pub open spec fn framing_lines(ls: Seq<Seq<char>>) -> Seq<Seq<char>>
    decreases ls.len(),
{
    if ls.len() == 0 {
        seq![]
    } else if framing_kept(ls.last()) {
        framing_lines(ls.drop_last()).push(trim_end(ls.last()))
    } else {
        framing_lines(ls.drop_last())
    }
}

/// Compacted blocks, concatenated, and whether any compaction dropped lines.
pub open spec fn compact_all(bs: Seq<Seq<Seq<char>>>) -> (Seq<Seq<char>>, bool)
    decreases bs.len(),
{
    if bs.len() == 0 {
        (seq![], false)
    } else {
        let (o, t) = compact_all(bs.drop_last());
        let (c, ct) = compact_block(bs.last());
        (o + c, t || ct)
    }
}

/// `… +N more failing tests`.
pub open spec fn more_failing_line(n: nat) -> Seq<char> {
    "… +"@ + decimal(n) + " more failing tests"@
}

pub open spec fn min_nat(a: nat, b: nat) -> nat {
    if a <= b {
        a
    } else {
        b
    }
}

/// Lines and truncation flag of the generic filter when fails are present:
/// framing of the preamble, the first [`MAX_FAIL_BLOCKS`] compacted blocks, an
/// overflow line, framing of the postamble.
pub open spec fn with_fails(ls: Seq<Seq<char>>) -> (Seq<Seq<char>>, bool) {
    let (pre, blocks, post) = split_sections(ls);
    let total = blocks.len();
    let take_n = min_nat(total, MAX_FAIL_BLOCKS as nat);
    let (c, ct) = compact_all(blocks.take(take_n as int));
    let over = if total > take_n {
        seq![more_failing_line((total - take_n) as nat)]
    } else {
        seq![]
    };
    (framing_lines(pre) + c + over + framing_lines(post), ct || total > take_n || take_n > 0)
}

pub open spec fn has_fail_line(ls: Seq<Seq<char>>) -> bool {
    exists|i: int| 0 <= i < ls.len() && starts_with(trim_start(#[trigger] ls[i]), "[fail]"@)
}

/// The last two `/`-separated segments (`rsplit('/').take(2)`, in order).
pub open spec fn last_two_segments(s: Seq<char>) -> Seq<char> {
    let i = last_index_of(s, '/');
    if i < 0 {
        s
    } else {
        after_last(s.take(i), '/') + seq!['/'] + s.skip(i + 1)
    }
}

/// `------- [GO] FAILED <target>`.
pub open spec fn short_go_failed(t: Seq<char>) -> Seq<char> {
    let target = match second_piece(t, "$(B)/"@) {
        Some(s) => after_last(before_char(s, '{'), '/'),
        None => "build"@,
    };
    "------- [GO] FAILED "@ + target
}

/// `<file>: could not import …/<last two package segments>`.
pub open spec fn short_import_error(t: Seq<char>) -> Seq<char> {
    let file = after_last(before_first(t, ": could not import"@), '/');
    let pkg = match second_piece(t, "could not import "@) {
        Some(s) => last_two_segments(
            match first_word(s) {
                Some(w) => w,
                None => s,
            },
        ),
        None => "pkg"@,
    };
    file + ": could not import …/"@ + pkg
}

pub open spec fn failure_signal(t: Seq<char>) -> bool {
    starts_with(t, "Error["@) || starts_with(t, "Failed"@) || starts_with(t, "FAILED"@) || contains(
        t,
        "BUILD ERRORS"@,
    ) || contains(t, "didn't run"@) || contains(t, "DIDN'T RUN"@) || starts_with(
        t,
        "Number of suites skipped"@,
    ) || starts_with(t, "Test command err:"@)
}

pub const MAX_WARNS: usize = 5;

/// No-fail filter state: kept lines, warnings kept, hot-settings count, truncated.
pub type NoFailState = (Seq<Seq<char>>, nat, nat, bool);

pub open spec fn no_fail_step(st: NoFailState, line: Seq<char>) -> NoFailState {
    let (out, warns, hot, tr) = st;
    let t = trim_start(line);
    if contains(t, "PEERDIR"@) || contains(t, "[PB]"@) || starts_with(t, "Ok ["@) {
        (out, warns, hot, true)
    } else if contains(t, "Unexpected getting uninitialized hot settings"@) {
        (out, warns, hot + 1, true)
    } else if starts_with(t, "Warn["@) || contains(t, "UserWarning:"@) {
        if warns < MAX_WARNS {
            (out.push(slim(line, MAX_LINE_CHARS as nat)), warns + 1, hot, tr)
        } else {
            (out, warns, hot, true)
        }
    } else if starts_with(t, "command (pid:"@) {
        (out, warns, hot, true)
    } else if contains(t, "/compile "@) && contains(t, "returned non-zero"@) {
        (out, warns, hot, true)
    } else if contains(t, "could not import"@) {
        (out.push(short_import_error(t)), warns, hot, true)
    } else if starts_with(t, "------- [GO]"@) && contains(t, "FAILED"@) {
        (out.push(short_go_failed(t)), warns, hot, true)
    } else if starts_with(t, "Number of suites skipped"@) {
        (out.push("suites skipped (build fail): "@ + trim(after_last(t, ':'))), warns, hot, true)
    } else if contains(t, "DIDN'T RUN"@) || contains(t, "didn't run"@) {
        (out, warns, hot, true)
    } else if framing_kept(line) || failure_signal(t) {
        (out.push(slim(line, MAX_LINE_CHARS as nat)), warns, hot, tr)
    } else if starts_with(t, "➜"@) || starts_with(t, "COMMENTS"@) || t.len() == 0 {
        st
    } else {
        (out, warns, hot, true)
    }
}

pub open spec fn no_fail_run(ls: Seq<Seq<char>>) -> NoFailState
    decreases ls.len(),
{
    if ls.len() == 0 {
        (seq![], 0, 0, false)
    } else {
        no_fail_step(no_fail_run(ls.drop_last()), ls.last())
    }
}

/// `… N× uninitialized hot settings warnings suppressed`.
pub open spec fn hot_settings_line(n: nat) -> Seq<char> {
    "… "@ + decimal(n) + "× uninitialized hot settings warnings suppressed"@
}

/// Lines and truncation flag of the generic filter when no `[fail]` is present.
pub open spec fn without_fails(ls: Seq<Seq<char>>) -> (Seq<Seq<char>>, bool) {
    let (out, warns, hot, tr) = no_fail_run(ls);
    let a = if hot > 0 {
        seq![hot_settings_line(hot)]
    } else {
        seq![]
    };
    let b = if warns >= MAX_WARNS {
        seq!["… additional Warn/UserWarning lines suppressed"@]
    } else {
        seq![]
    };
    (out + a + b, tr)
}

/// The generic filter (no language adapter): text and truncation flag.
pub open spec fn generic_filter(s: Seq<char>) -> (Seq<char>, bool) {
    let ls = lines(s);
    let (out, tr) = if has_fail_line(ls) {
        with_fails(ls)
    } else {
        without_fails(ls)
    };
    (join_lines(out), tr)
}

// ---------------------------------------------------------------- exec

/// Appends the kept framing lines of `ls` to `out`.
pub fn push_framing(out: &mut Vec<Vec<char>>, ls: &Vec<Vec<char>>)
    ensures
        views(final(out)@) == views(old(out)@) + framing_lines(views(ls@)),
{
    let mut i: usize = 0;
    assert(framing_lines(views(ls@).take(0)) =~= Seq::<Seq<char>>::empty());
    assert(views(out@) =~= views(old(out)@) + Seq::<Seq<char>>::empty());
    while i < ls.len()
        invariant
            i <= ls.len(),
            views(out@) == views(old(out)@) + framing_lines(views(ls@).take(i as int)),
        decreases ls.len() - i,
    {
        proof {
            lemma_take_step(views(ls@), i as int);
        }
        if framing_kept_chars(&ls[i]) {
            let ghost prev = views(out@);
            push_line(out, trim_end_chars(&ls[i]));
            assert(views(out@) =~= views(old(out)@) + framing_lines(views(ls@).take(i + 1)));
        }
        i += 1;
    }
    proof {
        lemma_take_all(views(ls@));
    }
}

/// Appends the compaction of the first `n` blocks to `out`; returns whether
/// any compaction dropped lines.
pub fn push_compacted(out: &mut Vec<Vec<char>>, blocks: &Vec<Vec<Vec<char>>>, n: usize) -> (r: bool)
    requires
        n <= blocks.len(),
    ensures
        ({
            let bs = blocks@.map_values(|b: Vec<Vec<char>>| views(b@));
            let (c, ct) = compact_all(bs.take(n as int));
            views(final(out)@) == views(old(out)@) + c && r == ct
        }),
{
    let ghost bs = blocks@.map_values(|b: Vec<Vec<char>>| views(b@));
    let re = LocationRegex::new();
    let mut tr = false;
    let mut i: usize = 0;
    assert(views(out@) =~= views(old(out)@) + Seq::<Seq<char>>::empty());
    while i < n
        invariant
            i <= n <= blocks.len(),
            bs == blocks@.map_values(|b: Vec<Vec<char>>| views(b@)),
            views(out@) == views(old(out)@) + compact_all(bs.take(i as int)).0,
            tr == compact_all(bs.take(i as int)).1,
        decreases n - i,
    {
        proof {
            lemma_take_step(bs, i as int);
        }
        let (c, ct) = compact_block_chars(&re, &blocks[i]);
        let ghost prev = views(out@);
        let mut j: usize = 0;
        while j < c.len()
            invariant
                j <= c.len(),
                views(out@) == prev + views(c@).take(j as int),
            decreases c.len() - j,
        {
            proof {
                lemma_take_step(views(c@), j as int);
            }
            push_line(out, crate::text::copy_chars(&c[j]));
            assert(views(out@) =~= prev + views(c@).take(j + 1));
            j += 1;
        }
        proof {
            lemma_take_all(views(c@));
        }
        assert(views(out@) =~= views(old(out)@) + compact_all(bs.take(i + 1)).0);
        tr = tr || ct;
        i += 1;
    }
    tr
}

pub fn more_failing_line_exec(n: usize) -> (r: Vec<char>)
    ensures
        r@ == more_failing_line(n as nat),
{
    let mut r = line_of("… +");
    append_chars(&mut r, &decimal_chars(n));
    push_str(&mut r, " more failing tests");
    r
}

pub fn has_fail_line_exec(ls: &Vec<Vec<char>>) -> (r: bool)
    ensures
        r == has_fail_line(views(ls@)),
{
    let mut i: usize = 0;
    while i < ls.len()
        invariant
            i <= ls.len(),
            forall|j: int|
                0 <= j < i ==> !starts_with(trim_start(#[trigger] views(ls@)[j]), "[fail]"@),
        decreases ls.len() - i,
    {
        let t = trim_start_chars(&ls[i]);
        if starts_with_str(&t, "[fail]") {
            assert(views(ls@)[i as int] == ls@[i as int]@);
            return true;
        }
        i += 1;
    }
    false
}

/// [`with_fails`] as code.
pub fn with_fails_exec(ls: &Vec<Vec<char>>) -> (r: (Vec<Vec<char>>, bool))
    ensures
        (views(r.0@), r.1) == with_fails(views(ls@)),
{
    let (pre, blocks, post) = split_sections_chars(ls);
    let mut out: Vec<Vec<char>> = Vec::new();
    push_framing(&mut out, &pre);
    let total = blocks.len();
    let take_n = if total < MAX_FAIL_BLOCKS {
        total
    } else {
        MAX_FAIL_BLOCKS
    };
    let mut tr = push_compacted(&mut out, &blocks, take_n);
    if total > take_n {
        tr = true;
        push_line(&mut out, more_failing_line_exec(total - take_n));
    }
    push_framing(&mut out, &post);
    if take_n > 0 {
        tr = true;
    }
    let ghost bs = blocks@.map_values(|b: Vec<Vec<char>>| views(b@));
    assert(views(out@) =~= with_fails(views(ls@)).0);
    (out, tr)
}

fn last_two_segments_exec(s: &Vec<char>) -> (r: Vec<char>)
    ensures
        r@ == last_two_segments(s@),
{
    match last_index_exec(s, '/') {
        None => crate::text::copy_chars(s),
        Some(i) => {
            let head = slice_chars(s, 0, i);
            assert(head@ == s@.take(i as int));
            let mut r = after_last_exec(&head, '/');
            r.push('/');
            let tail = slice_chars(s, i + 1, s.len());
            append_chars(&mut r, &tail);
            assert(r@ =~= last_two_segments(s@));
            r
        },
    }
}

pub fn short_go_failed_exec(t: &Vec<char>) -> (r: Vec<char>)
    ensures
        r@ == short_go_failed(t@),
{
    let target = match second_piece_exec(t, "$(B)/") {
        Some(s) => {
            let b = before_char_exec(&s, '{');
            after_last_exec(&b, '/')
        },
        None => line_of("build"),
    };
    let mut r = line_of("------- [GO] FAILED ");
    append_chars(&mut r, &target);
    r
}

pub fn short_import_error_exec(t: &Vec<char>) -> (r: Vec<char>)
    ensures
        r@ == short_import_error(t@),
{
    let b = before_first_exec(t, ": could not import");
    let file = after_last_exec(&b, '/');
    let pkg = match second_piece_exec(t, "could not import ") {
        Some(s) => {
            let w = match first_word_exec(&s) {
                Some(w) => w,
                None => s,
            };
            last_two_segments_exec(&w)
        },
        None => line_of("pkg"),
    };
    let mut r = file;
    push_str(&mut r, ": could not import …/");
    append_chars(&mut r, &pkg);
    r
}

pub fn failure_signal_chars(t: &Vec<char>) -> (r: bool)
    ensures
        r == failure_signal(t@),
{
    starts_with_str(t, "Error[") || starts_with_str(t, "Failed") || starts_with_str(t, "FAILED")
        || contains_str(t, "BUILD ERRORS") || contains_str(t, "didn't run") || contains_str(
        t,
        "DIDN'T RUN",
    ) || starts_with_str(t, "Number of suites skipped") || starts_with_str(
        t,
        "Test command err:",
    )
}

/// [`without_fails`] as code.
pub fn without_fails_exec(ls: &Vec<Vec<char>>) -> (r: (Vec<Vec<char>>, bool))
    ensures
        (views(r.0@), r.1) == without_fails(views(ls@)),
{
    let mut out: Vec<Vec<char>> = Vec::new();
    let mut warns: usize = 0;
    let mut hot: usize = 0;
    let mut tr = false;
    let mut i: usize = 0;
    while i < ls.len()
        invariant
            i <= ls.len(),
            hot <= i,
            warns <= MAX_WARNS,
            (views(out@), warns as nat, hot as nat, tr) == no_fail_run(views(ls@).take(i as int)),
        decreases ls.len() - i,
    {
        proof {
            lemma_take_step(views(ls@), i as int);
        }
        let line = &ls[i];
        let t = trim_start_chars(line);
        if contains_str(&t, "PEERDIR") || contains_str(&t, "[PB]") || starts_with_str(&t, "Ok [") {
            tr = true;
        } else if contains_str(&t, "Unexpected getting uninitialized hot settings") {
            hot = hot + 1;
            tr = true;
        } else if starts_with_str(&t, "Warn[") || contains_str(&t, "UserWarning:") {
            if warns < MAX_WARNS {
                push_line(&mut out, slim_chars(line, MAX_LINE_CHARS));
                warns = warns + 1;
            } else {
                tr = true;
            }
        } else if starts_with_str(&t, "command (pid:") {
            tr = true;
        } else if contains_str(&t, "/compile ") && contains_str(&t, "returned non-zero") {
            tr = true;
        } else if contains_str(&t, "could not import") {
            push_line(&mut out, short_import_error_exec(&t));
            tr = true;
        } else if starts_with_str(&t, "------- [GO]") && contains_str(&t, "FAILED") {
            push_line(&mut out, short_go_failed_exec(&t));
            tr = true;
        } else if starts_with_str(&t, "Number of suites skipped") {
            let n = trim_chars(&after_last_exec(&t, ':'));
            let mut l = line_of("suites skipped (build fail): ");
            append_chars(&mut l, &n);
            push_line(&mut out, l);
            tr = true;
        } else if contains_str(&t, "DIDN'T RUN") || contains_str(&t, "didn't run") {
            tr = true;
        } else if framing_kept_chars(line) || failure_signal_chars(&t) {
            push_line(&mut out, slim_chars(line, MAX_LINE_CHARS));
        } else if starts_with_str(&t, "➜") || starts_with_str(&t, "COMMENTS") || t.len() == 0 {
        } else {
            tr = true;
        }
        i += 1;
    }
    proof {
        lemma_take_all(views(ls@));
    }
    if hot > 0 {
        let mut l = line_of("… ");
        append_chars(&mut l, &decimal_chars(hot));
        push_str(&mut l, "× uninitialized hot settings warnings suppressed");
        push_line(&mut out, l);
    }
    if warns >= MAX_WARNS {
        push_line(&mut out, line_of("… additional Warn/UserWarning lines suppressed"));
    }
    assert(views(out@) =~= without_fails(views(ls@)).0);
    (out, tr)
}

/// [`generic_filter`] on text held as characters.
pub fn generic_filter_chars(s: &Vec<char>) -> (r: (Vec<char>, bool))
    ensures
        (r.0@, r.1) == generic_filter(s@),
{
    let ls = split_lines(s);
    let (out, tr) = if has_fail_line_exec(&ls) {
        with_fails_exec(&ls)
    } else {
        without_fails_exec(&ls)
    };
    (join_lines_exec(&out), tr)
}


// ---------------------------------------------------------------- laws

proof fn lemma_compact_all_first(bs: Seq<Seq<Seq<char>>>)
    requires
        bs.len() > 0,
        compact_block(bs[0]).0.len() > 0,
    ensures
        compact_all(bs).0.len() > 0,
        compact_all(bs).0[0] == compact_block(bs[0]).0[0],
    decreases bs.len(),
{
    if bs.len() > 1 {
        lemma_compact_all_first(bs.drop_last());
    } else {
        assert(compact_all(bs.drop_last()).0 =~= Seq::<Seq<char>>::empty());
    }
}

/// With fail blocks present, the generic filter never drops all headlines:
/// the first `[fail]` line of the dump, slimmed, is among its lines.
pub proof fn law_generic_keeps_first_headline(ls: Seq<Seq<char>>, i0: int)
    requires
        0 <= i0 < ls.len(),
        is_fail_headline(ls[i0]),
        forall|j: int| 0 <= j < i0 ==> !is_fail_headline(#[trigger] ls[j]),
    ensures
        has_fail_line(ls),
        with_fails(ls).0.contains(slim(ls[i0], MAX_LINE_CHARS as nat)),
{
    law_split_first_headline(ls, i0);
    let (pre, blocks, post) = split_sections(ls);
    law_compact_keeps_headline(blocks[0]);
    let take_n = min_nat(blocks.len(), MAX_FAIL_BLOCKS as nat);
    let taken = blocks.take(take_n as int);
    assert(taken[0] == blocks[0]);
    lemma_compact_all_first(taken);
    let out = with_fails(ls).0;
    let k = framing_lines(pre).len();
    assert(out[k as int] == compact_all(taken).0[0]);
}

// ---------------------------------------------------------------- test mode

/// Flags after `make` that select the test envelope: `-t`, `-tt`, `-ttX`, ….
pub const TEST_FLAG_PATTERN: &'static str = r"^-t+X?$";

/// What [`TEST_FLAG_PATTERN`] matches: `-`, one or more `t`, and an
/// optional final `X`, nothing else (`-t`, `-tt`, `-ttX`).
pub open spec fn test_flag_shape(s: Seq<char>) -> bool {
    &&& s.len() >= 2
    &&& s[0] == '-'
    &&& s[1] == 't'
    &&& forall|i: int| 2 <= i < s.len() - 1 ==> s[i] == 't'
    &&& s.last() == 't' || s.last() == 'X'
}

/// `arg` is `--test`, or matches [`TEST_FLAG_PATTERN`] (`regex_hit`).
pub open spec fn ya_test_flag(arg: Seq<char>, regex_hit: bool) -> bool {
    arg == "--test"@ || regex_hit
}

/// The test-mode rule over the arguments and, for each argument, whether the
/// test-flag pattern matched it.
pub open spec fn test_mode_given(args: Seq<Seq<char>>, hits: Seq<bool>) -> bool {
    if args.len() == 0 {
        false
    } else if args[0] == "test"@ {
        true
    } else if args[0] == "make"@ {
        exists|i: int| 0 <= i < args.len() && ya_test_flag(args[i], #[trigger] hits[i])
    } else {
        false
    }
}

/// Whether the test-flag pattern matches `arg` (what `regex` answers for it;
/// see [`test_flag_shape`]).
pub open spec fn test_flag_hit(arg: Seq<char>) -> bool {
    test_flag_shape(arg)
}

/// True when argv should use the test-mode envelope filter: `test …`, or
/// `make …` with a test flag anywhere.
pub open spec fn test_mode(args: Seq<Seq<char>>) -> bool {
    test_mode_given(args, args.map_values(|a: Seq<char>| test_flag_hit(a)))
}

/// [`test_mode_given`]: the decision once each argument's pattern match is known.
pub fn is_test_mode_given(args: &[String], hits: &[bool]) -> (r: bool)
    requires
        hits@.len() == args@.len(),
    ensures
        r == test_mode_given(string_views(args@), hits@),
{
    if args.len() == 0 {
        return false;
    }
    let first = chars_of(args[0].as_str());
    assert(string_views(args@)[0] == first@);
    if eq_str(&first, "test") {
        return true;
    }
    if !eq_str(&first, "make") {
        return false;
    }
    let mut i: usize = 0;
    while i < args.len()
        invariant
            i <= args.len() == hits.len(),
            args.len() > 0,
            string_views(args@)[0] == "make"@,
            forall|j: int| 0 <= j < i ==> !ya_test_flag(string_views(args@)[j], #[trigger] hits@[j]),
        decreases args.len() - i,
    {
        let a = chars_of(args[i].as_str());
        assert(string_views(args@)[i as int] == a@);
        if eq_str(&a, "--test") || hits[i] {
            assert(ya_test_flag(string_views(args@)[i as int], hits@[i as int]));
            return true;
        }
        i += 1;
    }
    false
}

/// True when argv should use the test-mode envelope filter.
pub fn is_test_mode(args: &[String]) -> (r: bool)
    ensures
        r == test_mode(string_views(args@)),
{
    let mut hits: Vec<bool> = Vec::new();
    let mut i: usize = 0;
    while i < args.len()
        invariant
            i <= args.len(),
            hits@ == string_views(args@).take(i as int).map_values(|a: Seq<char>| test_flag_hit(a)),
        decreases args.len() - i,
    {
        let h = pattern_matches(TEST_FLAG_PATTERN, args[i].as_str());
        hits.push(h);
        assert(hits@ =~= string_views(args@).take(i + 1).map_values(|a: Seq<char>| test_flag_hit(a)));
        i += 1;
    }
    assert(string_views(args@).take(args.len() as int) =~= string_views(args@));
    is_test_mode_given(args, hits.as_slice())
}

// ---------------------------------------------------------------- dispatch

/// The adapter's output: blank text gives nothing; otherwise the adapter
/// chosen by [`inner_runner_of`] (py3test falls back to the generic filter
/// when it finds no `[fail]`).
pub open spec fn envelope_body(clean: Seq<char>) -> Seq<char> {
    if trim(clean).len() == 0 {
        seq![]
    } else {
        match inner_runner_of(clean) {
            InnerRunner::Py3test => match py3test_filter(clean) {
                Some((body, _)) => body,
                None => generic_filter(clean).0,
            },
            InnerRunner::GoTest => go_filter(clean).0,
            _ => generic_filter(clean).0,
        }
    }
}

/// `out`, then each `Logsdir:` line of `ls` whose trimmed text `out` (as
/// grown so far) does not contain: trimmed, on a line of its own. A
/// `Logsdir:` path is never lost, and never repeated by this step.
pub open spec fn keep_logsdirs(out: Seq<char>, ls: Seq<Seq<char>>) -> Seq<char>
    decreases ls.len(),
{
    if ls.len() == 0 {
        out
    } else {
        let acc = keep_logsdirs(out, ls.drop_last());
        let l = ls.last();
        if is_logsdir_line(l) && !contains(acc, trim(l)) {
            terminate_nl(acc) + trim(l) + seq!['\n']
        } else {
            acc
        }
    }
}

/// The envelope filter: ANSI stripped, the adapter's output
/// ([`envelope_body`]), then every `Logsdir:` path of the text that the
/// adapter left out ([`keep_logsdirs`]).
pub open spec fn envelope_filter(raw: Seq<char>) -> Seq<char> {
    let clean = strip_ansi(raw);
    keep_logsdirs(envelope_body(clean), lines(clean))
}

proof fn lemma_contains_grown(a: Seq<char>, b: Seq<char>, p: Seq<char>)
    requires
        contains(a, p),
    ensures
        contains(terminate_nl(a) + b, p),
{
    let rest = if a.len() == 0 || a.last() == '\n' {
        b
    } else {
        seq!['\n'] + b
    };
    assert(terminate_nl(a) + b =~= a + rest);
    lemma_contains_append(a, rest, p);
}

proof fn lemma_keep_logsdirs(out: Seq<char>, ls: Seq<Seq<char>>)
    ensures
        forall|p: Seq<char>| contains(out, p) ==> contains(#[trigger] keep_logsdirs(out, ls), p),
        forall|i: int|
            0 <= i < ls.len() && is_logsdir_line(#[trigger] ls[i]) ==> contains(
                keep_logsdirs(out, ls),
                trim(ls[i]),
            ),
    decreases ls.len(),
{
    if ls.len() > 0 {
        let prev = ls.drop_last();
        lemma_keep_logsdirs(out, prev);
        let acc = keep_logsdirs(out, prev);
        let l = ls.last();
        if is_logsdir_line(l) && !contains(acc, trim(l)) {
            let tail = trim(l) + seq!['\n'];
            assert forall|p: Seq<char>| contains(acc, p) implies contains(
                keep_logsdirs(out, ls),
                p,
            ) by {
                lemma_contains_grown(acc, tail, p);
                assert(terminate_nl(acc) + tail =~= terminate_nl(acc) + trim(l) + seq!['\n']);
            }
            assert(occurs_at(tail, trim(l), 0)) by {
                assert(tail.subrange(0, trim(l).len() as int) =~= trim(l));
            }
            lemma_contains_append(terminate_nl(acc), tail, trim(l));
            assert(terminate_nl(acc) + tail =~= terminate_nl(acc) + trim(l) + seq!['\n']);
        }
        assert forall|i: int|
            0 <= i < ls.len() && is_logsdir_line(#[trigger] ls[i]) implies contains(
                keep_logsdirs(out, ls),
                trim(ls[i]),
            ) by {
            if i < ls.len() - 1 {
                assert(prev[i] == ls[i]);
            }
        }
    }
}

/// Every `Logsdir:` line of the (ANSI-stripped) text keeps its path in the
/// envelope's output: `Logsdir:` is never dropped, only deduplicated.
pub proof fn law_envelope_keeps_logsdirs(raw: Seq<char>, i: int)
    requires
        0 <= i < lines(strip_ansi(raw)).len(),
        is_logsdir_line(lines(strip_ansi(raw))[i]),
    ensures
        contains(envelope_filter(raw), trim(lines(strip_ansi(raw))[i])),
{
    let clean = strip_ansi(raw);
    lemma_keep_logsdirs(envelope_body(clean), lines(clean));
}

proof fn lemma_trim_start_ws(s: Seq<char>)
    ensures
        trim_start(s).len() <= s.len(),
        trim_start(s) == s.skip(s.len() - trim_start(s).len()),
        forall|j: int| 0 <= j < s.len() - trim_start(s).len() ==> is_ws(#[trigger] s[j]),
    decreases s.len(),
{
    if s.len() > 0 && is_ws(s[0]) {
        let r = s.drop_first();
        lemma_trim_start_ws(r);
        assert(s.skip(s.len() - trim_start(s).len()) =~= r.skip(r.len() - trim_start(r).len()));
        assert forall|j: int| 0 <= j < s.len() - trim_start(s).len() implies is_ws(#[trigger] s[j]) by {
            if j > 0 {
                assert(s[j] == r[j - 1]);
            }
        }
    } else {
        assert(s.skip(0) =~= s);
    }
}

proof fn lemma_trim_end_empty(x: Seq<char>)
    requires
        trim_end(x).len() == 0,
    ensures
        forall|j: int| 0 <= j < x.len() ==> is_ws(#[trigger] x[j]),
    decreases x.len(),
{
    if x.len() > 0 {
        let r = x.drop_last();
        lemma_trim_end_empty(r);
        assert forall|j: int| 0 <= j < x.len() implies is_ws(#[trigger] x[j]) by {
            if j < x.len() - 1 {
                assert(x[j] == r[j]);
            }
        }
    }
}

proof fn lemma_ws_line_state(s: Seq<char>)
    requires
        forall|i: int| 0 <= i < s.len() ==> is_ws(#[trigger] s[i]),
    ensures
        forall|k: int, j: int|
            0 <= k < line_state(s).0.len() && 0 <= j < line_state(s).0[k].len() ==> is_ws(
                #[trigger] line_state(s).0[k][j],
            ),
        forall|j: int| 0 <= j < line_state(s).1.len() ==> is_ws(#[trigger] line_state(s).1[j]),
    decreases s.len(),
{
    if s.len() > 0 {
        let r = s.drop_last();
        assert forall|i: int| 0 <= i < r.len() implies is_ws(#[trigger] r[i]) by {
            assert(r[i] == s[i]);
        }
        lemma_ws_line_state(r);
        let (done, cur) = line_state(r);
        assert(is_ws(s[s.len() - 1]));
        if s.last() == '\n' {
            let c = strip_cr(cur);
            assert forall|j: int| 0 <= j < c.len() implies is_ws(#[trigger] c[j]) by {
                assert(c[j] == cur[j]);
            }
            assert forall|k: int, j: int|
                0 <= k < line_state(s).0.len() && 0 <= j < line_state(s).0[k].len() implies is_ws(
                #[trigger] line_state(s).0[k][j],
            ) by {
                if k < done.len() {
                    assert(line_state(s).0[k] == done[k]);
                } else {
                    assert(line_state(s).0[k] == c);
                }
            }
        } else {
            assert forall|j: int| 0 <= j < line_state(s).1.len() implies is_ws(
                #[trigger] line_state(s).1[j],
            ) by {
                if j < cur.len() {
                    assert(line_state(s).1[j] == cur[j]);
                }
            }
        }
    }
}

proof fn lemma_ws_trim_start(l: Seq<char>)
    requires
        forall|j: int| 0 <= j < l.len() ==> is_ws(#[trigger] l[j]),
    ensures
        trim_start(l).len() == 0,
    decreases l.len(),
{
    if l.len() > 0 {
        let r = l.drop_first();
        assert forall|j: int| 0 <= j < r.len() implies is_ws(#[trigger] r[j]) by {
            assert(r[j] == l[j + 1]);
        }
        assert(is_ws(l[0]));
        lemma_ws_trim_start(r);
    }
}

/// A text with a `[fail]` headline line is not blank.
proof fn lemma_headline_not_blank(s: Seq<char>, i: int)
    requires
        0 <= i < lines(s).len(),
        is_fail_headline(lines(s)[i]),
    ensures
        trim(s).len() > 0,
{
    if trim(s).len() == 0 {
        let a = trim_start(s);
        lemma_trim_start_ws(s);
        lemma_trim_end_empty(a);
        assert forall|j: int| 0 <= j < s.len() implies is_ws(#[trigger] s[j]) by {
            let k = s.len() - a.len();
            if j >= k {
                assert(s[j] == a[j - k]);
            }
        }
        lemma_ws_line_state(s);
        let l = lines(s)[i];
        assert forall|j: int| 0 <= j < l.len() implies is_ws(#[trigger] l[j]) by {
            let (done, cur) = line_state(s);
            if i < done.len() {
                assert(l == done[i]);
            } else {
                assert(l == cur);
            }
        }
        lemma_ws_trim_start(l);
        reveal_strlit("[fail]");
    }
}

/// When the text has a `[fail]` headline, the envelope never drops them all.
/// The generic filter keeps the first, cut to [`MAX_LINE_CHARS`]; the go
/// filter keeps it shortened to `[fail] name` (unless the headline is
/// indented so deep that cutting it removes the `[fail]` tag); the py3test
/// filter renders it in pytest form, `[FAIL] …`.
pub proof fn law_envelope_keeps_headline(raw: Seq<char>, i0: int)
    requires
        0 <= i0 < lines(strip_ansi(raw)).len(),
        is_fail_headline(lines(strip_ansi(raw))[i0]),
        forall|j: int| 0 <= j < i0 ==> !is_fail_headline(#[trigger] lines(strip_ansi(raw))[j]),
    ensures
        inner_runner_of(strip_ansi(raw)) is Py3test ==> contains(envelope_filter(raw), "[FAIL] "@),
        inner_runner_of(strip_ansi(raw)) is GoTest && is_fail_headline(
            slim(lines(strip_ansi(raw))[i0], MAX_LINE_CHARS as nat),
        ) ==> contains(
            envelope_filter(raw),
            short_fail_headline(slim(lines(strip_ansi(raw))[i0], MAX_LINE_CHARS as nat)),
        ),
        !(inner_runner_of(strip_ansi(raw)) is GoTest) && !(inner_runner_of(strip_ansi(raw)) is Py3test)
            ==> contains(envelope_filter(raw), slim(lines(strip_ansi(raw))[i0], MAX_LINE_CHARS as nat)),
{
    let clean = strip_ansi(raw);
    let ls = lines(clean);
    let h = slim(ls[i0], MAX_LINE_CHARS as nat);
    lemma_headline_not_blank(clean, i0);
    law_generic_keeps_first_headline(ls, i0);
    let body = envelope_body(clean);
    lemma_keep_logsdirs(body, ls);
    if inner_runner_of(clean) is Py3test {
        law_py3test_keeps_a_failure(ls, i0);
        assert(body == terminate_nl(join_nl(py3test_lines(ls))));
    } else if inner_runner_of(clean) is GoTest {
        if is_fail_headline(h) {
            law_go_keeps_first_headline(ls, i0);
            let o = go_fails(ls).0;
            let y = short_fail_headline(h);
            let k = choose|k: int| 0 <= k < o.len() && o[k] == y;
            lemma_join_contains(o, k);
            assert(body == go_join(o));
            if !(join_nl(o).len() > 0 && join_nl(o).last() == '\n') {
                lemma_contains_append(join_nl(o), seq!['\n'], y);
                assert(join_nl(o).push('\n') =~= join_nl(o) + seq!['\n']);
            }
            assert(contains(body, y));
        }
    } else {
        let o = with_fails(ls).0;
        let k = choose|k: int| 0 <= k < o.len() && o[k] == h;
        lemma_join_contains(o, k);
        lemma_contains_append(join_nl(o), seq!['\n'], h);
        assert(join_nl(o).push('\n') =~= join_nl(o) + seq!['\n']);
        assert(body == join_lines(o));
        assert(contains(body, h));
    }
}

/// [`keep_logsdirs`] as code.
fn keep_logsdirs_exec(out: &mut Vec<char>, ls: &Vec<Vec<char>>)
    ensures
        final(out)@ == keep_logsdirs(old(out)@, views(ls@)),
{
    let ghost o0 = out@;
    let mut i: usize = 0;
    while i < ls.len()
        invariant
            i <= ls.len(),
            o0 == old(out)@,
            out@ == keep_logsdirs(o0, views(ls@).take(i as int)),
        decreases ls.len() - i,
    {
        proof {
            lemma_take_step(views(ls@), i as int);
        }
        let t0 = trim_start_chars(&ls[i]);
        if starts_with_str(&t0, "Logsdir:") {
            let t = trim_chars(&ls[i]);
            let f = find_chars(out, &t);
            proof {
                lemma_find_facts(out@, t@);
            }
            if f.is_none() {
                terminate_nl_exec(out);
                append_chars(out, &t);
                out.push('\n');
            }
        }
        i += 1;
    }
    proof {
        lemma_take_all(views(ls@));
    }
}

/// [`envelope_body`] on text held as characters.
fn envelope_body_chars(clean: &Vec<char>) -> (r: Vec<char>)
    ensures
        r@ == envelope_body(clean@),
{
    if trim_chars(clean).len() == 0 {
        return Vec::new();
    }
    match detect_inner_runner_chars(clean) {
        InnerRunner::Py3test => {
            let s = string_of(clean);
            match filter_py3test(s.as_str()) {
                Some((body, _)) => chars_of(body.as_str()),
                None => generic_filter_chars(clean).0,
            }
        },
        InnerRunner::GoTest => go_filter_chars(clean).0,
        _ => generic_filter_chars(clean).0,
    }
}

/// [`envelope_filter`] on text held as characters.
pub fn envelope_filter_chars(raw: &Vec<char>) -> (r: Vec<char>)
    ensures
        r@ == envelope_filter(raw@),
{
    let clean = strip_ansi_chars(raw);
    let mut out = envelope_body_chars(&clean);
    let ls = split_lines(&clean);
    keep_logsdirs_exec(&mut out, &ls);
    out
}

/// Filter combined `ya` test-mode stdout/stderr text (see [`envelope_filter`]).
pub fn filter_ya_envelope(raw: &str) -> (r: String)
    ensures
        r@ == envelope_filter(raw@),
{
    string_of(&envelope_filter_chars(&chars_of(raw)))
}


// ---------------------------------------------------------------- stream

/// What the live test-mode filter holds between lines.
#[verifier::ext_equal]
pub struct StreamModel {
    /// Lines before the first `[fail]` (fat lines already dropped).
    pub preamble: Seq<Seq<char>>,
    pub seen_fail: bool,
    pub preamble_flushed: bool,
    /// The `[fail]` block being read.
    pub block: Seq<Seq<char>>,
    /// Blocks emitted so far (at most [`MAX_FAIL_BLOCKS`]).
    pub fails_emitted: nat,
    /// Headline of every closed block, shown or not.
    pub headlines: Seq<Seq<char>>,
    /// `Logsdir:` lines already emitted (trimmed at the start).
    pub seen_logsdir: Seq<Seq<char>>,
    pub truncated: bool,
    pub dropped_fat: bool,
    /// Everything handed out so far.
    pub emitted: Seq<char>,
}

pub open spec fn initial_stream() -> StreamModel {
    StreamModel {
        preamble: seq![],
        seen_fail: false,
        preamble_flushed: false,
        block: seq![],
        fails_emitted: 0,
        headlines: seq![],
        seen_logsdir: seq![],
        truncated: false,
        dropped_fat: false,
        emitted: seq![],
    }
}

/// Kept framing lines, each without trailing whitespace and followed by `\n`.
pub open spec fn framing_text(ls: Seq<Seq<char>>) -> Seq<char>
    decreases ls.len(),
{
    if ls.len() == 0 {
        seq![]
    } else if framing_kept(ls.last()) {
        framing_text(ls.drop_last()) + trim_end(ls.last()) + seq!['\n']
    } else {
        framing_text(ls.drop_last())
    }
}

pub open spec fn all_framing(ls: Seq<Seq<char>>) -> bool {
    forall|i: int| 0 <= i < ls.len() ==> framing_kept(#[trigger] ls[i])
}

/// Emits the kept framing of the buffered preamble, once.
pub open spec fn flush_preamble(m: StreamModel) -> (StreamModel, Seq<char>) {
    if m.preamble_flushed {
        (m, seq![])
    } else {
        (
            StreamModel {
                preamble: seq![],
                preamble_flushed: true,
                truncated: m.truncated || !all_framing(m.preamble),
                ..m
            },
            framing_text(m.preamble),
        )
    }
}

/// Emitted text, `Logsdir:` lines seen, and whether a repeated `Logsdir:`
/// line was dropped.
pub type DedupState = (Seq<char>, Seq<Seq<char>>, bool);

pub open spec fn dedup_step(st: DedupState, line: Seq<char>) -> DedupState {
    let (out, seen, dropped) = st;
    let t = trim_start(line);
    if starts_with(t, "Logsdir:"@) {
        if seen.contains(t) {
            (out, seen, true)
        } else {
            (out + line + seq!['\n'], seen.push(t), dropped)
        }
    } else {
        (out + line + seq!['\n'], seen, dropped)
    }
}

/// Compacted lines as emitted: each followed by `\n`, a `Logsdir:` line seen
/// before (in `seen` or earlier in `ls`) left out.
pub open spec fn dedup_run(ls: Seq<Seq<char>>, seen: Seq<Seq<char>>) -> DedupState
    decreases ls.len(),
{
    if ls.len() == 0 {
        (seq![], seen, false)
    } else {
        dedup_step(dedup_run(ls.drop_last(), seen), ls.last())
    }
}

/// Closes the open block: its headline is recorded; while fewer than
/// [`MAX_FAIL_BLOCKS`] were emitted, its compaction is emitted.
pub open spec fn close_block(m: StreamModel) -> (StreamModel, Option<Seq<char>>) {
    if m.block.len() == 0 {
        (m, None)
    } else {
        let b = m.block;
        let m1 = StreamModel { block: seq![], headlines: m.headlines.push(trim_end(b[0])), ..m };
        if m.fails_emitted >= MAX_FAIL_BLOCKS {
            (StreamModel { truncated: true, ..m1 }, None)
        } else {
            let (c, ct) = compact_block(b);
            let (text, seen, dropped) = dedup_run(c, m.seen_logsdir);
            (
                StreamModel {
                    truncated: m.truncated || ct || dropped,
                    seen_logsdir: seen,
                    fails_emitted: m.fails_emitted + 1,
                    ..m1
                },
                if text.len() == 0 {
                    None
                } else {
                    Some(text)
                },
            )
        }
    }
}

/// `… +N more failing tests` when more blocks closed than were shown.
pub open spec fn overflow_tail(m: StreamModel) -> (StreamModel, Seq<char>) {
    let total = m.headlines.len();
    if total <= MAX_FAIL_BLOCKS {
        (m, seq![])
    } else {
        (
            StreamModel { truncated: true, ..m },
            more_failing_line((total - MAX_FAIL_BLOCKS) as nat) + seq!['\n'],
        )
    }
}

pub open spec fn opt_text(o: Option<Seq<char>>) -> Seq<char> {
    match o {
        Some(t) => t,
        None => seq![],
    }
}

/// Hands `out` out (recording it) unless it is empty.
pub open spec fn emit(m: StreamModel, out: Seq<char>) -> (StreamModel, Option<Seq<char>>) {
    if out.len() == 0 {
        (m, None)
    } else {
        (StreamModel { emitted: m.emitted + out, ..m }, Some(out))
    }
}

/// One input line.
pub open spec fn stream_feed(m: StreamModel, line: Seq<char>) -> (StreamModel, Option<Seq<char>>) {
    let t = trim_start(line);
    if fat_drop(line) {
        (StreamModel { truncated: true, dropped_fat: true, ..m }, None)
    } else if !m.seen_fail {
        if starts_with(t, "[fail]"@) {
            let (m1, out) = flush_preamble(StreamModel { seen_fail: true, ..m });
            emit(StreamModel { block: m1.block.push(line), ..m1 }, out)
        } else {
            (StreamModel { preamble: m.preamble.push(line), ..m }, None)
        }
    } else if starts_with(t, "[fail]"@) {
        let (m1, closed) = close_block(m);
        emit(StreamModel { block: m1.block.push(line), ..m1 }, opt_text(closed))
    } else if m.block.len() > 0 {
        if block_boundary(line) {
            let (m1, closed) = close_block(m);
            if framing_kept(line) {
                emit(m1, opt_text(closed) + trim_end(line) + seq!['\n'])
            } else {
                emit(StreamModel { truncated: true, ..m1 }, opt_text(closed))
            }
        } else {
            (StreamModel { block: m.block.push(line), ..m }, None)
        }
    } else if framing_kept(line) {
        emit(m, trim_end(line) + seq!['\n'])
    } else if is_logsdir_line(line) {
        logsdir_outside(m, line)
    } else {
        (StreamModel { truncated: true, ..m }, None)
    }
}

/// A `Logsdir:` line between blocks: shown (cut like block lines) unless the
/// same text was shown before, and then recorded.
pub open spec fn logsdir_outside(m: StreamModel, line: Seq<char>) -> (StreamModel, Option<Seq<char>>) {
    let l = slim(line, MAX_LINE_CHARS as nat);
    let t = trim_start(l);
    if m.seen_logsdir.contains(t) {
        (StreamModel { truncated: true, ..m }, None)
    } else {
        emit(StreamModel { seen_logsdir: m.seen_logsdir.push(t), ..m }, l + seq!['\n'])
    }
}

/// End of input: the open block and the overflow line (nothing before any
/// `[fail]`: that case is filtered at exit).
pub open spec fn stream_flush(m: StreamModel) -> (StreamModel, Seq<char>) {
    if !m.seen_fail {
        (m, seq![])
    } else {
        let (m1, closed) = close_block(m);
        let (m2, tail) = overflow_tail(m1);
        let out = opt_text(closed) + tail;
        (StreamModel { emitted: m2.emitted + out, ..m2 }, out)
    }
}

/// Process exit: with no `[fail]` seen, the envelope filter of the full raw
/// text, never longer than the raw text; otherwise nothing.
pub open spec fn stream_exit(m: StreamModel, raw: Seq<char>) -> (StreamModel, Option<Seq<char>>) {
    if m.seen_fail {
        (m, None)
    } else {
        let shown = never_worse(raw, envelope_filter(raw));
        (StreamModel { emitted: m.emitted + shown, ..m }, Some(shown))
    }
}

pub open spec fn opt_view(o: Option<String>) -> Option<Seq<char>> {
    match o {
        Some(s) => Some(s@),
        None => None,
    }
}

/// [`dedup_run`] as code: the emitted text and whether a line was left out;
/// `seen` gains the new `Logsdir:` lines.
fn dedup_lines(compact: &Vec<Vec<char>>, seen: &mut Vec<Vec<char>>) -> (r: (Vec<char>, bool))
    ensures
        (r.0@, views(final(seen)@), r.1) == dedup_run(views(compact@), views(old(seen)@)),
{
    let mut out: Vec<char> = Vec::new();
    let mut i: usize = 0;
    let ghost seen0 = views(seen@);
    let mut dropped = false;
    while i < compact.len()
        invariant
            i <= compact.len(),
            seen0 == views(old(seen)@),
            (out@, views(seen@), dropped) == dedup_run(views(compact@).take(i as int), seen0),
        decreases compact.len() - i,
    {
        proof {
            lemma_take_step(views(compact@), i as int);
        }
        let t = trim_start_chars(&compact[i]);
        if starts_with_str(&t, "Logsdir:") {
            if seq_has(seen, &t) {
                dropped = true;
            } else {
                append_chars(&mut out, &compact[i]);
                out.push('\n');
                push_line(seen, t);
            }
        } else {
            append_chars(&mut out, &compact[i]);
            out.push('\n');
        }
        i += 1;
    }
    proof {
        lemma_take_all(views(compact@));
    }
    (out, dropped)
}

/// Streaming filter for long `ya` test suites: fat lines are dropped at once,
/// the preamble waits for the first `[fail]`, each `[fail]` block is emitted
/// compacted as soon as it closes; with no `[fail]` at all the whole raw text
/// is filtered at exit.
pub struct YaTestStreamFilter {
    preamble: Vec<Vec<char>>,
    seen_fail: bool,
    preamble_flushed: bool,
    current_block: Vec<Vec<char>>,
    fails_emitted: usize,
    headlines: Vec<Vec<char>>,
    seen_logsdir: Vec<Vec<char>>,
    truncated: bool,
    dropped_fat: bool,
    emitted: String,
    location: LocationRegex,
}

impl View for YaTestStreamFilter {
    type V = StreamModel;

    closed spec fn view(&self) -> StreamModel {
        StreamModel {
            preamble: views(self.preamble@),
            seen_fail: self.seen_fail,
            preamble_flushed: self.preamble_flushed,
            block: views(self.current_block@),
            fails_emitted: self.fails_emitted as nat,
            headlines: views(self.headlines@),
            seen_logsdir: views(self.seen_logsdir@),
            truncated: self.truncated,
            dropped_fat: self.dropped_fat,
            emitted: self.emitted@,
        }
    }
}

impl YaTestStreamFilter {
    pub fn new() -> (r: Self)
        ensures
            r@ == initial_stream(),
    {
        let r = YaTestStreamFilter {
            preamble: Vec::new(),
            seen_fail: false,
            preamble_flushed: false,
            current_block: Vec::new(),
            fails_emitted: 0,
            headlines: Vec::new(),
            seen_logsdir: Vec::new(),
            truncated: false,
            dropped_fat: false,
            emitted: String::new(),
            location: LocationRegex::new(),
        };
        assert(r@ =~= initial_stream());
        r
    }

    fn note_emit(&mut self, chunk: &Vec<char>)
        ensures
            final(self)@ == (StreamModel { emitted: old(self)@.emitted + chunk@, ..old(self)@ }),
    {
        let mut i: usize = 0;
        let ghost start = self.emitted@;
        while i < chunk.len()
            invariant
                i <= chunk.len(),
                self.emitted@ == start + chunk@.take(i as int),
                self.preamble == old(self).preamble,
                self.seen_fail == old(self).seen_fail,
                self.preamble_flushed == old(self).preamble_flushed,
                self.current_block == old(self).current_block,
                self.fails_emitted == old(self).fails_emitted,
                self.headlines == old(self).headlines,
                self.seen_logsdir == old(self).seen_logsdir,
                self.truncated == old(self).truncated,
                self.dropped_fat == old(self).dropped_fat,
                start == old(self).emitted@,
            decreases chunk.len() - i,
        {
            crate::text::string_push_char(&mut self.emitted, chunk[i]);
            assert(chunk@.take(i + 1) =~= chunk@.take(i as int).push(chunk@[i as int]));
            i += 1;
        }
        assert(chunk@.take(chunk.len() as int) =~= chunk@);
        assert(self@ =~= (StreamModel { emitted: old(self)@.emitted + chunk@, ..old(self)@ }));
    }

    fn flush_preamble_framing(&mut self) -> (r: Vec<char>)
        ensures
            (final(self)@, r@) == flush_preamble(old(self)@),
    {
        if self.preamble_flushed {
            return Vec::new();
        }
        self.preamble_flushed = true;
        let mut out: Vec<char> = Vec::new();
        let mut i: usize = 0;
        let ghost pre = views(self.preamble@);
        let mut all = true;
        while i < self.preamble.len()
            invariant
                i <= self.preamble.len(),
                pre == views(self.preamble@),
                out@ == framing_text(pre.take(i as int)),
                all == all_framing(pre.take(i as int)),
            decreases self.preamble.len() - i,
        {
            proof {
                lemma_take_step(pre, i as int);
            }
            if framing_kept_chars(&self.preamble[i]) {
                let l = trim_end_chars(&self.preamble[i]);
                append_chars(&mut out, &l);
                out.push('\n');
            } else {
                all = false;
            }
            assert(all == all_framing(pre.take(i + 1))) by {
                if !framing_kept(pre[i as int]) {
                    assert(pre.take(i + 1)[i as int] == pre[i as int]);
                }
            }
            i += 1;
        }
        proof {
            lemma_take_all(pre);
        }
        if !all {
            self.truncated = true;
        }
        self.preamble = Vec::new();
        assert(self@ =~= flush_preamble(old(self)@).0);
        out
    }

    fn close_fail_block(&mut self) -> (r: Option<Vec<char>>)
        ensures
            (final(self)@, match r {
                Some(v) => Some(v@),
                None => None,
            }) == close_block(old(self)@),
    {
        if self.current_block.len() == 0 {
            return None;
        }
        let mut block: Vec<Vec<char>> = Vec::new();
        std::mem::swap(&mut block, &mut self.current_block);
        push_line(&mut self.headlines, trim_end_chars(&block[0]));
        if self.fails_emitted >= MAX_FAIL_BLOCKS {
            self.truncated = true;
            assert(self@ =~= close_block(old(self)@).0);
            return None;
        }
        let (compact, block_trunc) = compact_block_chars(&self.location, &block);
        if block_trunc {
            self.truncated = true;
        }
        let (out, dropped) = dedup_lines(&compact, &mut self.seen_logsdir);
        if dropped {
            self.truncated = true;
        }
        self.fails_emitted = self.fails_emitted + 1;
        assert(self@ =~= close_block(old(self)@).0);
        if out.len() == 0 {
            None
        } else {
            Some(out)
        }
    }

    fn overflow_tail(&mut self) -> (r: Vec<char>)
        ensures
            (final(self)@, r@) == overflow_tail(old(self)@),
    {
        let total = self.headlines.len();
        if total <= MAX_FAIL_BLOCKS {
            return Vec::new();
        }
        self.truncated = true;
        let mut out = more_failing_line_exec(total - MAX_FAIL_BLOCKS);
        out.push('\n');
        assert(self@ =~= overflow_tail(old(self)@).0);
        out
    }

    /// Tee request for the full headline list once more blocks closed than
    /// were shown (see [`fail_overflow_tee_chars`]).
    pub fn overflow_tee(&self) -> (r: Option<TeeTail>)
        ensures
            r is None <==> self@.headlines.len() <= MAX_FAIL_BLOCKS,
            r matches Some(t) ==> {
                &&& t.content@ == join_nl(self@.headlines)
                &&& t.label@ == "ya-fails"@
                &&& t.offset == MAX_FAIL_BLOCKS + 1
            },
    {
        fail_overflow_tee_chars(&self.headlines, MAX_FAIL_BLOCKS)
    }

    /// Whether a fat line was dropped.
    pub fn did_drop_fat(&self) -> (r: bool)
        ensures
            r == self@.dropped_fat,
    {
        self.dropped_fat
    }

    /// Everything handed out so far.
    pub fn emitted_so_far(&self) -> (r: &str)
        ensures
            r@ == self@.emitted,
    {
        self.emitted.as_str()
    }

    /// Feed one line; returns the text to show now, if any.
    pub fn feed_line(&mut self, line: &str) -> (r: Option<String>)
        ensures
            (final(self)@, opt_view(r)) == stream_feed(old(self)@, line@),
    {
        let l = chars_of(line);
        let out = self.feed_chars(l);
        match out {
            Some(v) => Some(string_of(&v)),
            None => None,
        }
    }

    fn emit_chars(&mut self, out: Vec<char>) -> (r: Option<Vec<char>>)
        ensures
            (final(self)@, match r {
                Some(v) => Some(v@),
                None => None,
            }) == emit(old(self)@, out@),
    {
        if out.len() == 0 {
            return None;
        }
        self.note_emit(&out);
        Some(out)
    }

    fn feed_chars(&mut self, line: Vec<char>) -> (r: Option<Vec<char>>)
        ensures
            (final(self)@, match r {
                Some(v) => Some(v@),
                None => None,
            }) == stream_feed(old(self)@, line@),
    {
        if fat_drop_chars(&line) {
            self.truncated = true;
            self.dropped_fat = true;
            assert(self@ =~= stream_feed(old(self)@, line@).0);
            return None;
        }
        let t = trim_start_chars(&line);
        let is_fail = starts_with_str(&t, "[fail]");
        if !self.seen_fail {
            if is_fail {
                self.seen_fail = true;
                let out = self.flush_preamble_framing();
                push_line(&mut self.current_block, line);
                return self.emit_chars(out);
            }
            push_line(&mut self.preamble, line);
            assert(self@ =~= stream_feed(old(self)@, line@).0);
            return None;
        }
        if is_fail {
            let closed = self.close_fail_block();
            let out = match closed {
                Some(c) => c,
                None => Vec::new(),
            };
            push_line(&mut self.current_block, line);
            return self.emit_chars(out);
        }
        if self.current_block.len() > 0 {
            if block_boundary_chars(&line) {
                let closed = self.close_fail_block();
                let mut out = match closed {
                    Some(c) => c,
                    None => Vec::new(),
                };
                if framing_kept_chars(&line) {
                    append_chars(&mut out, &trim_end_chars(&line));
                    out.push('\n');
                } else {
                    self.truncated = true;
                }
                return self.emit_chars(out);
            }
            push_line(&mut self.current_block, line);
            assert(self@ =~= stream_feed(old(self)@, line@).0);
            return None;
        }
        if framing_kept_chars(&line) {
            let mut chunk = trim_end_chars(&line);
            chunk.push('\n');
            return self.emit_chars(chunk);
        }
        if starts_with_str(&t, "Logsdir:") {
            let l = slim_chars(&line, MAX_LINE_CHARS);
            let lt = trim_start_chars(&l);
            if seq_has(&self.seen_logsdir, &lt) {
                self.truncated = true;
                assert(self@ =~= stream_feed(old(self)@, line@).0);
                return None;
            }
            push_line(&mut self.seen_logsdir, lt);
            let mut chunk = l;
            chunk.push('\n');
            return self.emit_chars(chunk);
        }
        self.truncated = true;
        assert(self@ =~= stream_feed(old(self)@, line@).0);
        None
    }

    /// End of input: the open block and the overflow line.
    pub fn flush(&mut self) -> (r: String)
        ensures
            (final(self)@, r@) == stream_flush(old(self)@),
    {
        if !self.seen_fail {
            return String::new();
        }
        let closed = self.close_fail_block();
        let mut out = match closed {
            Some(c) => c,
            None => Vec::new(),
        };
        let tail = self.overflow_tail();
        append_chars(&mut out, &tail);
        self.note_emit(&out);
        string_of(&out)
    }

    /// Process exit. With no `[fail]` seen, the full raw text is filtered and
    /// never shown longer than it came.
    pub fn on_exit(&mut self, exit_code: i32, raw: &str) -> (r: Option<String>)
        ensures
            (final(self)@, opt_view(r)) == stream_exit(old(self)@, raw@),
    {
        if self.seen_fail {
            return None;
        }
        let raw_chars = chars_of(raw);
        let filtered = envelope_filter_chars(&raw_chars);
        let shown = never_worse_chars(&raw_chars, &filtered);
        self.note_emit(&shown);
        Some(string_of(&shown))
    }
}

impl Default for YaTestStreamFilter {
    fn default() -> (r: Self)
        ensures
            r@ == initial_stream(),
    {
        Self::new()
    }
}

/// Stream filter entry for test-mode `ya make -t*` / `ya test`.
pub fn test_stream_filter() -> (r: YaTestStreamFilter)
    ensures
        r@ == initial_stream(),
{
    YaTestStreamFilter::new()
}

// ---------------------------------------------------------------- stream laws

/// The live filter emits at most [`MAX_FAIL_BLOCKS`] compacted blocks: no
/// line and no flush takes the count past the cap.
pub proof fn law_stream_cap(m: StreamModel, line: Seq<char>)
    requires
        m.fails_emitted <= MAX_FAIL_BLOCKS,
    ensures
        initial_stream().fails_emitted == 0,
        stream_feed(m, line).0.fails_emitted <= MAX_FAIL_BLOCKS,
        stream_flush(m).0.fails_emitted <= MAX_FAIL_BLOCKS,
{
}

/// What the filter records as emitted is exactly what it hands out.
pub proof fn law_stream_emitted(m: StreamModel, line: Seq<char>, raw: Seq<char>)
    ensures
        stream_feed(m, line).0.emitted == m.emitted + opt_text(stream_feed(m, line).1),
        stream_flush(m).0.emitted == m.emitted + stream_flush(m).1,
        stream_exit(m, raw).0.emitted == m.emitted + opt_text(stream_exit(m, raw).1),
{
    assert(m.emitted + Seq::<char>::empty() =~= m.emitted);
}

/// Before the first `[fail]` line nothing is shown: the preamble waits.
pub proof fn law_preamble_waits(m: StreamModel, line: Seq<char>)
    requires
        !m.seen_fail,
        !is_fail_headline(line),
    ensures
        stream_feed(m, line).1 is None,
        !stream_feed(m, line).0.seen_fail,
{
}

/// At exit without any `[fail]`, what is shown is never longer than the raw
/// text; with a `[fail]` seen, nothing more is shown.
pub proof fn law_stream_exit_bounded(m: StreamModel, raw: Seq<char>)
    ensures
        !m.seen_fail ==> (stream_exit(m, raw).1 matches Some(t) && utf8_len(t) <= utf8_len(raw)),
        m.seen_fail ==> stream_exit(m, raw).1 is None,
{
    law_never_worse(raw, envelope_filter(raw));
}

/// One call on the live filter: a line fed, or the end-of-input flush.
pub enum StreamEvent {
    Feed(Seq<char>),
    Flush,
}

/// The live filter's state after `evs`, from `m`.
pub open spec fn stream_run(m: StreamModel, evs: Seq<StreamEvent>) -> StreamModel
    decreases evs.len(),
{
    if evs.len() == 0 {
        m
    } else {
        let m1 = stream_run(m, evs.drop_last());
        match evs.last() {
            StreamEvent::Feed(l) => stream_feed(m1, l).0,
            StreamEvent::Flush => stream_flush(m1).0,
        }
    }
}

/// Some fed line of `evs` is a `[fail]` headline that is not dropped as bulk.
pub open spec fn fed_fail(evs: Seq<StreamEvent>) -> bool {
    exists|i: int| 0 <= i < evs.len() && fail_event(#[trigger] evs[i])
}

/// A fed `[fail]` headline that is not dropped as bulk.
pub open spec fn fail_event(e: StreamEvent) -> bool {
    match e {
        StreamEvent::Feed(l) => !fat_drop(l) && is_fail_headline(l),
        StreamEvent::Flush => false,
    }
}

proof fn lemma_stream_run_seen_fail(evs: Seq<StreamEvent>)
    ensures
        stream_run(initial_stream(), evs).seen_fail == fed_fail(evs),
    decreases evs.len(),
{
    if evs.len() > 0 {
        let prev = evs.drop_last();
        lemma_stream_run_seen_fail(prev);
        assert forall|i: int| 0 <= i < prev.len() implies #[trigger] prev[i] == evs[i] by {}
        if fed_fail(prev) {
            let i = choose|i: int| 0 <= i < prev.len() && fail_event(#[trigger] prev[i]);
            assert(evs[i] == prev[i]);
        }
        if fed_fail(evs) {
            let i = choose|i: int| 0 <= i < evs.len() && fail_event(#[trigger] evs[i]);
            if i < evs.len() - 1 {
                assert(prev[i] == evs[i]);
            }
        }
    }
}

/// Over every run of calls from a new filter: exit shows nothing once a
/// (non-bulk) `[fail]` headline was fed, since the live output stands;
/// otherwise it shows the envelope filter of the raw text, never longer than
/// the raw text.
pub proof fn law_stream_exit_choice(evs: Seq<StreamEvent>, raw: Seq<char>)
    ensures
        fed_fail(evs) ==> stream_exit(stream_run(initial_stream(), evs), raw).1 is None,
        !fed_fail(evs) ==> stream_exit(stream_run(initial_stream(), evs), raw).1 == Some(
            never_worse(raw, envelope_filter(raw)),
        ),
{
    lemma_stream_run_seen_fail(evs);
}

proof fn lemma_framing_text_ends(ls: Seq<Seq<char>>)
    ensures
        framing_text(ls).len() == 0 || framing_text(ls).last() == '\n',
    decreases ls.len(),
{
    if ls.len() > 0 {
        lemma_framing_text_ends(ls.drop_last());
    }
}

proof fn lemma_dedup_text_ends(ls: Seq<Seq<char>>, seen: Seq<Seq<char>>)
    ensures
        dedup_run(ls, seen).0.len() == 0 || dedup_run(ls, seen).0.last() == '\n',
    decreases ls.len(),
{
    if ls.len() > 0 {
        lemma_dedup_text_ends(ls.drop_last(), seen);
    }
}

proof fn lemma_closed_text_ends(m: StreamModel)
    ensures
        opt_text(close_block(m).1).len() == 0 || opt_text(close_block(m).1).last() == '\n',
{
    if m.block.len() > 0 && m.fails_emitted < MAX_FAIL_BLOCKS {
        lemma_dedup_text_ends(compact_block(m.block).0, m.seen_logsdir);
    }
}

/// Every chunk the live filter hands out for a line is non-empty and ends
/// with `\n`; what a flush hands out is empty or ends with `\n`.
pub proof fn law_stream_chunks_are_lines(m: StreamModel, line: Seq<char>)
    ensures
        stream_feed(m, line).1 matches Some(s) ==> s.len() > 0 && s.last() == '\n',
        stream_flush(m).1.len() == 0 || stream_flush(m).1.last() == '\n',
{
    lemma_framing_text_ends(m.preamble);
    lemma_closed_text_ends(m);
    let (m1, closed) = close_block(m);
    let (m2, tail) = overflow_tail(m1);
    let a = opt_text(closed);
    let b = trim_end(line) + seq!['\n'];
    assert((a + b).last() == '\n');
    assert(tail.len() == 0 || tail.last() == '\n');
    assert(a + tail == a || (a + tail).last() == '\n') by {
        if tail.len() == 0 {
            assert(a + tail =~= a);
        }
    }
}

// ---------------------------------------------------------------- marker law

/// A text to look for that no line break or cut can produce: it holds no
/// `\n` and no `…` (the full-output marker `[full output:` is one).
pub open spec fn marker_text(p: Seq<char>) -> bool {
    p.len() > 0 && forall|j: int| 0 <= j < p.len() ==> p[j] != '\n' && p[j] != '…'
}

/// Some line of `ls` holds `p`.
pub open spec fn some_line_has(ls: Seq<Seq<char>>, p: Seq<char>) -> bool {
    exists|k: int| 0 <= k < ls.len() && contains(#[trigger] ls[k], p)
}

proof fn lemma_split_after_line(a: Seq<char>, l: Seq<char>, p: Seq<char>)
    requires
        a.len() == 0 || a.last() == '\n',
        marker_text(p),
        contains(a + l + seq!['\n'], p),
    ensures
        contains(a, p) || contains(l, p),
{
    lemma_contains_split(a + l, '\n', Seq::<char>::empty(), p);
    if p.len() > 0 && contains(a + l, p) && a.len() > 0 {
        let a0 = a.drop_last();
        assert(a + l =~= a0 + seq!['\n'] + l);
        lemma_contains_split(a0, '\n', l, p);
        if contains(a0, p) {
            lemma_contains_append(a0, seq!['\n'], p);
            assert(a0 + seq!['\n'] =~= a);
        }
    } else if p.len() > 0 && contains(a + l, p) {
        assert(a + l =~= l);
    } else if p.len() == 0 {
        assert(l.subrange(0, 0) =~= p);
        assert(occurs_at(l, p, 0));
    }
}

proof fn lemma_framing_text_marker(ls: Seq<Seq<char>>, p: Seq<char>)
    requires
        marker_text(p),
        contains(framing_text(ls), p),
    ensures
        some_line_has(ls, p),
    decreases ls.len(),
{
    if ls.len() > 0 {
        let prev = ls.drop_last();
        let a = framing_text(prev);
        lemma_framing_text_ends(prev);
        if framing_kept(ls.last()) {
            lemma_split_after_line(a, trim_end(ls.last()), p);
            if contains(a, p) {
                lemma_framing_text_marker(prev, p);
                let k = choose|k: int| 0 <= k < prev.len() && contains(#[trigger] prev[k], p);
                assert(ls[k] == prev[k]);
            } else {
                lemma_trim_end_prefix(ls.last());
                lemma_contains_take(ls.last(), trim_end(ls.last()).len() as int, p);
                assert(ls[ls.len() - 1] == ls.last());
                assert(contains(ls[ls.len() - 1], p));
            }
        } else {
            lemma_framing_text_marker(prev, p);
            let k = choose|k: int| 0 <= k < prev.len() && contains(#[trigger] prev[k], p);
            assert(ls[k] == prev[k]);
        }
    }
}

proof fn lemma_dedup_marker(ls: Seq<Seq<char>>, seen: Seq<Seq<char>>, p: Seq<char>)
    requires
        marker_text(p),
        contains(dedup_run(ls, seen).0, p),
    ensures
        some_line_has(ls, p),
    decreases ls.len(),
{
    if ls.len() > 0 {
        let prev = ls.drop_last();
        let a = dedup_run(prev, seen).0;
        lemma_dedup_text_ends(prev, seen);
        if dedup_run(ls, seen).0 == a {
            lemma_dedup_marker(prev, seen, p);
        } else {
            lemma_split_after_line(a, ls.last(), p);
            if contains(a, p) {
                lemma_dedup_marker(prev, seen, p);
            } else {
                assert(ls[ls.len() - 1] == ls.last());
                assert(contains(ls[ls.len() - 1], p));
            }
        }
        if contains(a, p) {
            let k = choose|k: int| 0 <= k < prev.len() && contains(#[trigger] prev[k], p);
            assert(ls[k] == prev[k]);
        }
    }
}

proof fn lemma_close_marker(m: StreamModel, p: Seq<char>)
    requires
        marker_text(p),
        contains(opt_text(close_block(m).1), p),
    ensures
        some_line_has(m.block, p),
{
    let c = compact_block(m.block).0;
    lemma_dedup_marker(c, m.seen_logsdir, p);
    let k = choose|k: int| 0 <= k < c.len() && contains(#[trigger] c[k], p);
    law_compact_lines_from_block(m.block, k);
    let i = choose|i: int|
        0 <= i < m.block.len() && #[trigger] c[k] == slim(m.block[i], MAX_LINE_CHARS as nat) && (i
            == 0 || !assertion_dump(trim_start(m.block[i])));
    lemma_contains_slim(m.block[i], MAX_LINE_CHARS as nat, p);
}

/// What one fed line makes the live filter hand out holds a marker text
/// only if the line, or a line it was holding back (preamble or open block),
/// held it: the filter writes no such text of its own.
pub proof fn law_stream_marker_step(m: StreamModel, line: Seq<char>, p: Seq<char>)
    requires
        marker_text(p),
    ensures
        stream_feed(m, line).1 matches Some(s) && contains(s, p) ==> contains(line, p)
            || some_line_has(m.preamble, p) || some_line_has(m.block, p),
{
    let t = trim_start(line);
    match stream_feed(m, line).1 {
        Some(s) => {
            if contains(s, p) {
                lemma_trim_end_prefix(line);
                if !m.seen_fail {
                    lemma_framing_text_marker(m.preamble, p);
                } else if starts_with(t, "[fail]"@) {
                    lemma_close_marker(m, p);
                } else if m.block.len() > 0 {
                    lemma_closed_text_ends(m);
                    let a = opt_text(close_block(m).1);
                    if framing_kept(line) {
                        assert(s == a + trim_end(line) + seq!['\n']);
                        lemma_split_after_line(a, trim_end(line), p);
                        if contains(a, p) {
                            lemma_close_marker(m, p);
                        } else {
                            lemma_contains_take(line, trim_end(line).len() as int, p);
                        }
                    } else {
                        lemma_close_marker(m, p);
                    }
                } else if framing_kept(line) {
                    lemma_split_after_line(Seq::<char>::empty(), trim_end(line), p);
                    assert(Seq::<char>::empty() + trim_end(line) =~= trim_end(line));
                    if contains(Seq::<char>::empty(), p) {
                        assert(line.subrange(0, 0) =~= p);
                        assert(occurs_at(line, p, 0));
                    } else {
                        lemma_contains_take(line, trim_end(line).len() as int, p);
                    }
                } else {
                    let l = slim(line, MAX_LINE_CHARS as nat);
                    lemma_split_after_line(Seq::<char>::empty(), l, p);
                    assert(Seq::<char>::empty() + l =~= l);
                    if contains(Seq::<char>::empty(), p) {
                        assert(line.subrange(0, 0) =~= p);
                        assert(occurs_at(line, p, 0));
                    } else {
                        lemma_contains_slim(line, MAX_LINE_CHARS as nat, p);
                    }
                }
            }
        },
        None => {},
    }
}

/// The lines fed in `evs`, in order.
pub open spec fn fed_lines(evs: Seq<StreamEvent>) -> Seq<Seq<char>>
    decreases evs.len(),
{
    if evs.len() == 0 {
        seq![]
    } else {
        match evs.last() {
            StreamEvent::Feed(l) => fed_lines(evs.drop_last()).push(l),
            StreamEvent::Flush => fed_lines(evs.drop_last()),
        }
    }
}

/// Every line the filter holds back (preamble, open block) is among `fed`.
pub open spec fn held_from(m: StreamModel, fed: Seq<Seq<char>>) -> bool {
    &&& forall|k: int| 0 <= k < m.preamble.len() ==> fed.contains(#[trigger] m.preamble[k])
    &&& forall|k: int| 0 <= k < m.block.len() ==> fed.contains(#[trigger] m.block[k])
}

proof fn lemma_held_grow(m: StreamModel, fed: Seq<Seq<char>>, l: Seq<char>)
    requires
        held_from(m, fed),
    ensures
        held_from(m, fed.push(l)),
        held_from(StreamModel { block: m.block.push(l), ..m }, fed.push(l)),
        held_from(StreamModel { preamble: m.preamble.push(l), ..m }, fed.push(l)),
{
    let f2 = fed.push(l);
    assert(f2[fed.len() as int] == l);
    assert forall|x: Seq<char>| fed.contains(x) implies f2.contains(x) by {
        let j = choose|j: int| 0 <= j < fed.len() && fed[j] == x;
        assert(f2[j] == x);
    }
    let b = m.block.push(l);
    assert forall|k: int| 0 <= k < b.len() implies f2.contains(#[trigger] b[k]) by {
        if k < m.block.len() {
            assert(b[k] == m.block[k]);
            assert(fed.contains(m.block[k]));
        }
    }
    let pr = m.preamble.push(l);
    assert forall|k: int| 0 <= k < pr.len() implies f2.contains(#[trigger] pr[k]) by {
        if k < m.preamble.len() {
            assert(pr[k] == m.preamble[k]);
            assert(fed.contains(m.preamble[k]));
        }
    }
}

proof fn lemma_held_step(m: StreamModel, fed: Seq<Seq<char>>, l: Seq<char>)
    requires
        held_from(m, fed),
    ensures
        held_from(stream_feed(m, l).0, fed.push(l)),
        held_from(stream_flush(m).0, fed),
{
    lemma_held_grow(m, fed, l);
    let (m1, _) = close_block(m);
    assert(held_from(m1, fed));
    lemma_held_grow(m1, fed, l);
    let (mp, _) = flush_preamble(StreamModel { seen_fail: true, ..m });
    assert(held_from(mp, fed));
    lemma_held_grow(mp, fed, l);
    let t = trim_start(l);
    if !fat_drop(l) && m.seen_fail && !starts_with(t, "[fail]"@) && m.block.len() == 0
        && !framing_kept(l) && is_logsdir_line(l) {
        let r = logsdir_outside(m, l).0;
        assert(r.preamble == m.preamble && r.block == m.block);
    }
}

proof fn lemma_held_run(evs: Seq<StreamEvent>)
    ensures
        held_from(stream_run(initial_stream(), evs), fed_lines(evs)),
    decreases evs.len(),
{
    if evs.len() > 0 {
        let prev = evs.drop_last();
        lemma_held_run(prev);
        let m = stream_run(initial_stream(), prev);
        match evs.last() {
            StreamEvent::Feed(l) => lemma_held_step(m, fed_lines(prev), l),
            StreamEvent::Flush => lemma_held_step(m, fed_lines(prev), seq![]),
        }
    }
}

/// Over every run of calls from a new filter, what a fed line makes the live
/// filter hand out holds a marker text (such as `[full output:`) only if some
/// fed line held it: the filter never writes a full-output marker itself.
pub proof fn law_stream_marker(evs: Seq<StreamEvent>, line: Seq<char>, p: Seq<char>)
    requires
        marker_text(p),
    ensures
        stream_feed(stream_run(initial_stream(), evs), line).1 matches Some(s) && contains(s, p)
            ==> contains(line, p) || some_line_has(fed_lines(evs), p),
{
    let m = stream_run(initial_stream(), evs);
    let fed = fed_lines(evs);
    lemma_held_run(evs);
    law_stream_marker_step(m, line, p);
    if some_line_has(m.preamble, p) {
        let k = choose|k: int| 0 <= k < m.preamble.len() && contains(#[trigger] m.preamble[k], p);
        assert(fed.contains(m.preamble[k]));
        let j = choose|j: int| 0 <= j < fed.len() && fed[j] == m.preamble[k];
        assert(contains(fed[j], p));
    }
    if some_line_has(m.block, p) {
        let k = choose|k: int| 0 <= k < m.block.len() && contains(#[trigger] m.block[k], p);
        assert(fed.contains(m.block[k]));
        let j = choose|j: int| 0 <= j < fed.len() && fed[j] == m.block[k];
        assert(contains(fed[j], p));
    }
}

/// The live filter never writes a full-output marker of its own: over every
/// run of calls, a chunk for a fed line holds `[full output:` only if some
/// fed line did (full-raw recovery is the runner's tee, not the filter's).
pub proof fn law_stream_no_own_full_output(evs: Seq<StreamEvent>, line: Seq<char>)
    ensures
        stream_feed(stream_run(initial_stream(), evs), line).1 matches Some(s) && contains(
            s,
            "[full output:"@,
        ) ==> contains(line, "[full output:"@) || some_line_has(fed_lines(evs), "[full output:"@),
{
    reveal_strlit("[full output:");
    law_stream_marker(evs, line, "[full output:"@);
}

/// Every `Logsdir:` text the filter counts as shown was handed out.
pub open spec fn logsdirs_shown(m: StreamModel) -> bool {
    forall|k: int| 0 <= k < m.seen_logsdir.len() ==> contains(m.emitted, #[trigger] m.seen_logsdir[k])
}

proof fn lemma_dedup_run(ls: Seq<Seq<char>>, seen: Seq<Seq<char>>)
    ensures
        ({
            let (text, seen2, _) = dedup_run(ls, seen);
            &&& seen.len() <= seen2.len()
            &&& forall|k: int| 0 <= k < seen.len() ==> seen2[k] == seen[k]
            &&& forall|k: int| seen.len() <= k < seen2.len() ==> contains(text, #[trigger] seen2[k])
            &&& forall|j: int|
                0 <= j < ls.len() ==> seen2.contains(trim_start(#[trigger] ls[j])) || contains(
                    text,
                    trim_start(ls[j]),
                )
        }),
    decreases ls.len(),
{
    if ls.len() > 0 {
        let prev = ls.drop_last();
        lemma_dedup_run(prev, seen);
        let (t0, s0, d0) = dedup_run(prev, seen);
        let (t1, s1, d1) = dedup_run(ls, seen);
        let line = ls.last();
        let n = ls.len() - 1;
        assert forall|k: int| seen.len() <= k < s1.len() implies contains(t1, #[trigger] s1[k]) by {
            if k < s0.len() {
                assert(s1[k] == s0[k]);
                lemma_contains_append(t0, line + seq!['\n'], s0[k]);
                assert(t0 + line + seq!['\n'] =~= t0 + (line + seq!['\n']));
            } else {
                assert(s1[k] == trim_start(line));
                lemma_contains_trimmed(line, seq!['\n']);
                lemma_contains_append(t0, line + seq!['\n'], trim_start(line));
                assert(t0 + line + seq!['\n'] =~= t0 + (line + seq!['\n']));
            }
        }
        assert forall|j: int| 0 <= j < ls.len() implies s1.contains(trim_start(#[trigger] ls[j]))
            || contains(t1, trim_start(ls[j])) by {
            if j < n {
                assert(prev[j] == ls[j]);
                if s0.contains(trim_start(ls[j])) {
                    let k = choose|k: int| 0 <= k < s0.len() && s0[k] == trim_start(ls[j]);
                    assert(s1[k] == s0[k]);
                } else {
                    lemma_contains_append(t0, line + seq!['\n'], trim_start(ls[j]));
                    assert(t0 + line + seq!['\n'] =~= t0 + (line + seq!['\n']));
                }
            } else {
                lemma_contains_trimmed(line, seq!['\n']);
                lemma_contains_append(t0, line + seq!['\n'], trim_start(line));
                assert(t0 + line + seq!['\n'] =~= t0 + (line + seq!['\n']));
                if s0.contains(trim_start(line)) {
                    let k = choose|k: int| 0 <= k < s0.len() && s0[k] == trim_start(line);
                    assert(s1[k] == s0[k]);
                }
            }
        }
    }
}

/// Closing a block keeps the shown `Logsdir:` texts handed out.
proof fn lemma_close_block_shown(m: StreamModel)
    requires
        logsdirs_shown(m),
    ensures
        logsdirs_shown(StreamModel { emitted: m.emitted + opt_text(close_block(m).1), ..close_block(m).0 }),
{
    let (m1, closed) = close_block(m);
    let e = m.emitted + opt_text(closed);
    if m.block.len() > 0 && m.fails_emitted < MAX_FAIL_BLOCKS {
        let (c, _) = compact_block(m.block);
        lemma_dedup_run(c, m.seen_logsdir);
        let (text, seen2, _) = dedup_run(c, m.seen_logsdir);
        assert(opt_text(closed) == text);
        assert forall|k: int| 0 <= k < seen2.len() implies contains(e, #[trigger] seen2[k]) by {
            lemma_contains_append(m.emitted, text, seen2[k]);
        }
    } else {
        assert forall|k: int| 0 <= k < m1.seen_logsdir.len() implies contains(e, #[trigger] m1.seen_logsdir[k]) by {
            lemma_contains_append(m.emitted, opt_text(closed), m1.seen_logsdir[k]);
        }
    }
}

proof fn lemma_emit_more(m: StreamModel, extra: Seq<char>)
    requires
        logsdirs_shown(m),
    ensures
        logsdirs_shown(StreamModel { emitted: m.emitted + extra, ..m }),
        logsdirs_shown(emit(m, extra).0),
{
    assert forall|k: int| 0 <= k < m.seen_logsdir.len() implies contains(m.emitted + extra, #[trigger] m.seen_logsdir[k]) by {
        lemma_contains_append(m.emitted, extra, m.seen_logsdir[k]);
    }
}

proof fn lemma_logsdir_outside_shown(m: StreamModel, line: Seq<char>)
    requires
        logsdirs_shown(m),
    ensures
        logsdirs_shown(logsdir_outside(m, line).0),
{
    let l = slim(line, MAX_LINE_CHARS as nat);
    let t = trim_start(l);
    lemma_emit_more(m, seq![]);
    if !m.seen_logsdir.contains(t) {
        let chunk = l + seq!['\n'];
        let m1 = StreamModel { seen_logsdir: m.seen_logsdir.push(t), ..m };
        let r = logsdir_outside(m, line).0;
        assert(r == StreamModel { emitted: m.emitted + chunk, ..m1 });
        lemma_contains_trimmed(l, seq!['\n']);
        lemma_contains_append(m.emitted, chunk, t);
        assert forall|k: int| 0 <= k < r.seen_logsdir.len() implies contains(
            r.emitted,
            #[trigger] r.seen_logsdir[k],
        ) by {
            if k < m.seen_logsdir.len() {
                assert(r.seen_logsdir[k] == m.seen_logsdir[k]);
                lemma_contains_append(m.emitted, chunk, m.seen_logsdir[k]);
            }
        }
    }
}

/// A `Logsdir:` line between blocks (after a block closed, e.g. after the
/// suite's FAIL line) is never lost by the live filter: once it is fed, its
/// text (cut like block lines) is among what was handed out — shown now, or
/// shown before and not repeated.
pub proof fn law_stream_shows_logsdir_between_blocks(m: StreamModel, line: Seq<char>)
    requires
        logsdirs_shown(m),
        m.seen_fail,
        m.block.len() == 0,
        !fat_drop(line),
        is_logsdir_line(line),
        !framing_kept(line),
    ensures
        contains(stream_feed(m, line).0.emitted, trim_start(slim(line, MAX_LINE_CHARS as nat))),
{
    let t = trim_start(line);
    reveal_strlit("Logsdir:");
    reveal_strlit("[fail]");
    assert(!starts_with(t, "[fail]"@)) by {
        if starts_with(t, "[fail]"@) {
            assert(t.subrange(0, 6)[0] == "[fail]"@[0]);
            assert(t.subrange(0, 8)[0] == "Logsdir:"@[0]);
        }
    }
    lemma_logsdir_outside_shown(m, line);
    let l = slim(line, MAX_LINE_CHARS as nat);
    let lt = trim_start(l);
    let r = stream_feed(m, line).0;
    assert(r == logsdir_outside(m, line).0);
    if m.seen_logsdir.contains(lt) {
        let k = choose|k: int| 0 <= k < m.seen_logsdir.len() && m.seen_logsdir[k] == lt;
        assert(contains(m.emitted, m.seen_logsdir[k]));
    } else {
        assert(r.seen_logsdir[m.seen_logsdir.len() as int] == lt);
    }
}

/// Every `Logsdir:` text the live filter records as shown has been handed
/// out: no line, flush or exit breaks this.
pub proof fn law_stream_logsdirs_shown(m: StreamModel, line: Seq<char>, raw: Seq<char>)
    requires
        logsdirs_shown(m),
    ensures
        logsdirs_shown(initial_stream()),
        logsdirs_shown(stream_feed(m, line).0),
        logsdirs_shown(stream_flush(m).0),
        logsdirs_shown(stream_exit(m, raw).0),
{
    let t = trim_start(line);
    lemma_emit_more(m, seq![]);
    if !fat_drop(line) {
        if !m.seen_fail {
            if starts_with(t, "[fail]"@) {
                let (m1, out) = flush_preamble(StreamModel { seen_fail: true, ..m });
                lemma_emit_more(StreamModel { block: m1.block.push(line), ..m1 }, out);
            }
        } else if starts_with(t, "[fail]"@) {
            lemma_close_block_shown(m);
            let (m1, closed) = close_block(m);
            let mb = StreamModel { block: m1.block.push(line), ..m1 };
            let before = StreamModel { emitted: m.emitted + opt_text(closed), ..m1 };
            assert(logsdirs_shown(before));
            assert forall|k: int| 0 <= k < mb.seen_logsdir.len() implies contains(
                m.emitted + opt_text(closed),
                #[trigger] mb.seen_logsdir[k],
            ) by {
                assert(before.seen_logsdir[k] == mb.seen_logsdir[k]);
            }
            assert(logsdirs_shown(StreamModel { emitted: m.emitted + opt_text(closed), ..mb }));
            assert(emit(mb, opt_text(closed)).0 == (if opt_text(closed).len() == 0 {
                mb
            } else {
                StreamModel { emitted: m1.emitted + opt_text(closed), ..mb }
            }));
            assert(m1.emitted == m.emitted);
            assert(m.emitted + Seq::<char>::empty() =~= m.emitted);
        } else if m.block.len() > 0 && block_boundary(line) {
            lemma_close_block_shown(m);
            let (m1, closed) = close_block(m);
            let shown = StreamModel { emitted: m.emitted + opt_text(closed), ..m1 };
            assert(m1.emitted == m.emitted);
            assert(m.emitted + Seq::<char>::empty() =~= m.emitted);
            lemma_emit_more(shown, trim_end(line) + seq!['\n']);
            assert(m.emitted + (opt_text(closed) + trim_end(line) + seq!['\n']) =~= m.emitted
                + opt_text(closed) + (trim_end(line) + seq!['\n']));
            lemma_emit_more(StreamModel { truncated: true, ..shown }, seq![]);
        } else if m.block.len() == 0 {
            lemma_emit_more(m, trim_end(line) + seq!['\n']);
            lemma_logsdir_outside_shown(m, line);
        }
    }
    if m.seen_fail {
        lemma_close_block_shown(m);
        let (m1, closed) = close_block(m);
        let (m2, tail) = overflow_tail(m1);
        let shown = StreamModel { emitted: m.emitted + opt_text(closed), ..m1 };
        lemma_emit_more(shown, tail);
        assert(m.emitted + (opt_text(closed) + tail) =~= m.emitted + opt_text(closed) + tail);
        let fin = stream_flush(m).0;
        assert(m2.seen_logsdir == m1.seen_logsdir && m2.emitted == m.emitted);
        assert(fin.emitted =~= m.emitted + opt_text(closed) + tail);
        assert forall|k: int| 0 <= k < fin.seen_logsdir.len() implies contains(
            fin.emitted,
            #[trigger] fin.seen_logsdir[k],
        ) by {
            let sh2 = StreamModel { emitted: shown.emitted + tail, ..shown };
            assert(logsdirs_shown(sh2));
            assert(sh2.seen_logsdir[k] == fin.seen_logsdir[k]);
            assert(contains(sh2.emitted, sh2.seen_logsdir[k]));
            assert(sh2.emitted =~= fin.emitted);
        }
    }
    lemma_emit_more(m, never_worse(raw, envelope_filter(raw)));
}

proof fn lemma_dedup_no_duplicates(ls: Seq<Seq<char>>, seen: Seq<Seq<char>>)
    requires
        seen.no_duplicates(),
    ensures
        dedup_run(ls, seen).1.no_duplicates(),
    decreases ls.len(),
{
    if ls.len() > 0 {
        lemma_dedup_no_duplicates(ls.drop_last(), seen);
    }
}

proof fn lemma_close_block_no_duplicates(m: StreamModel)
    requires
        m.seen_logsdir.no_duplicates(),
    ensures
        close_block(m).0.seen_logsdir.no_duplicates(),
{
    if m.block.len() > 0 && m.fails_emitted < MAX_FAIL_BLOCKS {
        lemma_dedup_no_duplicates(compact_block(m.block).0, m.seen_logsdir);
    }
}

/// The live filter never records the same `Logsdir:` text twice. A closing
/// block hands out one of its `Logsdir:` lines only when the text is not yet
/// recorded, and then records it ([`dedup_step`]), so across blocks each such
/// text is shown at most once. No line, flush or exit breaks this.
pub proof fn law_stream_logsdir_once(m: StreamModel, line: Seq<char>, raw: Seq<char>)
    requires
        m.seen_logsdir.no_duplicates(),
    ensures
        initial_stream().seen_logsdir.no_duplicates(),
        stream_feed(m, line).0.seen_logsdir.no_duplicates(),
        stream_flush(m).0.seen_logsdir.no_duplicates(),
        stream_exit(m, raw).0.seen_logsdir.no_duplicates(),
{
    lemma_close_block_no_duplicates(m);
}

/// When a shown block closes, the text of its first `Logsdir:` line (as
/// compacted) is among what the filter has handed out: `Logsdir:` is never
/// stripped, only deduplicated.
pub proof fn law_stream_keeps_logsdir(m: StreamModel, i: int)
    requires
        logsdirs_shown(m),
        m.fails_emitted < MAX_FAIL_BLOCKS,
        1 <= i < m.block.len(),
        is_logsdir_line(m.block[i]),
        forall|j: int| 1 <= j < i ==> !is_logsdir_line(#[trigger] m.block[j]),
    ensures
        contains(
            m.emitted + opt_text(close_block(m).1),
            trim_start(slim(m.block[i], MAX_LINE_CHARS as nat)),
        ),
{
    let (c, _) = compact_block(m.block);
    let l = slim(m.block[i], MAX_LINE_CHARS as nat);
    law_compact_keeps_first_logsdir(m.block, i);
    let j = choose|j: int| 0 <= j < c.len() && c[j] == l;
    lemma_dedup_run(c, m.seen_logsdir);
    let (text, seen2, _) = dedup_run(c, m.seen_logsdir);
    assert(opt_text(close_block(m).1) == text);
    if seen2.contains(trim_start(c[j])) {
        let k = choose|k: int| 0 <= k < seen2.len() && seen2[k] == trim_start(c[j]);
        if k < m.seen_logsdir.len() {
            assert(seen2[k] == m.seen_logsdir[k]);
            lemma_contains_append(m.emitted, text, seen2[k]);
        } else {
            lemma_contains_append(m.emitted, text, seen2[k]);
        }
    } else {
        lemma_contains_append(m.emitted, text, trim_start(c[j]));
    }
}

/// A fat line (assertion dump, progress, proto spam, over-long noise) is
/// dropped at once: nothing is shown and nothing is buffered.
pub proof fn law_stream_drops_fat(m: StreamModel, line: Seq<char>)
    requires
        fat_drop(line),
    ensures
        stream_feed(m, line).1 is None,
        stream_feed(m, line).0.preamble == m.preamble,
        stream_feed(m, line).0.block == m.block,
        stream_feed(m, line).0.emitted == m.emitted,
        stream_feed(m, line).0.dropped_fat,
{
}

} // verus!
