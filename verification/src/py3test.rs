//! py3test adapter: the `[fail]` blocks of a `ya` dump are rewritten as a
//! pytest `FAILURES` report and compacted by [`pytest_compact`]; `Log:` lines
//! and (deduplicated) `Logsdir:` lines of the shown blocks are kept as they are.

use vstd::prelude::*;
use crate::envelope::{has_fail_line, has_fail_line_exec, min_nat, more_failing_line, more_failing_line_exec};
use crate::framing::{postamble_kept, postamble_kept_chars};
use crate::generic_fail::{
    is_fail_headline, law_split_first_headline, is_log_line, is_logsdir_line, lemma_prefix_literals, split_sections, split_sections_chars,
    MAX_FAIL_BLOCKS,
};
use crate::pytest::{
    flush_fail, py_run, py_step, pytest_compact, pytest_compact_chars, render_fail, strip_char_ends,
    PyFail, PyState,
};
use crate::text::{
    contains, is_ws, lemma_contains_append, lemma_contains_trans, lemma_join_contains,
    lemma_line_state_concat, lemma_line_state_cur, lemma_line_state_from_start,
    lemma_line_state_no_nl, lemma_trim_end_prefix, line_state, line_state_from, occurs_at,
    strip_cr, append_chars, chars_of, copy_chars, decimal, decimal_chars, find, find_str, join_nl,
    join_nl_exec, lemma_take_all, lemma_take_step, line_of, lines, push_line, push_str,
    slice_chars, starts_with, starts_with_str, str_lines, string_of, trim, trim_chars, trim_end,
    trim_end_chars, trim_start, trim_start_chars, views,
};
use crate::util::{seq_has, terminate_nl, terminate_nl_exec};

verus! {

// ---------------------------------------------------------------- spec

/// `[fail] path::test [platform] (0.1s)` → `path::test`: the headline without
/// its `[fail]` tag, cut before the first ` [`, trimmed.
pub open spec fn node_id(headline: Seq<char>) -> Seq<char> {
    let t = trim_start(headline);
    let u = trim(
        if starts_with(t, "[fail]"@) {
            t.skip("[fail]"@.len() as int)
        } else {
            t
        },
    );
    match find(u, " ["@) {
        Some(i) => trim(u.take(i)),
        None => u,
    }
}

/// Body lines that the pytest report does not get (they are kept apart).
pub open spec fn skipped_body_line(line: Seq<char>) -> bool {
    let t = trim_start(line);
    starts_with(t, "Log:"@) || starts_with(t, "Logsdir:"@) || starts_with(t, "[fail]"@)
}

/// The body lines of a block, each followed by `\n`.
pub open spec fn block_body(ls: Seq<Seq<char>>) -> Seq<char>
    decreases ls.len(),
{
    if ls.len() == 0 {
        seq![]
    } else if skipped_body_line(ls.last()) {
        block_body(ls.drop_last())
    } else {
        block_body(ls.drop_last()) + ls.last() + seq!['\n']
    }
}

/// The `FAILURES` part of the report and the node ids, block by block.
pub open spec fn failures_part(bs: Seq<Seq<Seq<char>>>) -> (Seq<char>, Seq<Seq<char>>)
    decreases bs.len(),
{
    if bs.len() == 0 {
        (seq![], seq![])
    } else {
        let (t, ids) = failures_part(bs.drop_last());
        let b = bs.last();
        if b.len() == 0 {
            (t, ids)
        } else {
            let id = node_id(b[0]);
            (t + "___ "@ + id + " ___\n"@ + block_body(b.skip(1)), ids.push(id))
        }
    }
}

/// `FAILED <id>\n` for each id.
pub open spec fn summary_part(ids: Seq<Seq<char>>) -> Seq<char>
    decreases ids.len(),
{
    if ids.len() == 0 {
        seq![]
    } else {
        summary_part(ids.drop_last()) + "FAILED "@ + ids.last() + seq!['\n']
    }
}

/// The pytest report written for `[fail]` blocks.
pub open spec fn synthetic_report(bs: Seq<Seq<Seq<char>>>) -> Seq<char> {
    let (t, ids) = failures_part(bs);
    "=== FAILURES ===\n"@ + t + "=== short test summary info ===\n"@ + summary_part(ids)
        + "=== 0 passed, "@ + decimal(ids.len()) + " failed in 0.00s ===\n"@
}

/// All lines of the blocks, in order.
pub open spec fn flatten(bs: Seq<Seq<Seq<char>>>) -> Seq<Seq<char>>
    decreases bs.len(),
{
    if bs.len() == 0 {
        seq![]
    } else {
        flatten(bs.drop_last()) + bs.last()
    }
}

/// Kept log lines and the `Logsdir:` lines already seen.
pub type LogState = (Seq<Seq<char>>, Seq<Seq<char>>);

pub open spec fn log_step(st: LogState, line: Seq<char>) -> LogState {
    let (out, seen) = st;
    let t = trim_start(line);
    if starts_with(t, "Log:"@) {
        (out.push(trim_end(line)), seen)
    } else if starts_with(t, "Logsdir:"@) && !seen.contains(t) {
        (out.push(trim_end(line)), seen.push(t))
    } else {
        st
    }
}

pub open spec fn log_run(ls: Seq<Seq<char>>) -> LogState
    decreases ls.len(),
{
    if ls.len() == 0 {
        (seq![], seq![])
    } else {
        log_step(log_run(ls.drop_last()), ls.last())
    }
}

/// Every `Log:` line, and each distinct `Logsdir:` line once, without trailing
/// whitespace.
pub open spec fn log_lines(ls: Seq<Seq<char>>) -> Seq<Seq<char>> {
    log_run(ls).0
}

/// Lines kept from the preamble and the postamble, without trailing whitespace.
pub open spec fn postamble_lines(ls: Seq<Seq<char>>) -> Seq<Seq<char>>
    decreases ls.len(),
{
    if ls.len() == 0 {
        seq![]
    } else if postamble_kept(ls.last()) {
        postamble_lines(ls.drop_last()).push(trim_end(ls.last()))
    } else {
        postamble_lines(ls.drop_last())
    }
}

/// Output lines for a dump with `[fail]` blocks.
pub open spec fn py3test_lines(ls: Seq<Seq<char>>) -> Seq<Seq<char>> {
    let (pre, blocks, post) = split_sections(ls);
    let total = blocks.len();
    let take_n = min_nat(total, MAX_FAIL_BLOCKS as nat);
    let taken = blocks.take(take_n as int);
    let compact = pytest_compact(synthetic_report(taken));
    let py = if compact.len() > 0 {
        seq![compact]
    } else {
        seq![]
    };
    let over = if total > take_n {
        seq![more_failing_line((total - take_n) as nat)]
    } else {
        seq![]
    };
    postamble_lines(pre) + py + log_lines(flatten(taken)) + over + postamble_lines(post)
}

/// The py3test filter: `None` when no line starts with `[fail]`; otherwise the
/// compacted text, ended by `\n` when non-empty, flagged as truncated.
pub open spec fn py3test_filter(s: Seq<char>) -> Option<(Seq<char>, bool)> {
    let ls = lines(s);
    if !has_fail_line(ls) {
        None
    } else {
        Some((terminate_nl(join_nl(py3test_lines(ls))), true))
    }
}

// ---------------------------------------------------------------- exec

/// [`node_id`] on characters.
pub fn node_id_chars(headline: &Vec<char>) -> (r: Vec<char>)
    ensures
        r@ == node_id(headline@),
{
    let t = trim_start_chars(headline);
    let tag = line_of("[fail]");
    let rest = if starts_with_str(&t, "[fail]") {
        slice_chars(&t, tag.len(), t.len())
    } else {
        t
    };
    proof {
        assert(t@.subrange(tag.len() as int, t@.len() as int) =~= t@.skip("[fail]"@.len() as int));
    }
    let u = trim_chars(&rest);
    match find_str(&u, " [") {
        Some(i) => {
            proof {
                crate::text::lemma_find_facts(u@, " ["@);
            }
            trim_chars(&slice_chars(&u, 0, i))
        },
        None => u,
    }
}

/// The pytest node id of a `[fail]` headline (see [`node_id`]).
pub fn extract_node_id(headline: &str) -> (r: String)
    ensures
        r@ == node_id(headline@),
{
    string_of(&node_id_chars(&chars_of(headline)))
}

fn skipped_body_line_chars(line: &Vec<char>) -> (r: bool)
    ensures
        r == skipped_body_line(line@),
{
    let t = trim_start_chars(line);
    starts_with_str(&t, "Log:") || starts_with_str(&t, "Logsdir:") || starts_with_str(&t, "[fail]")
}

/// Appends the body of block `b` (all lines but its headline).
fn push_block_body(out: &mut Vec<char>, b: &Vec<Vec<char>>)
    requires
        b.len() > 0,
    ensures
        final(out)@ == old(out)@ + block_body(views(b@).skip(1)),
{
    let ghost bv = views(b@);
    let mut j: usize = 1;
    assert(bv.subrange(1, 1) =~= Seq::<Seq<char>>::empty());
    assert(out@ =~= old(out)@ + block_body(bv.subrange(1, 1)));
    while j < b.len()
        invariant
            1 <= j <= b.len(),
            bv == views(b@),
            out@ == old(out)@ + block_body(bv.subrange(1, j as int)),
        decreases b.len() - j,
    {
        assert(bv.subrange(1, j + 1).drop_last() =~= bv.subrange(1, j as int));
        if !skipped_body_line_chars(&b[j]) {
            append_chars(out, &b[j]);
            out.push('\n');
        }
        assert(out@ =~= old(out)@ + block_body(bv.subrange(1, j + 1)));
        j += 1;
    }
    assert(bv.subrange(1, bv.len() as int) =~= bv.skip(1));
}

/// The synthetic pytest report for the first `n` blocks.
fn ya_blocks_to_pytest(blocks: &Vec<Vec<Vec<char>>>, n: usize) -> (r: Vec<char>)
    requires
        n <= blocks.len(),
    ensures
        r@ == synthetic_report(blocks@.map_values(|b: Vec<Vec<char>>| views(b@)).take(n as int)),
{
    let ghost bs = blocks@.map_values(|b: Vec<Vec<char>>| views(b@));
    let mut t: Vec<char> = Vec::new();
    let mut ids: Vec<Vec<char>> = Vec::new();
    let mut i: usize = 0;
    while i < n
        invariant
            i <= n <= blocks.len(),
            bs == blocks@.map_values(|b: Vec<Vec<char>>| views(b@)),
            (t@, views(ids@)) == failures_part(bs.take(i as int)),
        decreases n - i,
    {
        proof {
            lemma_take_step(bs, i as int);
        }
        let b = &blocks[i];
        if b.len() > 0 {
            let id = node_id_chars(&b[0]);
            push_str(&mut t, "___ ");
            append_chars(&mut t, &id);
            push_str(&mut t, " ___\n");
            push_block_body(&mut t, b);
            push_line(&mut ids, id);
        }
        i += 1;
    }
    let mut out = line_of("=== FAILURES ===\n");
    append_chars(&mut out, &t);
    push_str(&mut out, "=== short test summary info ===\n");
    let ghost fixed = out@;
    let mut k: usize = 0;
    while k < ids.len()
        invariant
            k <= ids.len(),
            out@ == fixed + summary_part(views(ids@).take(k as int)),
        decreases ids.len() - k,
    {
        proof {
            lemma_take_step(views(ids@), k as int);
        }
        push_str(&mut out, "FAILED ");
        append_chars(&mut out, &ids[k]);
        out.push('\n');
        k += 1;
    }
    proof {
        lemma_take_all(views(ids@));
    }
    push_str(&mut out, "=== 0 passed, ");
    append_chars(&mut out, &decimal_chars(ids.len()));
    push_str(&mut out, " failed in 0.00s ===\n");
    out
}

/// All lines of the first `n` blocks.
fn flatten_exec(blocks: &Vec<Vec<Vec<char>>>, n: usize) -> (r: Vec<Vec<char>>)
    requires
        n <= blocks.len(),
    ensures
        views(r@) == flatten(blocks@.map_values(|b: Vec<Vec<char>>| views(b@)).take(n as int)),
{
    let ghost bs = blocks@.map_values(|b: Vec<Vec<char>>| views(b@));
    let mut out: Vec<Vec<char>> = Vec::new();
    let mut i: usize = 0;
    while i < n
        invariant
            i <= n <= blocks.len(),
            bs == blocks@.map_values(|b: Vec<Vec<char>>| views(b@)),
            views(out@) == flatten(bs.take(i as int)),
        decreases n - i,
    {
        proof {
            lemma_take_step(bs, i as int);
        }
        let b = &blocks[i];
        let ghost prev = views(out@);
        let mut j: usize = 0;
        while j < b.len()
            invariant
                j <= b.len(),
                views(out@) == prev + views(b@).take(j as int),
            decreases b.len() - j,
        {
            proof {
                lemma_take_step(views(b@), j as int);
            }
            push_line(&mut out, copy_chars(&b[j]));
            assert(views(out@) =~= prev + views(b@).take(j + 1));
            j += 1;
        }
        proof {
            lemma_take_all(views(b@));
        }
        i += 1;
    }
    out
}

/// Appends [`log_lines`] of `ls` to `out`.
fn push_log_lines(out: &mut Vec<Vec<char>>, ls: &Vec<Vec<char>>)
    ensures
        views(final(out)@) == views(old(out)@) + log_lines(views(ls@)),
{
    let mut seen: Vec<Vec<char>> = Vec::new();
    let mut i: usize = 0;
    assert(views(out@) =~= views(old(out)@) + log_run(views(ls@).take(0)).0);
    while i < ls.len()
        invariant
            i <= ls.len(),
            views(out@) == views(old(out)@) + log_run(views(ls@).take(i as int)).0,
            views(seen@) == log_run(views(ls@).take(i as int)).1,
        decreases ls.len() - i,
    {
        proof {
            lemma_take_step(views(ls@), i as int);
        }
        let line = &ls[i];
        let t = trim_start_chars(line);
        if starts_with_str(&t, "Log:") {
            push_line(out, trim_end_chars(line));
        } else if starts_with_str(&t, "Logsdir:") && !seq_has(&seen, &t) {
            push_line(out, trim_end_chars(line));
            push_line(&mut seen, t);
        }
        assert(views(out@) =~= views(old(out)@) + log_run(views(ls@).take(i + 1)).0);
        i += 1;
    }
    proof {
        lemma_take_all(views(ls@));
    }
}

/// Appends [`postamble_lines`] of `ls` to `out`.
fn push_postamble(out: &mut Vec<Vec<char>>, ls: &Vec<Vec<char>>)
    ensures
        views(final(out)@) == views(old(out)@) + postamble_lines(views(ls@)),
{
    let mut i: usize = 0;
    assert(views(out@) =~= views(old(out)@) + postamble_lines(views(ls@).take(0)));
    while i < ls.len()
        invariant
            i <= ls.len(),
            views(out@) == views(old(out)@) + postamble_lines(views(ls@).take(i as int)),
        decreases ls.len() - i,
    {
        proof {
            lemma_take_step(views(ls@), i as int);
        }
        if postamble_kept_chars(&ls[i]) {
            push_line(out, trim_end_chars(&ls[i]));
        }
        assert(views(out@) =~= views(old(out)@) + postamble_lines(views(ls@).take(i + 1)));
        i += 1;
    }
    proof {
        lemma_take_all(views(ls@));
    }
}

/// [`py3test_lines`] as code.
fn py3test_lines_exec(ls: &Vec<Vec<char>>) -> (r: Vec<Vec<char>>)
    ensures
        views(r@) == py3test_lines(views(ls@)),
{
    let (pre, blocks, post) = split_sections_chars(ls);
    let ghost bs = blocks@.map_values(|b: Vec<Vec<char>>| views(b@));
    let mut out: Vec<Vec<char>> = Vec::new();
    push_postamble(&mut out, &pre);
    let total = blocks.len();
    let take_n = if total < MAX_FAIL_BLOCKS {
        total
    } else {
        MAX_FAIL_BLOCKS
    };
    let synthetic = ya_blocks_to_pytest(&blocks, take_n);
    let compact = pytest_compact_chars(&synthetic);
    if compact.len() > 0 {
        push_line(&mut out, compact);
    }
    let flat = flatten_exec(&blocks, take_n);
    push_log_lines(&mut out, &flat);
    if total > take_n {
        push_line(&mut out, more_failing_line_exec(total - take_n));
    }
    push_postamble(&mut out, &post);
    assert(views(out@) =~= py3test_lines(views(ls@)));
    out
}

/// Filter py3test-shaped `ya` output (see [`py3test_filter`]). `None` when
/// there are no `[fail]` blocks, so that the caller takes the generic path.
pub fn filter_py3test(raw: &str) -> (r: Option<(String, bool)>)
    ensures
        match r {
            Some((body, tr)) => py3test_filter(raw@) == Some((body@, tr)),
            None => py3test_filter(raw@) is None,
        },
{
    let ls = str_lines(raw);
    if !has_fail_line_exec(&ls) {
        return None;
    }
    let out = py3test_lines_exec(&ls);
    let mut body = join_nl_exec(&out);
    terminate_nl_exec(&mut body);
    Some((string_of(&body), true))
}

// ---------------------------------------------------------------- laws

proof fn lemma_log_run(ls: Seq<Seq<char>>)
    ensures
        forall|i: int|
            0 <= i < ls.len() && is_log_line(#[trigger] ls[i]) ==> log_run(ls).0.contains(
                trim_end(ls[i]),
            ),
        forall|i: int|
            0 <= i < ls.len() && is_logsdir_line(#[trigger] ls[i]) ==> log_run(ls).1.contains(
                trim_start(ls[i]),
            ),
        forall|k: int|
            0 <= k < log_run(ls).1.len() ==> exists|j: int|
                0 <= j < ls.len() && trim_start(#[trigger] ls[j]) == #[trigger] log_run(ls).1[k]
                    && log_run(ls).0.contains(trim_end(ls[j])),
    decreases ls.len(),
{
    lemma_prefix_literals();
    if ls.len() > 0 {
        let prev = ls.drop_last();
        lemma_log_run(prev);
        let (out0, seen0) = log_run(prev);
        let (out1, seen1) = log_run(ls);
        let n = ls.len() - 1;
        assert forall|x: Seq<char>| out0.contains(x) implies out1.contains(x) by {
            let k = choose|k: int| 0 <= k < out0.len() && out0[k] == x;
            assert(out1[k] == x);
        }
        assert forall|x: Seq<char>| seen0.contains(x) implies seen1.contains(x) by {
            let k = choose|k: int| 0 <= k < seen0.len() && seen0[k] == x;
            assert(seen1[k] == x);
        }
        assert forall|i: int| 0 <= i < ls.len() && is_log_line(#[trigger] ls[i]) implies out1.contains(
            trim_end(ls[i]),
        ) by {
            if i < n {
                assert(prev[i] == ls[i]);
            } else {
                assert(out1[out1.len() - 1] == trim_end(ls[i]));
            }
        }
        assert forall|i: int| 0 <= i < ls.len() && is_logsdir_line(#[trigger] ls[i]) implies seen1.contains(
            trim_start(ls[i]),
        ) by {
            if i < n {
                assert(prev[i] == ls[i]);
            } else if !seen0.contains(trim_start(ls[i])) {
                assert(seen1[seen1.len() - 1] == trim_start(ls[i]));
            }
        }
        assert forall|k: int| 0 <= k < seen1.len() implies exists|j: int|
            0 <= j < ls.len() && trim_start(#[trigger] ls[j]) == #[trigger] seen1[k] && out1.contains(
                trim_end(ls[j]),
            ) by {
            if k < seen0.len() {
                let j = choose|j: int|
                    0 <= j < prev.len() && trim_start(#[trigger] prev[j]) == seen0[k]
                        && out0.contains(trim_end(prev[j]));
                assert(prev[j] == ls[j]);
                assert(seen1[k] == seen0[k]);
            } else {
                assert(out1[out1.len() - 1] == trim_end(ls[n]));
                assert(trim_start(ls[n]) == seen1[k]);
            }
        }
    }
}

/// [`log_lines`] (what the py3test filter keeps of the shown blocks' lines)
/// holds every `Log:` line, and for every `Logsdir:` line a line with the same
/// text (duplicates collapse): `Logsdir:` is never stripped.
pub proof fn law_logs_kept(ls: Seq<Seq<char>>, i: int)
    requires
        0 <= i < ls.len(),
        is_log_line(ls[i]) || is_logsdir_line(ls[i]),
    ensures
        is_log_line(ls[i]) ==> log_lines(ls).contains(trim_end(ls[i])),
        is_logsdir_line(ls[i]) ==> exists|j: int|
            0 <= j < ls.len() && trim_start(#[trigger] ls[j]) == trim_start(ls[i])
                && log_lines(ls).contains(trim_end(ls[j])),
{
    lemma_log_run(ls);
    if is_logsdir_line(ls[i]) {
        let seen = log_run(ls).1;
        let k = choose|k: int| 0 <= k < seen.len() && seen[k] == trim_start(ls[i]);
        assert(exists|j: int|
            0 <= j < ls.len() && trim_start(#[trigger] ls[j]) == seen[k] && log_run(ls).0.contains(
                trim_end(ls[j]),
            ));
    }
}

// ---------------------------------------------------------------- headline law

proof fn lemma_failures_prefix(bs: Seq<Seq<Seq<char>>>)
    requires
        bs.len() > 0,
        bs[0].len() > 0,
    ensures
        failures_part(bs).0.len() >= 4,
        failures_part(bs).0.take(4) == "___ "@,
    decreases bs.len(),
{
    reveal_strlit("___ ");
    let prev = bs.drop_last();
    if bs.len() == 1 {
        assert(prev.len() == 0);
        assert(failures_part(prev) == (Seq::<char>::empty(), Seq::<Seq<char>>::empty()));
        assert(bs.last() == bs[0]);
        let id = node_id(bs[0][0]);
        let t = "___ "@ + id + " ___\n"@ + block_body(bs[0].skip(1));
        assert(failures_part(bs).0 =~= Seq::<char>::empty() + t);
        assert(t.take(4) =~= "___ "@);
    } else {
        assert(prev[0] == bs[0]);
        lemma_failures_prefix(prev);
        let t0 = failures_part(prev).0;
        let t = failures_part(bs).0;
        assert(t.take(4) =~= t0.take(4));
    }
}

/// The report's first line is `=== FAILURES ===` and its second, trimmed,
/// opens a failure (`___ …`).
proof fn lemma_report_lines(bs: Seq<Seq<Seq<char>>>)
    requires
        bs.len() > 0,
        bs[0].len() > 0,
    ensures
        lines(synthetic_report(bs)).len() >= 2,
        lines(synthetic_report(bs))[0] == "=== FAILURES ==="@,
        starts_with(trim(lines(synthetic_report(bs))[1]), "___"@),
{
    reveal_strlit("=== FAILURES ===\n");
    reveal_strlit("=== FAILURES ===");
    reveal_strlit("___ ");
    reveal_strlit("___");
    lemma_failures_prefix(bs);
    let f = "=== FAILURES ==="@;
    let (t, ids) = failures_part(bs);
    let r = synthetic_report(bs);
    let w = t.skip(4) + "=== short test summary info ===\n"@ + summary_part(ids) + "=== 0 passed, "@
        + decimal(ids.len()) + " failed in 0.00s ===\n"@;
    assert(t =~= "___ "@ + t.skip(4));
    assert(r =~= f + seq!['\n'] + "___ "@ + w);
    let e = (Seq::<Seq<char>>::empty(), Seq::<char>::empty());
    lemma_line_state_from_start(r);
    lemma_line_state_concat(e, f + seq!['\n'] + "___ "@, w);
    lemma_line_state_concat(e, f + seq!['\n'], "___ "@);
    lemma_line_state_concat(e, f, seq!['\n']);
    lemma_line_state_no_nl(e, f);
    assert(e.1 + f =~= f);
    let s1 = line_state_from(e, f);
    assert(seq!['\n'].drop_last() =~= Seq::<char>::empty());
    assert(s1 == (Seq::<Seq<char>>::empty(), f));
    assert(line_state_from(s1, seq!['\n'].drop_last()) == s1);
    let s2 = line_state_from(s1, seq!['\n']);
    assert(f.last() == '=');
    assert(strip_cr(f) == f);
    assert(Seq::<Seq<char>>::empty().push(f) =~= seq![f]);
    assert(s2 == (seq![f], Seq::<char>::empty()));
    lemma_line_state_no_nl(s2, "___ "@);
    let s3 = line_state_from(s2, "___ "@);
    assert(Seq::<char>::empty() + "___ "@ =~= "___ "@);
    assert(s3 == (seq![f], "___ "@));
    lemma_line_state_cur(seq![f], "___ "@, w);
    let st = line_state_from(s3, w);
    assert(line_state(r) == st);
    let ls = lines(r);
    let y = if st.0.len() > 1 {
        st.0[1]
    } else {
        st.1
    };
    assert(seq![f][0] == f);
    assert(st.0[0] == f);
    assert(ls[0] == f);
    assert(ls[1] == y);
    assert(y.len() >= 3 && y[0] == '_' && y[1] == '_' && y[2] == '_') by {
        if st.0.len() > 1 {
            let j = choose|j: int| 0 <= j <= w.len() && st.0[1] == strip_cr("___ "@ + #[trigger] w.take(j));
            let z = "___ "@ + w.take(j);
            assert(z[0] == '_' && z[1] == '_' && z[2] == '_' && z.len() >= 4);
        } else {
            assert(st.1 == "___ "@ + w);
            assert(st.1[0] == '_');
        }
    }
    assert(!is_ws('_'));
    assert(trim_start(y) == y);
    lemma_trim_end_prefix(y);
    let te = trim_end(y);
    assert(te.len() >= 3);
    assert(te.subrange(0, 3) =~= "___"@);
}

/// A failure is rendered, or is being read.
pub open spec fn py_good(st: PyState) -> bool {
    (exists|k: int| 0 <= k < st.1.len() && starts_with(#[trigger] st.1[k], "[FAIL] "@)) || st.2 is Some
}

proof fn lemma_render_starts(f: PyFail)
    ensures
        starts_with(render_fail(f)[0], "[FAIL] "@),
{
    let p = "[FAIL] "@;
    assert(render_fail(f)[0] == p + f.0);
    assert((p + f.0).subrange(0, p.len() as int) =~= p);
}

proof fn lemma_flush_good(out: Seq<Seq<char>>, cur: Option<PyFail>)
    requires
        (exists|k: int| 0 <= k < out.len() && starts_with(#[trigger] out[k], "[FAIL] "@)) || cur is Some,
    ensures
        exists|k: int| 0 <= k < flush_fail(out, cur).len() && starts_with(
            #[trigger] flush_fail(out, cur)[k],
            "[FAIL] "@,
        ),
{
    let o = flush_fail(out, cur);
    match cur {
        Some(f) => {
            lemma_render_starts(f);
            assert(o[out.len() as int] == render_fail(f)[0]);
        },
        None => {
            let k = choose|k: int| 0 <= k < out.len() && starts_with(#[trigger] out[k], "[FAIL] "@);
            assert(o[k] == out[k]);
        },
    }
}

proof fn lemma_py_step_good(st: PyState, l: Seq<char>)
    requires
        py_good(st),
    ensures
        py_good(py_step(st, l)),
{
    reveal(py_step);
    let (mode, out, cur, summary) = st;
    lemma_flush_good(out, cur);
    let o = flush_fail(out, cur);
    let k = choose|k: int| 0 <= k < o.len() && starts_with(#[trigger] o[k], "[FAIL] "@);
    let r = py_step(st, l);
    if r.1 == o {
        assert(starts_with(r.1[k], "[FAIL] "@));
    }
}

proof fn lemma_py_run_good(ls: Seq<Seq<char>>, n: int)
    requires
        2 <= n <= ls.len(),
        py_good(py_run(ls.take(2))),
    ensures
        py_good(py_run(ls.take(n))),
    decreases n,
{
    if n > 2 {
        lemma_py_run_good(ls, n - 1);
        lemma_take_step(ls, n - 1);
        lemma_py_step_good(py_run(ls.take(n - 1)), ls[n - 1]);
    }
}

/// The pytest compaction of the report for blocks whose first one is not
/// empty renders at least one failure (`[FAIL] …`).
proof fn lemma_report_renders_fail(bs: Seq<Seq<Seq<char>>>)
    requires
        bs.len() > 0,
        bs[0].len() > 0,
    ensures
        contains(pytest_compact(synthetic_report(bs)), "[FAIL] "@),
{
    reveal(py_step);
    reveal_strlit("=== FAILURES ===");
    reveal_strlit("===");
    reveal_strlit("FAILURES");
    reveal_strlit("___");
    lemma_report_lines(bs);
    let ls = lines(synthetic_report(bs));
    let f = "=== FAILURES ==="@;
    assert(!is_ws('='));
    assert(trim_start(f) == f);
    assert(trim_end(f) == f);
    assert(trim(f) == f);
    assert(f.subrange(0, 3) =~= "==="@);
    assert(f.subrange(4, 12) =~= "FAILURES"@);
    assert(occurs_at(f, "FAILURES"@, 4));
    let init: PyState = (0, seq![], None, seq![]);
    lemma_take_step(ls, 0);
    lemma_take_step(ls, 1);
    assert(ls.take(1).drop_last() =~= Seq::<Seq<char>>::empty());
    assert(py_run(Seq::<Seq<char>>::empty()) == init);
    let p1 = py_step(init, ls[0]);
    assert(py_run(ls.take(1)) == p1);
    assert(p1.0 == 1);
    let t = trim(ls[1]);
    assert(t.subrange(0, 3) =~= "___"@);
    assert(t[0] == t.subrange(0, 3)[0]);
    assert(t[0] == '_');
    assert(!starts_with(t, "==="@)) by {
        if starts_with(t, "==="@) {
            assert(t.subrange(0, 3)[0] == "==="@[0]);
        }
    }
    let p2 = py_step(p1, ls[1]);
    assert(p2.2 is Some);
    assert(py_run(ls.take(2)) == p2);
    lemma_py_run_good(ls, ls.len() as int);
    lemma_take_all(ls);
    let (_, out, cur, summary) = py_run(ls);
    lemma_flush_good(out, cur);
    let head = if summary.len() > 0 {
        seq!["Pytest: "@ + trim(strip_char_ends(summary, '='))]
    } else {
        seq![]
    };
    let o = flush_fail(out, cur);
    let k = choose|k: int| 0 <= k < o.len() && starts_with(#[trigger] o[k], "[FAIL] "@);
    let lst = head + o;
    assert(lst[head.len() + k] == o[k]);
    lemma_join_contains(lst, head.len() + k);
    lemma_contains_trans(join_nl(lst), o[k], "[FAIL] "@);
}

/// When the dump has a `[fail]` headline, the py3test filter's output renders
/// at least one failure (`[FAIL] …`, the pytest form of the headline).
pub proof fn law_py3test_keeps_a_failure(ls: Seq<Seq<char>>, i0: int)
    requires
        0 <= i0 < ls.len(),
        is_fail_headline(ls[i0]),
        forall|j: int| 0 <= j < i0 ==> !is_fail_headline(#[trigger] ls[j]),
    ensures
        has_fail_line(ls),
        contains(terminate_nl(join_nl(py3test_lines(ls))), "[FAIL] "@),
{
    law_split_first_headline(ls, i0);
    let (pre, blocks, post) = split_sections(ls);
    let take_n = min_nat(blocks.len(), MAX_FAIL_BLOCKS as nat);
    let taken = blocks.take(take_n as int);
    assert(taken[0] == blocks[0]);
    lemma_report_renders_fail(taken);
    reveal_strlit("[FAIL] ");
    let compact = pytest_compact(synthetic_report(taken));
    assert(compact.len() > 0);
    let out = py3test_lines(ls);
    let k = postamble_lines(pre).len() as int;
    assert(out[k] == compact);
    lemma_join_contains(out, k);
    lemma_contains_trans(join_nl(out), compact, "[FAIL] "@);
    let j = join_nl(out);
    if !(j.len() == 0 || j.last() == '\n') {
        lemma_contains_append(j, seq!['\n'], "[FAIL] "@);
        assert(j.push('\n') =~= j + seq!['\n']);
    }
    assert(ls[i0] == ls[i0]);
}

} // verus!
