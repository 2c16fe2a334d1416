//! go_test adapter: compact ya-framed Go failures and go-other build errors.
//!
//! Fail blocks go through the generic compaction, then headlines lose their
//! platform / time suffix and `Log:` keeps only the file name. Without fail
//! blocks, `Error[…]` lines are kept (shortened) and `Warn[…]` / shell chrome
//! dropped.

use vstd::prelude::*;
use crate::envelope::{framing_lines, has_fail_line, has_fail_line_exec, more_failing_line, more_failing_line_exec, min_nat, push_framing};
use crate::framing::{framing_kept, framing_kept_chars};
use crate::generic_fail::{
    is_fail_headline, law_compact_keeps_headline, law_split_first_headline,
    compact_block, compact_block_chars, LocationRegex, split_sections, split_sections_chars, CAP_ERRORS,
    MAX_FAIL_BLOCKS, MAX_LINE_CHARS,
};
use crate::text::{
    after_last, after_last_exec, append_chars, chars_of, contains, contains_str, copy_chars,
    ends_with, ends_with_str, eq_str, find, find_str, first_index_exec, first_index_of,
    lemma_find_facts, lemma_take_all, lemma_take_step, line_of, lines,
    push_line, push_str, second_piece, second_piece_exec, before_first,
    before_first_exec, slice_chars, slim, slim_chars, split_lines, starts_with,
    starts_with_str, string_of, trim, trim_chars, trim_end, trim_end_chars, trim_start,
    trim_start_chars, views,
};
use crate::util::{ensure_nl, ensure_nl_exec, seq_has};

verus! {

/// `[fail] name [platform] (0.1s)` → `[fail] name`.
pub open spec fn short_fail_headline(line: Seq<char>) -> Seq<char> {
    let t = trim_end(line);
    match find(t, " ["@) {
        Some(i) => if starts_with(trim_end(t.take(i)), "[fail]"@) {
            trim_end(t.take(i))
        } else {
            slim(line, MAX_LINE_CHARS as nat)
        },
        None => slim(line, MAX_LINE_CHARS as nat),
    }
}

/// `Log: /a/b/c.log` → `Log: …/c.log`.
pub open spec fn short_log_line(line: Seq<char>) -> Seq<char> {
    let t = trim_start(line);
    if starts_with(t, "Log:"@) {
        "Log: …/"@ + after_last(trim(t.skip(4)), '/')
    } else {
        slim(line, MAX_LINE_CHARS as nat)
    }
}

/// Go fail filter state: kept lines, truncated, `Logsdir:` lines already seen.
pub type GoFailState = (Seq<Seq<char>>, bool, Seq<Seq<char>>);

#[verifier::opaque]
pub open spec fn go_line_step(st: GoFailState, line: Seq<char>) -> GoFailState {
    let (out, tr, seen) = st;
    let t = trim_start(line);
    if starts_with(t, "Logsdir:"@) && seen.contains(t) {
        (out, true, seen)
    } else {
        let seen2 = if starts_with(t, "Logsdir:"@) {
            seen.push(t)
        } else {
            seen
        };
        if starts_with(t, "[fail]"@) {
            (out.push(short_fail_headline(line)), true, seen2)
        } else if starts_with(t, "Log:"@) {
            (out.push(short_log_line(line)), true, seen2)
        } else {
            (out.push(line), tr, seen2)
        }
    }
}

pub open spec fn go_lines_run(st: GoFailState, ls: Seq<Seq<char>>) -> GoFailState
    decreases ls.len(),
{
    if ls.len() == 0 {
        st
    } else {
        go_line_step(go_lines_run(st, ls.drop_last()), ls.last())
    }
}

pub open spec fn go_blocks_run(st: GoFailState, bs: Seq<Seq<Seq<char>>>) -> GoFailState
    decreases bs.len(),
{
    if bs.len() == 0 {
        st
    } else {
        let s1 = go_blocks_run(st, bs.drop_last());
        let (c, bt) = compact_block(bs.last());
        go_lines_run((s1.0, s1.1 || bt, s1.2), c)
    }
}

/// Lines and truncation flag when `[fail]` blocks are present.
pub open spec fn go_fails(ls: Seq<Seq<char>>) -> (Seq<Seq<char>>, bool) {
    let (pre, blocks, post) = split_sections(ls);
    let total = blocks.len();
    let take_n = min_nat(total, MAX_FAIL_BLOCKS as nat);
    let st = go_blocks_run((framing_lines(pre), false, seq![]), blocks.take(take_n as int));
    let over = if total > take_n {
        seq![more_failing_line((total - take_n) as nat)]
    } else {
        seq![]
    };
    (st.0 + over + framing_lines(post), st.1 || total > take_n || take_n > 0)
}

/// `Error[tag]: …` shortened to the actionable message.
pub open spec fn short_ya_error(line: Seq<char>) -> Seq<char> {
    let t = trim_start(line);
    if !starts_with(t, "Error["@) {
        slim(line, MAX_LINE_CHARS as nat)
    } else {
        let rest = t.skip(6);
        let k = first_index_of(rest, ']');
        if k >= rest.len() {
            slim(line, MAX_LINE_CHARS as nat)
        } else {
            let tag = rest.take(k);
            let after0 = rest.skip(k + 1);
            let after = trim(
                if after0.len() > 0 && after0[0] == ':' {
                    after0.drop_first()
                } else {
                    after0
                },
            );
            let head = "Error["@ + tag + "]: "@;
            match find(after, "unexpected command "@) {
                Some(i) => head + trim(before_first(after.skip(i), ". Only"@)),
                None => match second_piece(after, "cannot find source file:"@) {
                    Some(f) => head + "cannot find source file: "@ + trim(f),
                    None => if contains(after, "dart field"@) || contains(
                        after,
                        "DartValueError"@,
                    ) {
                        head + "dart field must not be empty"@
                    } else {
                        slim(head + after, MAX_LINE_CHARS as nat)
                    },
                },
            }
        }
    }
}

pub open spec fn shell_chrome(t: Seq<char>) -> bool {
    starts_with(t, "➜"@) || contains(t, " arc:("@) || starts_with(t, "/Users/"@) || starts_with(
        t,
        "/home/"@,
    ) || starts_with(t, "ya make"@) || ends_with(t, "ya make -tt"@) || ends_with(
        t,
        "ya make -t"@,
    )
}

pub open spec fn go_failure_signal(t: Seq<char>) -> bool {
    starts_with(t, "Failed"@) || t == "Failed"@ || starts_with(t, "FAIL\t"@) || starts_with(
        t,
        "panic:"@,
    ) || starts_with(t, "--- FAIL:"@) || starts_with(t, "=== FAIL"@)
}

/// Go-other filter state: kept lines, truncated, errors kept.
pub type GoOtherState = (Seq<Seq<char>>, bool, nat);

pub open spec fn go_other_step(st: GoOtherState, line: Seq<char>) -> GoOtherState {
    let (out, tr, errors) = st;
    let t = trim_start(line);
    if shell_chrome(t) {
        (out, true, errors)
    } else if starts_with(t, "Warn["@) {
        (out, true, errors)
    } else if starts_with(t, "Error["@) || starts_with(t, "Error:"@) {
        if errors < CAP_ERRORS {
            (out.push(short_ya_error(line)), true, errors + 1)
        } else {
            (out, true, errors)
        }
    } else if framing_kept(line) {
        (out.push(trim_end(line)), tr, errors)
    } else if go_failure_signal(t) {
        (out.push(slim(line, MAX_LINE_CHARS as nat)), tr, errors)
    } else if t.len() > 0 {
        (out, true, errors)
    } else {
        st
    }
}

pub open spec fn go_other_run(ls: Seq<Seq<char>>) -> GoOtherState
    decreases ls.len(),
{
    if ls.len() == 0 {
        (seq![], false, 0)
    } else {
        go_other_step(go_other_run(ls.drop_last()), ls.last())
    }
}

/// `lines` joined by `\n`, ending in one `\n` (empty when there are none).
pub open spec fn go_join(ls: Seq<Seq<char>>) -> Seq<char> {
    if ls.len() == 0 {
        seq![]
    } else {
        ensure_nl(crate::text::join_nl(ls))
    }
}

/// The go_test filter: text and truncation flag.
pub open spec fn go_filter(s: Seq<char>) -> (Seq<char>, bool) {
    let ls = lines(s);
    if has_fail_line(ls) {
        let (o, t) = go_fails(ls);
        (go_join(o), t)
    } else {
        let (o, t, _) = go_other_run(ls);
        (go_join(o), t)
    }
}

// ---------------------------------------------------------------- exec

pub fn short_fail_headline_exec(line: &Vec<char>) -> (r: Vec<char>)
    ensures
        r@ == short_fail_headline(line@),
{
    let t = trim_end_chars(line);
    match find_str(&t, " [") {
        Some(i) => {
            proof {
                lemma_find_facts(t@, " ["@);
            }
            let h0 = slice_chars(&t, 0, i);
            assert(h0@ == t@.take(i as int));
            let head = trim_end_chars(&h0);
            if starts_with_str(&head, "[fail]") {
                head
            } else {
                slim_chars(line, MAX_LINE_CHARS)
            }
        },
        None => slim_chars(line, MAX_LINE_CHARS),
    }
}

pub fn short_log_line_exec(line: &Vec<char>) -> (r: Vec<char>)
    ensures
        r@ == short_log_line(line@),
{
    let t = trim_start_chars(line);
    proof {
        reveal_strlit("Log:");
    }
    if starts_with_str(&t, "Log:") {
        let p0 = slice_chars(&t, 4, t.len());
        let p = trim_chars(&p0);
        let mut r = line_of("Log: …/");
        append_chars(&mut r, &after_last_exec(&p, '/'));
        r
    } else {
        slim_chars(line, MAX_LINE_CHARS)
    }
}

fn go_line_step_exec(out: &mut Vec<Vec<char>>, tr: &mut bool, seen: &mut Vec<Vec<char>>, line: &Vec<char>)
    ensures
        (views(final(out)@), *final(tr), views(final(seen)@)) == go_line_step(
            (views(old(out)@), *old(tr), views(old(seen)@)),
            line@,
        ),
{
    reveal(go_line_step);
    let t = trim_start_chars(line);
    let is_ldir = starts_with_str(&t, "Logsdir:");
    if is_ldir && seq_has(seen, &t) {
        *tr = true;
        return;
    }
    if is_ldir {
        push_line(seen, copy_chars(&t));
    }
    if starts_with_str(&t, "[fail]") {
        push_line(out, short_fail_headline_exec(line));
        *tr = true;
    } else if starts_with_str(&t, "Log:") {
        push_line(out, short_log_line_exec(line));
        *tr = true;
    } else {
        push_line(out, copy_chars(line));
    }
}

fn go_lines_exec(out: &mut Vec<Vec<char>>, tr: &mut bool, seen: &mut Vec<Vec<char>>, c: &Vec<Vec<char>>)
    ensures
        (views(final(out)@), *final(tr), views(final(seen)@)) == go_lines_run(
            (views(old(out)@), *old(tr), views(old(seen)@)),
            views(c@),
        ),
{
    let ghost s1 = (views(out@), *tr, views(seen@));
    let mut j: usize = 0;
    while j < c.len()
        invariant
            j <= c.len(),
            s1 == (views(old(out)@), *old(tr), views(old(seen)@)),
            (views(out@), *tr, views(seen@)) == go_lines_run(s1, views(c@).take(j as int)),
        decreases c.len() - j,
    {
        proof {
            lemma_take_step(views(c@), j as int);
        }
        go_line_step_exec(out, tr, seen, &c[j]);
        j += 1;
    }
    proof {
        lemma_take_all(views(c@));
    }
}

fn go_fails_exec(ls: &Vec<Vec<char>>) -> (r: (Vec<Vec<char>>, bool))
    ensures
        (views(r.0@), r.1) == go_fails(views(ls@)),
{
    let (pre, blocks, post) = split_sections_chars(ls);
    let ghost bs = blocks@.map_values(|b: Vec<Vec<char>>| views(b@));
    let mut out: Vec<Vec<char>> = Vec::new();
    push_framing(&mut out, &pre);
    assert(views(out@) =~= framing_lines(views(pre@)));
    let mut tr = false;
    let mut seen: Vec<Vec<char>> = Vec::new();
    assert(views(seen@) =~= Seq::<Seq<char>>::empty());
    let total = blocks.len();
    let take_n = if total < MAX_FAIL_BLOCKS {
        total
    } else {
        MAX_FAIL_BLOCKS
    };
    let ghost st0: (Seq<Seq<char>>, bool, Seq<Seq<char>>) = (views(out@), false, seq![]);
    let re = LocationRegex::new();
    let mut i: usize = 0;
    while i < take_n
        invariant
            i <= take_n <= blocks.len(),
            bs == blocks@.map_values(|b: Vec<Vec<char>>| views(b@)),
            (views(out@), tr, views(seen@)) == go_blocks_run(st0, bs.take(i as int)),
        decreases take_n - i,
    {
        proof {
            lemma_take_step(bs, i as int);
        }
        let (c, bt) = compact_block_chars(&re, &blocks[i]);
        tr = tr || bt;
        go_lines_exec(&mut out, &mut tr, &mut seen, &c);
        i += 1;
    }
    if total > take_n {
        tr = true;
        push_line(&mut out, more_failing_line_exec(total - take_n));
    }
    push_framing(&mut out, &post);
    if take_n > 0 {
        tr = true;
    }
    assert(views(out@) =~= go_fails(views(ls@)).0);
    (out, tr)
}

pub fn short_ya_error_exec(line: &Vec<char>) -> (r: Vec<char>)
    ensures
        r@ == short_ya_error(line@),
{
    let t = trim_start_chars(line);
    if !starts_with_str(&t, "Error[") {
        return slim_chars(line, MAX_LINE_CHARS);
    }
    proof {
        reveal_strlit("Error[");
    }
    let rest = slice_chars(&t, 6, t.len());
    assert(rest@ == t@.skip(6));
    let k = first_index_exec(&rest, ']');
    if k >= rest.len() {
        return slim_chars(line, MAX_LINE_CHARS);
    }
    let tag = slice_chars(&rest, 0, k);
    assert(tag@ == rest@.take(k as int));
    let after0 = slice_chars(&rest, k + 1, rest.len());
    assert(after0@ == rest@.skip(k + 1));
    let after1 = if after0.len() > 0 && after0[0] == ':' {
        let a = slice_chars(&after0, 1, after0.len());
        assert(a@ == after0@.drop_first());
        a
    } else {
        after0
    };
    let after = trim_chars(&after1);
    let mut head = line_of("Error[");
    append_chars(&mut head, &tag);
    push_str(&mut head, "]: ");
    match find_str(&after, "unexpected command ") {
        Some(i) => {
            proof {
                lemma_find_facts(after@, "unexpected command "@);
            }
            let tail = slice_chars(&after, i, after.len());
            assert(tail@ == after@.skip(i as int));
            let msg = trim_chars(&before_first_exec(&tail, ". Only"));
            append_chars(&mut head, &msg);
            head
        },
        None => match second_piece_exec(&after, "cannot find source file:") {
            Some(f) => {
                push_str(&mut head, "cannot find source file: ");
                append_chars(&mut head, &trim_chars(&f));
                head
            },
            None => {
                if contains_str(&after, "dart field") || contains_str(&after, "DartValueError") {
                    push_str(&mut head, "dart field must not be empty");
                    head
                } else {
                    append_chars(&mut head, &after);
                    slim_chars(&head, MAX_LINE_CHARS)
                }
            },
        },
    }
}

pub fn shell_chrome_chars(t: &Vec<char>) -> (r: bool)
    ensures
        r == shell_chrome(t@),
{
    starts_with_str(t, "➜") || contains_str(t, " arc:(") || starts_with_str(t, "/Users/")
        || starts_with_str(t, "/home/") || starts_with_str(t, "ya make") || ends_with_str(
        t,
        "ya make -tt",
    ) || ends_with_str(t, "ya make -t")
}

pub fn go_failure_signal_chars(t: &Vec<char>) -> (r: bool)
    ensures
        r == go_failure_signal(t@),
{
    starts_with_str(t, "Failed") || eq_str(t, "Failed") || starts_with_str(t, "FAIL\t")
        || starts_with_str(t, "panic:") || starts_with_str(t, "--- FAIL:") || starts_with_str(
        t,
        "=== FAIL",
    )
}

fn go_other_exec(ls: &Vec<Vec<char>>) -> (r: (Vec<Vec<char>>, bool))
    ensures
        (views(r.0@), r.1) == (go_other_run(views(ls@)).0, go_other_run(views(ls@)).1),
{
    let mut out: Vec<Vec<char>> = Vec::new();
    let mut tr = false;
    let mut errors: usize = 0;
    let mut i: usize = 0;
    while i < ls.len()
        invariant
            i <= ls.len(),
            errors <= CAP_ERRORS,
            (views(out@), tr, errors as nat) == go_other_run(views(ls@).take(i as int)),
        decreases ls.len() - i,
    {
        proof {
            lemma_take_step(views(ls@), i as int);
        }
        let line = &ls[i];
        let t = trim_start_chars(line);
        if shell_chrome_chars(&t) {
            tr = true;
        } else if starts_with_str(&t, "Warn[") {
            tr = true;
        } else if starts_with_str(&t, "Error[") || starts_with_str(&t, "Error:") {
            if errors < CAP_ERRORS {
                push_line(&mut out, short_ya_error_exec(line));
                errors = errors + 1;
                tr = true;
            } else {
                tr = true;
            }
        } else if framing_kept_chars(line) {
            push_line(&mut out, trim_end_chars(line));
        } else if go_failure_signal_chars(&t) {
            push_line(&mut out, slim_chars(line, MAX_LINE_CHARS));
        } else if t.len() > 0 {
            tr = true;
        }
        i += 1;
    }
    proof {
        lemma_take_all(views(ls@));
    }
    (out, tr)
}

fn go_join_exec(ls: &Vec<Vec<char>>) -> (r: Vec<char>)
    ensures
        r@ == go_join(views(ls@)),
{
    if ls.len() == 0 {
        return Vec::new();
    }
    let mut b = crate::text::join_nl_exec(ls);
    ensure_nl_exec(&mut b);
    b
}

/// [`go_filter`] on text held as characters.
pub fn go_filter_chars(s: &Vec<char>) -> (r: (Vec<char>, bool))
    ensures
        (r.0@, r.1) == go_filter(s@),
{
    let ls = split_lines(s);
    if has_fail_line_exec(&ls) {
        let (o, t) = go_fails_exec(&ls);
        (go_join_exec(&o), t)
    } else {
        let (o, t) = go_other_exec(&ls);
        (go_join_exec(&o), t)
    }
}

/// Filter go_test-shaped `ya` output. Always returns a body; the flag says
/// whether anything was dropped or rewritten.
pub fn filter_go_test(raw: &str) -> (r: (String, bool))
    ensures
        (r.0@, r.1) == go_filter(raw@),
{
    let s = chars_of(raw);
    let (b, t) = go_filter_chars(&s);
    (string_of(&b), t)
}

// ---------------------------------------------------------------- laws

/// `b` is a prefix of `a`.
pub open spec fn lines_prefix(b: Seq<Seq<char>>, a: Seq<Seq<char>>) -> bool {
    b.len() <= a.len() && forall|j: int| 0 <= j < b.len() ==> a[j] == b[j]
}

proof fn lemma_prefix_trans(a: Seq<Seq<char>>, b: Seq<Seq<char>>, c: Seq<Seq<char>>)
    requires
        lines_prefix(a, b),
        lines_prefix(b, c),
    ensures
        lines_prefix(a, c),
{
    assert forall|j: int| 0 <= j < a.len() implies c[j] == a[j] by {
        assert(b[j] == a[j]);
        assert(c[j] == b[j]);
    }
}

proof fn lemma_go_step_keep(x: GoFailState, l: Seq<char>)
    ensures
        lines_prefix(x.0, go_line_step(x, l).0),
{
    reveal(go_line_step);
    let o = go_line_step(x, l).0;
    let t = trim_start(l);
    if !(starts_with(t, "Logsdir:"@) && x.2.contains(t)) {
        let y = if starts_with(t, "[fail]"@) {
            short_fail_headline(l)
        } else if starts_with(t, "Log:"@) {
            short_log_line(l)
        } else {
            l
        };
        assert(o == x.0.push(y));
        assert forall|j: int| 0 <= j < x.0.len() implies o[j] == x.0[j] by {
            assert(x.0.push(y)[j] == x.0[j]);
        }
    }
}

proof fn lemma_go_lines_keep(st: GoFailState, ls: Seq<Seq<char>>)
    ensures
        lines_prefix(st.0, go_lines_run(st, ls).0),
    decreases ls.len(),
{
    if ls.len() > 0 {
        lemma_go_lines_keep(st, ls.drop_last());
        let x = go_lines_run(st, ls.drop_last());
        lemma_go_step_keep(x, ls.last());
        lemma_prefix_trans(st.0, x.0, go_line_step(x, ls.last()).0);
    }
}

proof fn lemma_go_lines_first(st: GoFailState, ls: Seq<Seq<char>>)
    requires
        ls.len() > 0,
    ensures
        lines_prefix(go_line_step(st, ls[0]).0, go_lines_run(st, ls).0),
    decreases ls.len(),
{
    let prev = ls.drop_last();
    if ls.len() == 1 {
        assert(prev =~= Seq::<Seq<char>>::empty());
        assert(go_lines_run(st, prev) == st);
        assert(ls.last() == ls[0]);
        let o = go_line_step(st, ls[0]).0;
        assert(go_lines_run(st, ls).0 == o);
        assert(lines_prefix(o, o));
    } else {
        lemma_go_lines_first(st, prev);
        assert(prev[0] == ls[0]);
        let x = go_lines_run(st, prev);
        lemma_go_step_keep(x, ls.last());
        lemma_prefix_trans(go_line_step(st, ls[0]).0, x.0, go_line_step(x, ls.last()).0);
    }
}

proof fn lemma_go_blocks_keep(st: GoFailState, bs: Seq<Seq<Seq<char>>>)
    ensures
        lines_prefix(st.0, go_blocks_run(st, bs).0),
    decreases bs.len(),
{
    if bs.len() > 0 {
        let s1 = go_blocks_run(st, bs.drop_last());
        lemma_go_blocks_keep(st, bs.drop_last());
        let (c, bt) = compact_block(bs.last());
        lemma_go_lines_keep((s1.0, s1.1 || bt, s1.2), c);
        lemma_prefix_trans(st.0, s1.0, go_blocks_run(st, bs).0);
    }
}

proof fn lemma_go_blocks_first(st: GoFailState, bs: Seq<Seq<Seq<char>>>)
    requires
        bs.len() > 0,
    ensures
        lines_prefix(go_blocks_run(st, bs.take(1)).0, go_blocks_run(st, bs).0),
    decreases bs.len(),
{
    let prev = bs.drop_last();
    if bs.len() == 1 {
        assert(bs.take(1) =~= bs);
    } else {
        lemma_go_blocks_first(st, prev);
        assert(prev.take(1) =~= bs.take(1));
        let s1 = go_blocks_run(st, prev);
        let (c, bt) = compact_block(bs.last());
        lemma_go_lines_keep((s1.0, s1.1 || bt, s1.2), c);
        lemma_prefix_trans(go_blocks_run(st, bs.take(1)).0, s1.0, go_blocks_run(st, bs).0);
    }
}

/// With `[fail]` blocks present, the go filter keeps the first headline,
/// shortened to `[fail] name`, as one of its lines (when the headline's
/// `[fail]` tag survives cutting the line to [`MAX_LINE_CHARS`]).
pub proof fn law_go_keeps_first_headline(ls: Seq<Seq<char>>, i0: int)
    requires
        0 <= i0 < ls.len(),
        is_fail_headline(ls[i0]),
        forall|j: int| 0 <= j < i0 ==> !is_fail_headline(#[trigger] ls[j]),
        is_fail_headline(slim(ls[i0], MAX_LINE_CHARS as nat)),
    ensures
        go_fails(ls).0.contains(short_fail_headline(slim(ls[i0], MAX_LINE_CHARS as nat))),
{
    law_split_first_headline(ls, i0);
    let (pre, blocks, post) = split_sections(ls);
    let b0 = blocks[0];
    law_compact_keeps_headline(b0);
    let take_n = min_nat(blocks.len(), MAX_FAIL_BLOCKS as nat);
    let taken = blocks.take(take_n as int);
    let st = (framing_lines(pre), false, Seq::<Seq<char>>::empty());
    lemma_go_blocks_first(st, taken);
    assert(taken.take(1).drop_last() =~= Seq::<Seq<Seq<char>>>::empty());
    assert(go_blocks_run(st, taken.take(1).drop_last()) == st);
    assert(taken.take(1).last() == b0);
    let (c, bt) = compact_block(b0);
    let x = (st.0, st.1 || bt, st.2);
    assert(go_blocks_run(st, taken.take(1)) == go_lines_run(x, c));
    lemma_go_lines_first(x, c);
    let h = c[0];
    assert(h == slim(ls[i0], MAX_LINE_CHARS as nat));
    assert(!x.2.contains(trim_start(h)));
    reveal(go_line_step);
    let y = short_fail_headline(h);
    assert(go_line_step(x, h).0 == st.0.push(y));
    let k = st.0.len() as int;
    let out = go_blocks_run(st, taken).0;
    assert(out[k] == y);
    let over = if blocks.len() > take_n {
        seq![more_failing_line((blocks.len() - take_n) as nat)]
    } else {
        seq![]
    };
    assert(go_fails(ls).0 == out + over + framing_lines(post));
    assert(go_fails(ls).0[k] == y);
}

} // verus!
