//! Compact a pytest `FAILURES` report: one `[FAIL] <node id>` per failure,
//! its first location line and its first error head, under a one-line
//! `Pytest: …` summary.

use vstd::prelude::*;
use crate::generic_fail::{error_head, error_head_chars, MAX_LINE_CHARS};
use crate::text::{
    append_chars, chars_of, contains, contains_str, join_nl, join_nl_exec, lemma_take_all,
    lemma_take_step, line_of, lines, push_line, slice_chars, slim, slim_chars, split_lines,
    starts_with, starts_with_str, string_of, trim, trim_chars, views,
};

verus! {

/// `s` without leading and trailing `c` (`str::trim_matches(c)`).
pub open spec fn strip_char_ends(s: Seq<char>, c: char) -> Seq<char>
    decreases s.len(),
{
    if s.len() > 0 && s[0] == c {
        strip_char_ends(s.drop_first(), c)
    } else if s.len() > 0 && s.last() == c {
        strip_char_ends(s.drop_last(), c)
    } else {
        s
    }
}

/// The failure currently read: node id, first location line, first error head.
pub type PyFail = (Seq<char>, Option<Seq<char>>, Option<Seq<char>>);

/// Reader state: section (0 header, 1 failures, 2 summary), rendered failure
/// lines, the failure being read, the final `=== … passed/failed … ===` line.
pub type PyState = (int, Seq<Seq<char>>, Option<PyFail>, Seq<char>);

pub open spec fn opt_line(o: Option<Seq<char>>) -> Seq<Seq<char>> {
    match o {
        Some(l) => seq![l],
        None => seq![],
    }
}

/// Rendered lines of one failure.
pub open spec fn render_fail(f: PyFail) -> Seq<Seq<char>> {
    seq!["[FAIL] "@ + f.0] + opt_line(f.1) + opt_line(f.2)
}

pub open spec fn flush_fail(out: Seq<Seq<char>>, cur: Option<PyFail>) -> Seq<Seq<char>> {
    match cur {
        Some(f) => out + render_fail(f),
        None => out,
    }
}

#[verifier::opaque]
pub open spec fn py_step(st: PyState, line: Seq<char>) -> PyState {
    let (mode, out, cur, summary) = st;
    let t = trim(line);
    if starts_with(t, "==="@) && contains(t, "FAILURES"@) {
        (1, out, cur, summary)
    } else if starts_with(t, "==="@) && contains(t, "short test summary"@) {
        (2, flush_fail(out, cur), None, summary)
    } else if starts_with(t, "==="@) && (contains(t, "passed"@) || contains(t, "failed"@)) {
        (mode, out, cur, t)
    } else if mode == 1 && starts_with(t, "___"@) {
        (mode, flush_fail(out, cur), Some((trim(strip_char_ends(t, '_')), None, None)), summary)
    } else if mode == 1 && !starts_with(t, "==="@) {
        match cur {
            Some((n, loc, err)) => if loc is None && contains(t, ".py:"@) {
                (mode, out, Some((n, Some(slim(t, MAX_LINE_CHARS as nat)), err)), summary)
            } else if err is None && error_head(t) {
                (mode, out, Some((n, loc, Some(slim(t, MAX_LINE_CHARS as nat)))), summary)
            } else {
                st
            },
            None => st,
        }
    } else {
        st
    }
}

pub open spec fn py_run(ls: Seq<Seq<char>>) -> PyState
    decreases ls.len(),
{
    if ls.len() == 0 {
        (0, seq![], None, seq![])
    } else {
        py_step(py_run(ls.drop_last()), ls.last())
    }
}

/// The compact report: `Pytest: <summary>` when a summary line was seen, then
/// the rendered failures, joined by `\n`.
pub open spec fn pytest_compact(s: Seq<char>) -> Seq<char> {
    let (_, out, cur, summary) = py_run(lines(s));
    let head = if summary.len() > 0 {
        seq!["Pytest: "@ + trim(strip_char_ends(summary, '='))]
    } else {
        seq![]
    };
    join_nl(head + flush_fail(out, cur))
}

// ---------------------------------------------------------------- exec

pub fn strip_char_ends_exec(s: &Vec<char>, c: char) -> (r: Vec<char>)
    ensures
        r@ == strip_char_ends(s@, c),
{
    let mut a: usize = 0;
    let mut b: usize = s.len();
    proof {
        assert(s@.subrange(0, s.len() as int) =~= s@);
    }
    while a < b && s[a] == c
        invariant
            a <= b == s.len(),
            strip_char_ends(s@, c) == strip_char_ends(s@.subrange(a as int, b as int), c),
        decreases b - a,
    {
        assert(s@.subrange(a as int, b as int).drop_first() =~= s@.subrange(a + 1, b as int));
        a += 1;
    }
    while a < b && s[b - 1] == c
        invariant
            a <= b <= s.len(),
            strip_char_ends(s@, c) == strip_char_ends(s@.subrange(a as int, b as int), c),
            a < b ==> s@[a as int] != c,
        decreases b - a,
    {
        assert(s@.subrange(a as int, b as int).drop_last() =~= s@.subrange(a as int, b - 1));
        b -= 1;
    }
    slice_chars(s, a, b)
}

struct PyFailExec {
    name: Vec<char>,
    loc: Option<Vec<char>>,
    err: Option<Vec<char>>,
}

spec fn opt_view(o: Option<Vec<char>>) -> Option<Seq<char>> {
    match o {
        Some(v) => Some(v@),
        None => None,
    }
}

spec fn fail_view(f: Option<PyFailExec>) -> Option<PyFail> {
    match f {
        Some(x) => Some((x.name@, opt_view(x.loc), opt_view(x.err))),
        None => None,
    }
}

fn flush_fail_exec(out: &mut Vec<Vec<char>>, cur: Option<PyFailExec>)
    ensures
        views(final(out)@) == flush_fail(views(old(out)@), fail_view(cur)),
{
    match cur {
        Some(f) => {
            let mut h = line_of("[FAIL] ");
            append_chars(&mut h, &f.name);
            push_line(out, h);
            match f.loc {
                Some(l) => push_line(out, l),
                None => {},
            }
            match f.err {
                Some(e) => push_line(out, e),
                None => {},
            }
            assert(views(out@) =~= flush_fail(views(old(out)@), fail_view(Some(f))));
        },
        None => {},
    }
}

/// Compact a pytest report (see [`pytest_compact`]).
pub fn filter_pytest_output(output: &str) -> (r: String)
    ensures
        r@ == pytest_compact(output@),
{
    let s = chars_of(output);
    string_of(&pytest_compact_chars(&s))
}

/// [`pytest_compact`] on text held as characters.
pub fn pytest_compact_chars(s: &Vec<char>) -> (r: Vec<char>)
    ensures
        r@ == pytest_compact(s@),
{
    let ls = split_lines(s);
    let mut mode: u8 = 0;
    let mut out: Vec<Vec<char>> = Vec::new();
    let mut cur: Option<PyFailExec> = None;
    let mut summary: Vec<char> = Vec::new();
    let mut i: usize = 0;
    while i < ls.len()
        invariant
            i <= ls.len(),
            (mode as int, views(out@), fail_view(cur), summary@) == py_run(
                views(ls@).take(i as int),
            ),
        decreases ls.len() - i,
    {
        proof {
            lemma_take_step(views(ls@), i as int);
            reveal(py_step);
        }
        let t = trim_chars(&ls[i]);
        let eqs = starts_with_str(&t, "===");
        if eqs && contains_str(&t, "FAILURES") {
            mode = 1;
        } else if eqs && contains_str(&t, "short test summary") {
            mode = 2;
            let c = cur.take();
            flush_fail_exec(&mut out, c);
        } else if eqs && (contains_str(&t, "passed") || contains_str(&t, "failed")) {
            summary = t;
        } else if mode == 1 && starts_with_str(&t, "___") {
            let c = cur.take();
            flush_fail_exec(&mut out, c);
            let n = trim_chars(&strip_char_ends_exec(&t, '_'));
            cur = Some(PyFailExec { name: n, loc: None, err: None });
        } else if mode == 1 && !eqs {
            match cur.take() {
                Some(f) => {
                    let PyFailExec { name, loc, err } = f;
                    if loc.is_none() && contains_str(&t, ".py:") {
                        cur = Some(
                            PyFailExec { name, loc: Some(slim_chars(&t, MAX_LINE_CHARS)), err },
                        );
                    } else if err.is_none() && error_head_chars(&t) {
                        cur = Some(
                            PyFailExec { name, loc, err: Some(slim_chars(&t, MAX_LINE_CHARS)) },
                        );
                    } else {
                        cur = Some(PyFailExec { name, loc, err });
                    }
                },
                None => {},
            }
        }
        i += 1;
    }
    proof {
        lemma_take_all(views(ls@));
    }
    assert(py_run(lines(s@)) == (mode as int, views(out@), fail_view(cur), summary@));
    let mut all: Vec<Vec<char>> = Vec::new();
    if summary.len() > 0 {
        let mut h = line_of("Pytest: ");
        append_chars(&mut h, &trim_chars(&strip_char_ends_exec(&summary, '=')));
        push_line(&mut all, h);
    }
    let ghost head = views(all@);
    assert(head == (if summary@.len() > 0 {
        seq!["Pytest: "@ + trim(strip_char_ends(summary@, '='))]
    } else {
        Seq::<Seq<char>>::empty()
    }));
    let mut k: usize = 0;
    while k < out.len()
        invariant
            k <= out.len(),
            views(all@) == head + views(out@).take(k as int),
        decreases out.len() - k,
    {
        proof {
            lemma_take_step(views(out@), k as int);
        }
        push_line(&mut all, crate::text::copy_chars(&out[k]));
        assert(views(all@) =~= head + views(out@).take(k + 1));
        k += 1;
    }
    proof {
        lemma_take_all(views(out@));
    }
    let ghost before = views(all@);
    flush_fail_exec(&mut all, cur);
    assert(views(all@) =~= head + flush_fail(views(out@), fail_view(cur)));
    join_nl_exec(&all)
}

} // verus!
