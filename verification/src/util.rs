//! Shared helpers: ANSI stripping, the never-worse guard, line joining.

use vstd::prelude::*;
use crate::generic_fail::utf8_len;
use crate::text::{is_ascii_alpha, is_digit, join_nl, join_nl_exec, lemma_take_all, views};

verus! {

pub open spec fn is_esc(c: char) -> bool {
    c == '\u{1b}'
}

/// Index of the first character at or after `i` that ends an SGR/CSI
/// parameter run (not a digit or `;`), or `s.len()`.
pub open spec fn csi_param_end(s: Seq<char>, i: int) -> int
    decreases s.len() - i,
{
    if i >= s.len() {
        s.len() as int
    } else if is_digit(s[i]) || s[i] == ';' {
        csi_param_end(s, i + 1)
    } else {
        i
    }
}

/// Text with `ESC [ <digits and ;> <letter>` sequences removed.
pub open spec fn strip_ansi(s: Seq<char>) -> Seq<char>
    decreases s.len(),
{
    if s.len() == 0 {
        seq![]
    } else if is_esc(s[0]) && s.len() >= 2 && s[1] == '[' && csi_param_end(s, 2) < s.len()
        && is_ascii_alpha(s[csi_param_end(s, 2)]) {
        proof {
            lemma_csi_bounds(s, 2);
        }
        strip_ansi(s.skip(csi_param_end(s, 2) + 1))
    } else {
        seq![s[0]] + strip_ansi(s.drop_first())
    }
}

/// Index of the first ASCII letter at or after `i`, or `s.len()`.
pub open spec fn first_alpha_from(s: Seq<char>, i: int) -> int
    decreases s.len() - i,
{
    if i >= s.len() {
        s.len() as int
    } else if is_ascii_alpha(s[i]) {
        i
    } else {
        first_alpha_from(s, i + 1)
    }
}

/// Light ANSI removal: `ESC [` drops everything up to and including the next
/// ASCII letter (or to the end); a lone `ESC` is dropped.
pub open spec fn strip_ansi_lite(s: Seq<char>) -> Seq<char>
    decreases s.len(),
{
    if s.len() == 0 {
        seq![]
    } else if is_esc(s[0]) {
        if s.len() >= 2 && s[1] == '[' {
            let k = first_alpha_from(s, 2);
            if k < s.len() {
                proof {
                    lemma_alpha_bounds(s, 2);
                }
                strip_ansi_lite(s.skip(k + 1))
            } else {
                seq![]
            }
        } else {
            strip_ansi_lite(s.drop_first())
        }
    } else {
        seq![s[0]] + strip_ansi_lite(s.drop_first())
    }
}

/// `lines` joined by `\n`, with a final `\n` when there is any line.
pub open spec fn join_lines(ls: Seq<Seq<char>>) -> Seq<char> {
    if ls.len() == 0 {
        seq![]
    } else {
        join_nl(ls).push('\n')
    }
}

/// The filtered text, unless it is longer (in bytes) than the raw text.
pub open spec fn never_worse(raw: Seq<char>, filtered: Seq<char>) -> Seq<char> {
    if utf8_len(filtered) > utf8_len(raw) {
        raw
    } else {
        filtered
    }
}

// ---------------------------------------------------------------- exec

pub proof fn lemma_csi_bounds(s: Seq<char>, i: int)
    requires
        0 <= i,
    ensures
        i <= csi_param_end(s, i) || (i > s.len() && csi_param_end(s, i) == s.len()),
        csi_param_end(s, i) <= s.len() || i > s.len(),
    decreases s.len() - i,
{
    if i < s.len() && (is_digit(s[i]) || s[i] == ';') {
        lemma_csi_bounds(s, i + 1);
    }
}

pub proof fn lemma_alpha_bounds(s: Seq<char>, i: int)
    requires
        0 <= i <= s.len(),
    ensures
        i <= first_alpha_from(s, i) <= s.len(),
    decreases s.len() - i,
{
    if i < s.len() && !is_ascii_alpha(s[i]) {
        lemma_alpha_bounds(s, i + 1);
    }
}

proof fn lemma_csi_skip(s: Seq<char>, i: int, k: int)
    requires
        0 <= k <= i <= s.len(),
    ensures
        csi_param_end(s.skip(k), i - k) == csi_param_end(s, i) - k,
    decreases s.len() - i,
{
    if i < s.len() && (is_digit(s[i]) || s[i] == ';') {
        lemma_csi_skip(s, i + 1, k);
    }
}

proof fn lemma_alpha_skip(s: Seq<char>, i: int, k: int)
    requires
        0 <= k <= i <= s.len(),
    ensures
        first_alpha_from(s.skip(k), i - k) == first_alpha_from(s, i) - k,
    decreases s.len() - i,
{
    if i < s.len() && !is_ascii_alpha(s[i]) {
        lemma_alpha_skip(s, i + 1, k);
    }
}

fn is_alpha_exec(c: char) -> (r: bool)
    ensures
        r == is_ascii_alpha(c),
{
    ('a' <= c && c <= 'z') || ('A' <= c && c <= 'Z')
}

/// [`strip_ansi`] as code.
pub fn strip_ansi_chars(s: &Vec<char>) -> (r: Vec<char>)
    ensures
        r@ == strip_ansi(s@),
{
    let mut out: Vec<char> = Vec::new();
    let mut i: usize = 0;
    assert(s@.skip(0) =~= s@);
    while i < s.len()
        invariant
            i <= s.len(),
            out@ + strip_ansi(s@.skip(i as int)) == strip_ansi(s@),
        decreases s.len() - i,
    {
        let ghost rest = s@.skip(i as int);
        if s[i] == '\u{1b}' && i + 1 < s.len() && s[i + 1] == '[' {
            let mut k = i + 2;
            while k < s.len() && (('0' <= s[k] && s[k] <= '9') || s[k] == ';')
                invariant
                    i + 2 <= k <= s.len(),
                    csi_param_end(s@, i + 2) == csi_param_end(s@, k as int),
                decreases s.len() - k,
            {
                k += 1;
            }
            proof {
                lemma_csi_skip(s@, i + 2, i as int);
            }
            if k < s.len() && is_alpha_exec(s[k]) {
                assert(rest.skip(k - i + 1) =~= s@.skip(k + 1));
                i = k + 1;
                continue;
            }
        }
        out.push(s[i]);
        assert(rest.drop_first() =~= s@.skip(i + 1));
        i += 1;
    }
    assert(s@.skip(s.len() as int) =~= Seq::<char>::empty());
    assert(s@.skip(0) =~= s@);
    out
}

/// [`strip_ansi_lite`] as code.
pub fn strip_ansi_lite_chars(s: &Vec<char>) -> (r: Vec<char>)
    ensures
        r@ == strip_ansi_lite(s@),
{
    let mut out: Vec<char> = Vec::new();
    let mut i: usize = 0;
    assert(s@.skip(0) =~= s@);
    while i < s.len()
        invariant
            i <= s.len(),
            out@ + strip_ansi_lite(s@.skip(i as int)) == strip_ansi_lite(s@),
        decreases s.len() - i,
    {
        let ghost rest = s@.skip(i as int);
        if s[i] == '\u{1b}' {
            if i + 1 < s.len() && s[i + 1] == '[' {
                let mut k = i + 2;
                while k < s.len() && !is_alpha_exec(s[k])
                    invariant
                        i + 2 <= k <= s.len(),
                        first_alpha_from(s@, i + 2) == first_alpha_from(s@, k as int),
                    decreases s.len() - k,
                {
                    k += 1;
                }
                proof {
                    lemma_alpha_skip(s@, i + 2, i as int);
                }
                if k < s.len() {
                    assert(rest.skip(k - i + 1) =~= s@.skip(k + 1));
                    i = k + 1;
                } else {
                    assert(strip_ansi_lite(rest) == Seq::<char>::empty());
                    assert(s@.skip(s.len() as int) =~= Seq::<char>::empty());
                    i = s.len();
                }
            } else {
                assert(rest.drop_first() =~= s@.skip(i + 1));
                i += 1;
            }
        } else {
            out.push(s[i]);
            assert(rest.drop_first() =~= s@.skip(i + 1));
            i += 1;
        }
    }
    assert(s@.skip(s.len() as int) =~= Seq::<char>::empty());
    assert(s@.skip(0) =~= s@);
    out
}

/// [`join_lines`] as code.
pub fn join_lines_exec(ls: &Vec<Vec<char>>) -> (r: Vec<char>)
    ensures
        r@ == join_lines(views(ls@)),
{
    if ls.len() == 0 {
        return Vec::new();
    }
    let mut r = join_nl_exec(ls);
    r.push('\n');
    r
}

pub fn utf8_len_exec(s: &Vec<char>) -> (r: u128)
    ensures
        r == utf8_len(s@),
{
    let mut total: u128 = 0;
    let mut i: usize = 0;
    while i < s.len()
        invariant
            i <= s.len(),
            total == utf8_len(s@.take(i as int)),
            total <= 4 * i,
        decreases s.len() - i,
    {
        proof {
            crate::text::lemma_take_step(s@, i as int);
        }
        let u = s[i] as u32;
        let w: u128 = if u < 0x80 {
            1
        } else if u < 0x800 {
            2
        } else if u < 0x10000 {
            3
        } else {
            4
        };
        total = total + w;
        i += 1;
    }
    proof {
        lemma_take_all(s@);
    }
    total
}

/// [`never_worse`] as code.
pub fn never_worse_chars(raw: &Vec<char>, filtered: &Vec<char>) -> (r: Vec<char>)
    ensures
        r@ == never_worse(raw@, filtered@),
{
    if utf8_len_exec(filtered) > utf8_len_exec(raw) {
        crate::text::copy_chars(raw)
    } else {
        crate::text::copy_chars(filtered)
    }
}

} // verus!

verus! {

/// `b` with a `\n` appended unless it already ends with one.
pub open spec fn ensure_nl(b: Seq<char>) -> Seq<char> {
    if b.len() > 0 && b.last() == '\n' {
        b
    } else {
        b.push('\n')
    }
}

/// `b` with a `\n` appended when non-empty and not already ending with one.
pub open spec fn terminate_nl(b: Seq<char>) -> Seq<char> {
    if b.len() == 0 || b.last() == '\n' {
        b
    } else {
        b.push('\n')
    }
}

pub fn ensure_nl_exec(b: &mut Vec<char>)
    ensures
        final(b)@ == ensure_nl(old(b)@),
{
    if !(b.len() > 0 && b[b.len() - 1] == '\n') {
        b.push('\n');
    }
}

pub fn terminate_nl_exec(b: &mut Vec<char>)
    ensures
        final(b)@ == terminate_nl(old(b)@),
{
    if !(b.len() == 0 || b[b.len() - 1] == '\n') {
        b.push('\n');
    }
}

/// Whether `x` is one of `set`.
pub fn seq_has(set: &Vec<Vec<char>>, x: &Vec<char>) -> (r: bool)
    ensures
        r == views(set@).contains(x@),
{
    let mut i: usize = 0;
    while i < set.len()
        invariant
            i <= set.len(),
            forall|j: int| 0 <= j < i ==> views(set@)[j] != x@,
        decreases set.len() - i,
    {
        if crate::text::chars_eq(&set[i], x) {
            assert(views(set@)[i as int] == x@);
            return true;
        }
        i += 1;
    }
    false
}

/// The guard never shows more bytes than the raw text, and shows either the
/// raw text or the filtered one.
pub proof fn law_never_worse(raw: Seq<char>, filtered: Seq<char>)
    ensures
        utf8_len(never_worse(raw, filtered)) <= utf8_len(raw),
        never_worse(raw, filtered) == raw || never_worse(raw, filtered) == filtered,
        utf8_len(filtered) <= utf8_len(raw) ==> never_worse(raw, filtered) == filtered,
{
}

} // verus!
