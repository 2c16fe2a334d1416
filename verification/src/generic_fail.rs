//! Generic fail-block compaction.
//!
//! Per `[fail]` block keep: the headline, the first location line, the first
//! error head, `Log:` and `Logsdir:`. Drop `Expected:` / `but:` dumps and long
//! stacks.

use vstd::prelude::*;
use crate::pattern::{
    compiled_matches_chars, regex_compiles, regex_is_match, regex_new, CompiledRegex,
};
use crate::text::{
    append_chars, chars_of, chars_of_all, contains, contains_str, decimal, decimal_chars,
    join_nl, join_nl_exec, lemma_take_all, lemma_take_step, push_line, push_str, slim,
    slim_chars, starts_with, starts_with_str, str_views, string_of, string_views, strings_of,
    trim_end, trim_start, trim_start_chars, views, lines, split_lines,
};

verus! {

/// Cap on emitted list items (errors, fail blocks).
pub const CAP_ERRORS: usize = 20;

/// Max `[fail]` blocks emitted (the rest become an overflow line).
pub const MAX_FAIL_BLOCKS: usize = CAP_ERRORS;

/// Kept lines are cut to this many characters.
pub const MAX_LINE_CHARS: usize = 240;

/// `file.ext:NN` somewhere in the line.
pub const LOCATION_PATTERN: &'static str = r"\.\w+:\d+";

/// `.ext:NN` somewhere in `t`, as `regex` decides; the pattern is consulted
/// only for lines with a `.` and a `:` (no other line can match it).
pub open spec fn location_match(t: Seq<char>) -> bool {
    contains(t, seq!['.']) && contains(t, seq![':']) && regex_compiles(LOCATION_PATTERN@)
        && regex_is_match(LOCATION_PATTERN@, t)
}

pub open spec fn first_is(t: Seq<char>, c: char) -> bool {
    t.len() > 0 && t[0] == c
}

/// A location line: not an `E…` / `[…` line, and holds `.ext:NN`.
pub open spec fn location_line(t: Seq<char>) -> bool {
    if first_is(t, 'E') || first_is(t, '[') {
        false
    } else {
        location_match(t)
    }
}

/// A location line that already carries the error (`main_test.go:31: non-zero …`).
pub open spec fn inline_error(t: Seq<char>) -> bool {
    location_match(t) && error_words(t)
}

/// Words that make a location line carry the error itself.
pub open spec fn error_words(t: Seq<char>) -> bool {
    contains(t, "failed"@) || contains(t, "error"@) || contains(t, "Error"@) || contains(t, "FAIL"@)
        || contains(t, "non-zero"@)
}

pub open spec fn error_head(t: Seq<char>) -> bool {
    if starts_with(t, "E   Expected:"@) || starts_with(t, "E        but:"@) {
        false
    } else if starts_with(t, "E "@) || starts_with(t, "E\t"@) {
        true
    } else if starts_with(t, "AssertionError"@) || starts_with(t, "Error:"@) || starts_with(
        t,
        "error:"@,
    ) {
        true
    } else {
        contains(t, "hook failed:"@) || contains(t, "step error:"@)
    }
}

/// Signal the compact policy never drops (it is cut instead).
pub open spec fn s0_keep_signal(t: Seq<char>) -> bool {
    starts_with(t, "Log:"@) || starts_with(t, "Logsdir:"@) || starts_with(t, "[fail]"@)
        || location_line(t) || error_head(t)
}

pub open spec fn assertion_dump(t: Seq<char>) -> bool {
    starts_with(t, "E   Expected:"@) || starts_with(t, "E        but:"@) || starts_with(
        t,
        "E   But:"@,
    )
}

/// State of the block compaction: kept lines, truncated, kept location,
/// kept error head, kept `Log:`, kept `Logsdir:`.
pub type BlockState = (Seq<Seq<char>>, bool, bool, bool, bool, bool);

/// One compaction step, given whether the location pattern matches the line
/// (without its leading whitespace).
pub open spec fn block_step_given(st: BlockState, i: int, line: Seq<char>, hit: bool) -> BlockState {
    let (out, tr, loc, err, log, ldir) = st;
    let t = trim_start(line);
    let kept = slim(line, MAX_LINE_CHARS as nat);
    if i == 0 || starts_with(t, "[fail]"@) {
        (out.push(kept), tr, loc, err, log, ldir)
    } else if starts_with(t, "Log:"@) {
        if !log {
            (out.push(kept), tr, loc, err, true, ldir)
        } else {
            st
        }
    } else if starts_with(t, "Logsdir:"@) {
        if !ldir {
            (out.push(kept), tr, loc, err, log, true)
        } else {
            st
        }
    } else if assertion_dump(t) {
        (out, true, loc, err, log, ldir)
    } else if !loc && !first_is(t, 'E') && !first_is(t, '[') && hit {
        (out.push(kept), tr, true, err || error_words(t), log, ldir)
    } else if !err && error_head(t) {
        (out.push(kept), tr, loc, true, log, ldir)
    } else if t.len() > 0 {
        (out, true, loc, err, log, ldir)
    } else {
        st
    }
}

pub open spec fn block_step(st: BlockState, i: int, line: Seq<char>) -> BlockState {
    block_step_given(st, i, line, location_match(trim_start(line)))
}

pub open spec fn block_run(block: Seq<Seq<char>>) -> BlockState
    decreases block.len(),
{
    if block.len() == 0 {
        (seq![], false, false, false, false, false)
    } else {
        block_step(block_run(block.drop_last()), block.len() - 1, block.last())
    }
}

pub open spec fn block_run_given(block: Seq<Seq<char>>, hits: Seq<bool>) -> BlockState
    decreases block.len(),
{
    if block.len() == 0 {
        (seq![], false, false, false, false, false)
    } else {
        block_step_given(
            block_run_given(block.drop_last(), hits.drop_last()),
            block.len() - 1,
            block.last(),
            hits.last(),
        )
    }
}

/// Whether the location pattern matches each line (without its leading
/// whitespace).
pub open spec fn location_hits(block: Seq<Seq<char>>) -> Seq<bool> {
    block.map_values(|l: Seq<char>| location_match(trim_start(l)))
}

/// The compaction once the location matches of the lines are known.
pub open spec fn compact_block_given(block: Seq<Seq<char>>, hits: Seq<bool>) -> (Seq<Seq<char>>, bool) {
    let st = block_run_given(block, hits);
    (st.0, st.1)
}

proof fn lemma_block_run_given(block: Seq<Seq<char>>)
    ensures
        block_run(block) == block_run_given(block, location_hits(block)),
    decreases block.len(),
{
    if block.len() > 0 {
        lemma_block_run_given(block.drop_last());
        assert(location_hits(block).drop_last() =~= location_hits(block.drop_last()));
    }
}

/// Compact form of one `[fail]` block: the kept lines, and whether anything
/// was dropped.
pub open spec fn compact_block(block: Seq<Seq<char>>) -> (Seq<Seq<char>>, bool) {
    let st = block_run(block);
    (st.0, st.1)
}

/// A line that ends a `[fail]` block (chunk / suite framing).
pub open spec fn block_boundary(line: Seq<char>) -> bool {
    let t = trim_start(line);
    starts_with(t, "------"@) || starts_with(t, "Total "@) || starts_with(t, "[TM]"@)
        || starts_with(t, "------- [TM]"@) || starts_with(t, "------- [GO]"@) || starts_with(
        t,
        "------- [PB]"@,
    )
}

/// The UTF-8 length of one character.
pub open spec fn utf8_width(c: char) -> nat {
    let u = c as u32;
    if u < 0x80 {
        1
    } else if u < 0x800 {
        2
    } else if u < 0x10000 {
        3
    } else {
        4
    }
}

/// The UTF-8 length of a text (what `str::len` returns).
pub open spec fn utf8_len(s: Seq<char>) -> nat
    decreases s.len(),
{
    if s.len() == 0 {
        0
    } else {
        utf8_len(s.drop_last()) + utf8_width(s.last())
    }
}

/// A fat assertion / progress line that is dropped before buffering.
pub open spec fn fat_drop(line: Seq<char>) -> bool {
    let t = trim_start(line);
    if assertion_dump(t) {
        true
    } else if t == "Ok"@ || starts_with(t, "Ok ["@) {
        true
    } else if starts_with(t, "------- [PB]"@) || starts_with(t, "-------[PB]"@) {
        true
    } else if contains(t, "PEERDIR"@) && !starts_with(t, "[fail]"@) {
        true
    } else if contains(t, "Unexpected getting uninitialized hot settings"@) {
        true
    } else {
        utf8_len(t) > 2000 && !s0_keep_signal(t)
    }
}

/// Sections of a dump: (preamble, fail blocks, postamble, open block, seen a fail).
pub type SplitState = (Seq<Seq<char>>, Seq<Seq<Seq<char>>>, Seq<Seq<char>>, Option<Seq<Seq<char>>>, bool);

pub open spec fn split_step(st: SplitState, line: Seq<char>) -> SplitState {
    let (pre, blocks, post, cur, seen) = st;
    if starts_with(trim_start(line), "[fail]"@) {
        let blocks2 = match cur {
            Some(b) => blocks.push(b),
            None => blocks,
        };
        (pre, blocks2, post, Some(seq![line]), true)
    } else {
        match cur {
            Some(b) => if block_boundary(line) {
                (pre, blocks.push(b), post.push(line), None, seen)
            } else {
                (pre, blocks, post, Some(b.push(line)), seen)
            },
            None => if !seen {
                (pre.push(line), blocks, post, None, seen)
            } else {
                (pre, blocks, post.push(line), None, seen)
            },
        }
    }
}

pub open spec fn split_run(lines: Seq<Seq<char>>) -> SplitState
    decreases lines.len(),
{
    if lines.len() == 0 {
        (seq![], seq![], seq![], None, false)
    } else {
        split_step(split_run(lines.drop_last()), lines.last())
    }
}

/// Preamble (before the first `[fail]`), the `[fail]` blocks (each ends at the
/// next `[fail]` or a block boundary), and the postamble.
pub open spec fn split_sections(lines: Seq<Seq<char>>) -> (Seq<Seq<char>>, Seq<Seq<Seq<char>>>, Seq<Seq<char>>) {
    let (pre, blocks, post, cur, _) = split_run(lines);
    match cur {
        Some(b) => (pre, blocks.push(b), post),
        None => (pre, blocks, post),
    }
}

// ---------------------------------------------------------------- exec

/// `re` is the location pattern compiled (or `None` exactly when it does
/// not compile), ready to be used over many lines.
pub open spec fn location_regex_ok(re: Option<CompiledRegex>) -> bool {
    &&& re is Some <==> regex_compiles(LOCATION_PATTERN@)
    &&& re matches Some(r) ==> r.pattern() == LOCATION_PATTERN@
}

/// The location pattern, compiled once for use over many lines.
pub(crate) struct LocationRegex {
    re: Option<CompiledRegex>,
}

impl LocationRegex {
    #[verifier::type_invariant]
    closed spec fn ready(&self) -> bool {
        location_regex_ok(self.re)
    }

    /// The compiled location pattern, if it compiled.
    pub(crate) closed spec fn compiled(&self) -> Option<CompiledRegex> {
        self.re
    }

    /// Compiles [`LOCATION_PATTERN`]: the result holds a regex exactly when
    /// the pattern compiles, and that regex is the location pattern's.
    pub(crate) fn new() -> (r: Self)
        ensures
            location_regex_ok(r.compiled()),
    {
        LocationRegex { re: regex_new(LOCATION_PATTERN) }
    }
}

pub(crate) fn location_line_chars(re: &LocationRegex, t: &Vec<char>) -> (r: bool)
    ensures
        r == location_line(t@),
{
    if t.len() > 0 && (t[0] == 'E' || t[0] == '[') {
        return false;
    }
    location_match_chars(re, t)
}

fn location_match_chars(re: &LocationRegex, t: &Vec<char>) -> (r: bool)
    ensures
        r == location_match(t@),
{
    proof {
        use_type_invariant(re);
    }
    if !(crate::text::contains_char(t, '.') && crate::text::contains_char(t, ':')) {
        return false;
    }
    match &re.re {
        Some(r) => compiled_matches_chars(r, t),
        None => false,
    }
}

pub fn error_head_chars(t: &Vec<char>) -> (r: bool)
    ensures
        r == error_head(t@),
{
    if starts_with_str(t, "E   Expected:") || starts_with_str(t, "E        but:") {
        return false;
    }
    if starts_with_str(t, "E ") || starts_with_str(t, "E\t") {
        return true;
    }
    if starts_with_str(t, "AssertionError") || starts_with_str(t, "Error:") || starts_with_str(
        t,
        "error:",
    ) {
        return true;
    }
    contains_str(t, "hook failed:") || contains_str(t, "step error:")
}

pub fn s0_keep_signal_chars(t: &Vec<char>) -> (r: bool)
    ensures
        r == s0_keep_signal(t@),
{
    if starts_with_str(t, "Log:") || starts_with_str(t, "Logsdir:") || starts_with_str(t, "[fail]")
        || error_head_chars(t) {
        return true;
    }
    let re = LocationRegex::new();
    location_line_chars(&re, t)
}

pub fn assertion_dump_chars(t: &Vec<char>) -> (r: bool)
    ensures
        r == assertion_dump(t@),
{
    starts_with_str(t, "E   Expected:") || starts_with_str(t, "E        but:") || starts_with_str(
        t,
        "E   But:",
    )
}

fn error_words_chars(t: &Vec<char>) -> (r: bool)
    ensures
        r == error_words(t@),
{
    contains_str(t, "failed") || contains_str(t, "error") || contains_str(t, "Error")
        || contains_str(t, "FAIL") || contains_str(t, "non-zero")
}

/// [`compact_block_given`] on lines held as characters.
fn compact_block_given_chars(block: &Vec<Vec<char>>, hits: &Vec<bool>) -> (r: (Vec<Vec<char>>, bool))
    requires
        hits.len() == block.len(),
    ensures
        (views(r.0@), r.1) == compact_block_given(views(block@), hits@),
{
    let mut out: Vec<Vec<char>> = Vec::new();
    let mut tr = false;
    let mut loc = false;
    let mut err = false;
    let mut log = false;
    let mut ldir = false;
    let mut i: usize = 0;
    while i < block.len()
        invariant
            i <= block.len() == hits.len(),
            (views(out@), tr, loc, err, log, ldir) == block_run_given(
                views(block@).take(i as int),
                hits@.take(i as int),
            ),
        decreases block.len() - i,
    {
        proof {
            lemma_take_step(views(block@), i as int);
            lemma_take_step(hits@, i as int);
        }
        let line = &block[i];
        let t = trim_start_chars(line);
        if i == 0 || starts_with_str(&t, "[fail]") {
            push_line(&mut out, slim_chars(line, MAX_LINE_CHARS));
        } else if starts_with_str(&t, "Log:") {
            if !log {
                push_line(&mut out, slim_chars(line, MAX_LINE_CHARS));
                log = true;
            }
        } else if starts_with_str(&t, "Logsdir:") {
            if !ldir {
                push_line(&mut out, slim_chars(line, MAX_LINE_CHARS));
                ldir = true;
            }
        } else if assertion_dump_chars(&t) {
            tr = true;
        } else if !loc && !(t.len() > 0 && (t[0] == 'E' || t[0] == '[')) && hits[i] {
            push_line(&mut out, slim_chars(line, MAX_LINE_CHARS));
            loc = true;
            if !err && error_words_chars(&t) {
                err = true;
            }
        } else if !err && error_head_chars(&t) {
            push_line(&mut out, slim_chars(line, MAX_LINE_CHARS));
            err = true;
        } else if t.len() > 0 {
            tr = true;
        }
        i += 1;
    }
    proof {
        lemma_take_all(views(block@));
        lemma_take_all(hits@);
    }
    (out, tr)
}

/// [`compact_block`] on lines held as characters.
pub(crate) fn compact_block_chars(re: &LocationRegex, block: &Vec<Vec<char>>) -> (r: (Vec<Vec<char>>, bool))
    ensures
        (views(r.0@), r.1) == compact_block(views(block@)),
{
    let ghost bv = views(block@);
    let mut hits: Vec<bool> = Vec::new();
    let mut i: usize = 0;
    while i < block.len()
        invariant
            i <= block.len(),
            bv == views(block@),
            hits@ == location_hits(bv).take(i as int),
        decreases block.len() - i,
    {
        let t = trim_start_chars(&block[i]);
        hits.push(location_match_chars(re, &t));
        assert(hits@ =~= location_hits(bv).take(i + 1));
        i += 1;
    }
    assert(location_hits(bv).take(block.len() as int) =~= location_hits(bv));
    proof {
        lemma_block_run_given(bv);
    }
    compact_block_given_chars(block, &hits)
}

/// Compact one `[fail]` block (its first line is the headline). Returns the
/// kept lines and whether anything was dropped.
pub fn compact_fail_block(block: &[&str]) -> (r: (Vec<String>, bool))
    ensures
        (string_views(r.0@), r.1) == compact_block(str_views(block@)),
{
    let b = chars_of_all(block);
    let re = LocationRegex::new();
    let (out, tr) = compact_block_chars(&re, &b);
    (strings_of(&out), tr)
}

/// [`compact_fail_block`] once it is known, for each line, whether the
/// location pattern matches it (without its leading whitespace).
pub fn compact_fail_block_given(block: &[&str], location_matches: &[bool]) -> (r: (Vec<String>, bool))
    requires
        location_matches@.len() == block@.len(),
    ensures
        (string_views(r.0@), r.1) == compact_block_given(str_views(block@), location_matches@),
{
    let b = chars_of_all(block);
    let mut hits: Vec<bool> = Vec::new();
    let mut i: usize = 0;
    while i < location_matches.len()
        invariant
            i <= location_matches@.len(),
            hits@ == location_matches@.take(i as int),
        decreases location_matches.len() - i,
    {
        hits.push(location_matches[i]);
        assert(hits@ =~= location_matches@.take(i + 1));
        i += 1;
    }
    assert(location_matches@.take(location_matches@.len() as int) =~= location_matches@);
    assert(b@.len() == views(b@).len() && block@.len() == str_views(block@).len());
    let (out, tr) = compact_block_given_chars(&b, &hits);
    (strings_of(&out), tr)
}

/// Slim a line before buffering: trailing whitespace dropped, cut to
/// [`MAX_LINE_CHARS`] characters (the last being `…`).
pub fn slim_line_for_buffer(line: &str) -> (r: String)
    ensures
        r@ == slim(line@, MAX_LINE_CHARS as nat),
{
    let l = chars_of(line);
    string_of(&slim_chars(&l, MAX_LINE_CHARS))
}

pub fn block_boundary_chars(line: &Vec<char>) -> (r: bool)
    ensures
        r == block_boundary(line@),
{
    let t = trim_start_chars(line);
    starts_with_str(&t, "------") || starts_with_str(&t, "Total ") || starts_with_str(&t, "[TM]")
        || starts_with_str(&t, "------- [TM]") || starts_with_str(&t, "------- [GO]")
        || starts_with_str(&t, "------- [PB]")
}

/// Structural boundaries that end a `[fail]` block (chunk / suite framing).
pub fn is_fail_block_boundary(line: &str) -> (r: bool)
    ensures
        r == block_boundary(line@),
{
    let l = chars_of(line);
    block_boundary_chars(&l)
}

fn utf8_width_exec(c: char) -> (r: usize)
    ensures
        r == utf8_width(c),
{
    let u = c as u32;
    if u < 0x80 {
        1
    } else if u < 0x800 {
        2
    } else if u < 0x10000 {
        3
    } else {
        4
    }
}

/// Whether the UTF-8 length of `t` exceeds `limit`.
fn utf8_longer_than(t: &Vec<char>, limit: usize) -> (r: bool)
    requires
        limit < 1000000,
    ensures
        r == (utf8_len(t@) > limit),
{
    let mut total: usize = 0;
    let mut i: usize = 0;
    while i < t.len()
        invariant
            i <= t.len(),
            limit < 1000000,
            total == utf8_len(t@.take(i as int)),
            total <= limit,
        decreases t.len() - i,
    {
        proof {
            lemma_take_step(t@, i as int);
        }
        total = total + utf8_width_exec(t[i]);
        if total > limit {
            proof {
                lemma_utf8_len_mono(t@, i + 1);
            }
            return true;
        }
        i += 1;
    }
    proof {
        lemma_take_all(t@);
    }
    false
}

proof fn lemma_utf8_len_mono(s: Seq<char>, i: int)
    requires
        0 <= i <= s.len(),
    ensures
        utf8_len(s.take(i)) <= utf8_len(s),
    decreases s.len() - i,
{
    if i < s.len() {
        lemma_utf8_len_mono(s, i + 1);
        lemma_take_step(s, i);
    } else {
        lemma_take_all(s);
    }
}

pub fn fat_drop_chars(line: &Vec<char>) -> (r: bool)
    ensures
        r == fat_drop(line@),
{
    let t = trim_start_chars(line);
    if assertion_dump_chars(&t) {
        return true;
    }
    if crate::text::eq_str(&t, "Ok") || starts_with_str(&t, "Ok [") {
        return true;
    }
    if starts_with_str(&t, "------- [PB]") || starts_with_str(&t, "-------[PB]") {
        return true;
    }
    if contains_str(&t, "PEERDIR") && !starts_with_str(&t, "[fail]") {
        return true;
    }
    if contains_str(&t, "Unexpected getting uninitialized hot settings") {
        return true;
    }
    utf8_longer_than(&t, 2000) && !s0_keep_signal_chars(&t)
}

/// Fat assertion / progress lines that dominate multi-MB dumps; dropped
/// before buffering. Length alone (over 2000 bytes) never drops a keep signal.
pub fn is_fat_drop_line(line: &str) -> (r: bool)
    ensures
        r == fat_drop(line@),
{
    let l = chars_of(line);
    fat_drop_chars(&l)
}

/// [`split_sections`] on lines held as characters.
pub fn split_sections_chars(lines: &Vec<Vec<char>>) -> (r: (Vec<Vec<char>>, Vec<Vec<Vec<char>>>, Vec<Vec<char>>))
    ensures
        (views(r.0@), r.1@.map_values(|b: Vec<Vec<char>>| views(b@)), views(r.2@))
            == split_sections(views(lines@)),
{
    let mut pre: Vec<Vec<char>> = Vec::new();
    let mut blocks: Vec<Vec<Vec<char>>> = Vec::new();
    let mut post: Vec<Vec<char>> = Vec::new();
    let mut cur: Option<Vec<Vec<char>>> = None;
    let mut seen = false;
    let mut i: usize = 0;
    while i < lines.len()
        invariant
            i <= lines.len(),
            ({
                let st = split_run(views(lines@).take(i as int));
                &&& st.0 == views(pre@)
                &&& st.1 == blocks@.map_values(|b: Vec<Vec<char>>| views(b@))
                &&& st.2 == views(post@)
                &&& st.3 == match cur {
                    Some(b) => Some(views(b@)),
                    None => None,
                }
                &&& st.4 == seen
            }),
        decreases lines.len() - i,
    {
        proof {
            lemma_take_step(views(lines@), i as int);
        }
        let line = crate::text::copy_chars(&lines[i]);
        let t = trim_start_chars(&line);
        let ghost bv = blocks@.map_values(|b: Vec<Vec<char>>| views(b@));
        if starts_with_str(&t, "[fail]") {
            seen = true;
            match cur.take() {
                Some(b) => {
                    let ghost bview = views(b@);
                    blocks.push(b);
                    assert(blocks@.map_values(|b: Vec<Vec<char>>| views(b@)) =~= bv.push(bview));
                },
                None => {},
            }
            let mut nb: Vec<Vec<char>> = Vec::new();
            let ghost lv = line@;
            push_line(&mut nb, line);
            assert(views(nb@) =~= seq![lv]);
            cur = Some(nb);
        } else {
            match cur.take() {
                Some(mut b) => {
                    if block_boundary_chars(&line) {
                        let ghost bview = views(b@);
                        blocks.push(b);
                        assert(blocks@.map_values(|b: Vec<Vec<char>>| views(b@)) =~= bv.push(
                            bview,
                        ));
                        push_line(&mut post, line);
                        cur = None;
                    } else {
                        push_line(&mut b, line);
                        cur = Some(b);
                    }
                },
                None => {
                    if !seen {
                        push_line(&mut pre, line);
                    } else {
                        push_line(&mut post, line);
                    }
                },
            }
        }
        i += 1;
    }
    proof {
        lemma_take_all(views(lines@));
    }
    match cur {
        Some(b) => {
            let ghost bv = blocks@.map_values(|b: Vec<Vec<char>>| views(b@));
            let ghost bview = views(b@);
            blocks.push(b);
            assert(blocks@.map_values(|b: Vec<Vec<char>>| views(b@)) =~= bv.push(bview));
        },
        None => {},
    }
    (pre, blocks, post)
}

/// Preamble, `[fail]` blocks and postamble of a raw dump, each line as a
/// `String`.
pub fn split_fail_sections(raw: &str) -> (r: (Vec<String>, Vec<Vec<String>>, Vec<String>))
    ensures
        (string_views(r.0@), r.1@.map_values(|b: Vec<String>| string_views(b@)), string_views(
            r.2@,
        )) == split_sections(crate::text::lines(raw@)),
{
    let ls = crate::text::str_lines(raw);
    let (pre, blocks, post) = split_sections_chars(&ls);
    let mut out_blocks: Vec<Vec<String>> = Vec::new();
    let mut i: usize = 0;
    let ghost bv = blocks@.map_values(|b: Vec<Vec<char>>| views(b@));
    while i < blocks.len()
        invariant
            i <= blocks.len(),
            bv == blocks@.map_values(|b: Vec<Vec<char>>| views(b@)),
            out_blocks@.map_values(|b: Vec<String>| string_views(b@)) == bv.take(i as int),
        decreases blocks.len() - i,
    {
        let ghost prev = out_blocks@.map_values(|b: Vec<String>| string_views(b@));
        let sb = strings_of(&blocks[i]);
        let ghost sv = string_views(sb@);
        out_blocks.push(sb);
        assert(out_blocks@.map_values(|b: Vec<String>| string_views(b@)) =~= prev.push(sv));
        assert(bv.take(i + 1) =~= bv.take(i as int).push(bv[i as int]));
        i += 1;
    }
    assert(bv.take(blocks.len() as int) =~= bv);
    (strings_of(&pre), out_blocks, strings_of(&post))
}

/// What the tee needs to keep the fail headlines past the cap: the full list,
/// its label, and the line at which the hidden ones start.
pub struct TeeTail {
    pub content: String,
    pub label: String,
    pub offset: usize,
}

/// The tee hint line for a written tee file at `path`.
pub open spec fn tail_hint_text(offset: nat, path: Seq<char>) -> Seq<char> {
    "[see remaining: tail -n +"@ + decimal(offset) + " "@ + path + "]"@
}

impl TeeTail {
    /// `[see remaining: tail -n +OFFSET PATH]`.
    pub fn hint(&self, path: &str) -> (r: String)
        ensures
            r@ == tail_hint_text(self.offset as nat, path@),
    {
        let mut out: Vec<char> = Vec::new();
        push_str(&mut out, "[see remaining: tail -n +");
        let d = decimal_chars(self.offset);
        append_chars(&mut out, &d);
        push_str(&mut out, " ");
        push_str(&mut out, path);
        push_str(&mut out, "]");
        string_of(&out)
    }
}

/// Text with the hint placed so far, and whether it was placed.
pub type HintState = (Seq<char>, bool);

/// Each line followed by `\n`; the hint, on a line of its own, right after
/// the first line that mentions `more failing tests`.
pub open spec fn hint_run(ls: Seq<Seq<char>>, hint: Seq<char>) -> HintState
    decreases ls.len(),
{
    if ls.len() == 0 {
        (seq![], false)
    } else {
        let (out, placed) = hint_run(ls.drop_last(), hint);
        let l = ls.last();
        let out2 = out + l + seq!['\n'];
        if !placed && contains(l, "more failing tests"@) {
            (out2 + hint + seq!['\n'], true)
        } else {
            (out2, placed)
        }
    }
}

/// The filtered text with the tee hint placed after the overflow line.
pub open spec fn with_hint(filtered: Seq<char>, hint: Seq<char>) -> Seq<char> {
    hint_run(lines(filtered), hint).0
}

/// Places `hint` (a [`TeeTail::hint`]) on its own line right after the first
/// line of `filtered` that mentions `more failing tests`; every line of
/// `filtered` ends with `\n` in the result.
pub fn insert_overflow_hint(filtered: &str, hint: &str) -> (r: String)
    ensures
        r@ == with_hint(filtered@, hint@),
{
    let ls = split_lines(&chars_of(filtered));
    let h = chars_of(hint);
    let mut out: Vec<char> = Vec::new();
    let mut placed = false;
    let mut i: usize = 0;
    while i < ls.len()
        invariant
            i <= ls.len(),
            h@ == hint@,
            (out@, placed) == hint_run(views(ls@).take(i as int), hint@),
        decreases ls.len() - i,
    {
        proof {
            lemma_take_step(views(ls@), i as int);
        }
        append_chars(&mut out, &ls[i]);
        out.push('\n');
        if !placed && contains_str(&ls[i], "more failing tests") {
            append_chars(&mut out, &h);
            out.push('\n');
            placed = true;
        }
        i += 1;
    }
    proof {
        lemma_take_all(views(ls@));
    }
    string_of(&out)
}

/// Tee request for capped fail headlines. `headlines` is the full list (shown
/// and hidden); the offset is `shown + 1`, so `tail -n +offset` starts at the
/// first hidden headline. `None` when nothing is hidden.
pub fn fail_overflow_tee_hint(headlines: &[&str], shown: usize) -> (r: Option<TeeTail>)
    ensures
        r is None <==> headlines@.len() <= shown,
        r matches Some(t) ==> {
            &&& t.content@ == join_nl(str_views(headlines@))
            &&& t.label@ == "ya-fails"@
            &&& t.offset == shown + 1
        },
{
    let hs = chars_of_all(headlines);
    assert(hs@.len() == views(hs@).len() && headlines@.len() == str_views(headlines@).len());
    fail_overflow_tee_chars(&hs, shown)
}

/// [`fail_overflow_tee_hint`] on headlines held as characters.
pub fn fail_overflow_tee_chars(headlines: &Vec<Vec<char>>, shown: usize) -> (r: Option<TeeTail>)
    ensures
        r is None <==> headlines@.len() <= shown,
        r matches Some(t) ==> {
            &&& t.content@ == join_nl(views(headlines@))
            &&& t.label@ == "ya-fails"@
            &&& t.offset == shown + 1
        },
{
    if headlines.len() <= shown {
        return None;
    }
    let content = join_nl_exec(headlines);
    Some(TeeTail { content: string_of(&content), label: string_of(&chars_of("ya-fails")), offset: shown + 1 })
}


/// Headline of every block, without trailing whitespace.
pub open spec fn block_headlines(bs: Seq<Seq<Seq<char>>>) -> Seq<Seq<char>>
    decreases bs.len(),
{
    if bs.len() == 0 {
        seq![]
    } else if bs.last().len() > 0 {
        block_headlines(bs.drop_last()).push(trim_end(bs.last()[0]))
    } else {
        block_headlines(bs.drop_last())
    }
}

/// Tee request for a whole dump whose `[fail]` blocks exceed the cap: the
/// headlines of all blocks, offset past the [`MAX_FAIL_BLOCKS`] shown ones.
pub fn dump_overflow_tee(raw: &str) -> (r: Option<TeeTail>)
    ensures
        ({
            let bs = split_sections(crate::text::lines(raw@)).1;
            &&& r is None <==> block_headlines(bs).len() <= MAX_FAIL_BLOCKS
            &&& r matches Some(t) ==> {
                &&& t.content@ == join_nl(block_headlines(bs))
                &&& t.label@ == "ya-fails"@
                &&& t.offset == MAX_FAIL_BLOCKS + 1
            }
        }),
{
    let ls = crate::text::str_lines(raw);
    let (_, blocks, _) = split_sections_chars(&ls);
    let ghost bs = blocks@.map_values(|b: Vec<Vec<char>>| views(b@));
    let mut hs: Vec<Vec<char>> = Vec::new();
    let mut i: usize = 0;
    while i < blocks.len()
        invariant
            i <= blocks.len(),
            bs == blocks@.map_values(|b: Vec<Vec<char>>| views(b@)),
            views(hs@) == block_headlines(bs.take(i as int)),
        decreases blocks.len() - i,
    {
        proof {
            lemma_take_step(bs, i as int);
        }
        if blocks[i].len() > 0 {
            push_line(&mut hs, crate::text::trim_end_chars(&blocks[i][0]));
        }
        i += 1;
    }
    proof {
        lemma_take_all(bs);
    }
    assert(hs@.len() == views(hs@).len());
    fail_overflow_tee_chars(&hs, MAX_FAIL_BLOCKS)
}

// ---------------------------------------------------------------- laws

pub open spec fn is_logsdir_line(line: Seq<char>) -> bool {
    starts_with(trim_start(line), "Logsdir:"@)
}

pub open spec fn is_log_line(line: Seq<char>) -> bool {
    starts_with(trim_start(line), "Log:"@)
}

proof fn lemma_block_run_grows(b: Seq<Seq<char>>, k: int)
    requires
        0 <= k <= b.len(),
    ensures
        block_run(b.take(k)).0.len() <= block_run(b).0.len(),
        forall|j: int|
            0 <= j < block_run(b.take(k)).0.len() ==> block_run(b).0[j] == #[trigger] block_run(
                b.take(k),
            ).0[j],
    decreases b.len(),
{
    if k == b.len() {
        assert(b.take(k) =~= b);
    } else {
        lemma_block_run_grows(b.drop_last(), k);
        assert(b.drop_last().take(k) =~= b.take(k));
    }
}

proof fn lemma_block_run_at_most(b: Seq<Seq<char>>)
    ensures
        block_run(b).0.len() <= b.len(),
    decreases b.len(),
{
    if b.len() > 0 {
        lemma_block_run_at_most(b.drop_last());
    }
}

pub proof fn lemma_prefix_literals()
    ensures
        forall|t: Seq<char>| starts_with(t, "Logsdir:"@) ==> !starts_with(t, "Log:"@) && !starts_with(t, "[fail]"@),
        forall|t: Seq<char>| starts_with(t, "Log:"@) ==> !starts_with(t, "[fail]"@),
{
    reveal_strlit("Logsdir:");
    reveal_strlit("Log:");
    reveal_strlit("[fail]");
    assert forall|t: Seq<char>| starts_with(t, "Logsdir:"@) implies !starts_with(t, "Log:"@) && !starts_with(t, "[fail]"@) by {
        assert(t.subrange(0, 8)[3] == 's');
        assert(t[3] == t.subrange(0, 8)[3]);
        assert(t[0] == t.subrange(0, 8)[0]);
        if starts_with(t, "Log:"@) {
            assert(t[3] == t.subrange(0, 4)[3]);
        }
        if starts_with(t, "[fail]"@) {
            assert(t[0] == t.subrange(0, 6)[0]);
        }
    }
    assert forall|t: Seq<char>| starts_with(t, "Log:"@) implies !starts_with(t, "[fail]"@) by {
        assert(t[0] == t.subrange(0, 4)[0]);
        if starts_with(t, "[fail]"@) {
            assert(t[0] == t.subrange(0, 6)[0]);
        }
    }
}

/// The `Logsdir:` flag of the compaction is set once a `Logsdir:` line
/// (after the headline) was read.
proof fn lemma_ldir_flag(b: Seq<Seq<char>>, k: int)
    requires
        0 <= k <= b.len(),
    ensures
        block_run(b.take(k)).5 <==> exists|j: int| 1 <= j < k && is_logsdir_line(#[trigger] b[j]),
        block_run(b.take(k)).4 <==> exists|j: int| 1 <= j < k && is_log_line(#[trigger] b[j]),
    decreases k,
{
    lemma_prefix_literals();
    if k > 0 {
        lemma_ldir_flag(b, k - 1);
        assert(b.take(k).drop_last() =~= b.take(k - 1));
        assert(b.take(k).last() == b[k - 1]);
        if exists|j: int| 1 <= j < k && is_logsdir_line(#[trigger] b[j]) {
            let j = choose|j: int| 1 <= j < k && is_logsdir_line(#[trigger] b[j]);
            if j < k - 1 {
                assert(exists|j: int| 1 <= j < k - 1 && is_logsdir_line(#[trigger] b[j]));
            }
        }
        if exists|j: int| 1 <= j < k && is_log_line(#[trigger] b[j]) {
            let j = choose|j: int| 1 <= j < k && is_log_line(#[trigger] b[j]);
            if j < k - 1 {
                assert(exists|j: int| 1 <= j < k - 1 && is_log_line(#[trigger] b[j]));
            }
        }
    }
}

/// Compaction keeps the `[fail]` headline, slimmed, as its first line, and
/// never returns more lines than the block has.
pub proof fn law_compact_keeps_headline(block: Seq<Seq<char>>)
    requires
        block.len() > 0,
    ensures
        compact_block(block).0.len() > 0,
        compact_block(block).0[0] == slim(block[0], MAX_LINE_CHARS as nat),
        compact_block(block).0.len() <= block.len(),
{
    lemma_block_run_grows(block, 1);
    lemma_block_run_at_most(block);
    assert(block.take(1).drop_last() =~= block.take(0));
    assert(block.take(0) =~= Seq::<Seq<char>>::empty());
    assert(block.take(1).last() == block[0]);
    assert(block_run(block.take(0)).0 =~= Seq::<Seq<char>>::empty());
    assert(block.take(1).len() == 1);
    let first = block_run(block.take(1)).0;
    assert(first =~= seq![slim(block[0], MAX_LINE_CHARS as nat)]);
    assert(block_run(block).0[0] == first[0]);
}

proof fn lemma_pushed_at(block: Seq<Seq<char>>, i: int)
    requires
        1 <= i < block.len(),
        is_logsdir_line(block[i]) || is_log_line(block[i]),
        is_logsdir_line(block[i]) ==> !block_run(block.take(i)).5,
        is_log_line(block[i]) ==> !block_run(block.take(i)).4,
    ensures
        compact_block(block).0.contains(slim(block[i], MAX_LINE_CHARS as nat)),
{
    lemma_prefix_literals();
    lemma_block_run_grows(block, i + 1);
    assert(block.take(i + 1).drop_last() =~= block.take(i));
    assert(block.take(i + 1).last() == block[i]);
    let out = block_run(block.take(i + 1)).0;
    let n = out.len() - 1;
    assert(out[n] == slim(block[i], MAX_LINE_CHARS as nat));
    assert(compact_block(block).0[n] == out[n]);
}

/// Compaction keeps the first `Logsdir:` line of a block (after its
/// headline), slimmed: `Logsdir:` is never stripped.
pub proof fn law_compact_keeps_first_logsdir(block: Seq<Seq<char>>, i: int)
    requires
        1 <= i < block.len(),
        is_logsdir_line(block[i]),
        forall|j: int| 1 <= j < i ==> !is_logsdir_line(#[trigger] block[j]),
    ensures
        compact_block(block).0.contains(slim(block[i], MAX_LINE_CHARS as nat)),
{
    lemma_ldir_flag(block, i);
    lemma_prefix_literals();
    lemma_pushed_at(block, i);
}

/// Compaction keeps the first `Log:` line of a block (after its headline),
/// slimmed.
pub proof fn law_compact_keeps_first_log(block: Seq<Seq<char>>, i: int)
    requires
        1 <= i < block.len(),
        is_log_line(block[i]),
        forall|j: int| 1 <= j < i ==> !is_log_line(#[trigger] block[j]),
    ensures
        compact_block(block).0.contains(slim(block[i], MAX_LINE_CHARS as nat)),
{
    lemma_ldir_flag(block, i);
    lemma_prefix_literals();
    lemma_pushed_at(block, i);
}

pub open spec fn is_fail_headline(line: Seq<char>) -> bool {
    starts_with(trim_start(line), "[fail]"@)
}

/// The first block of a split state (closed or still open).
pub open spec fn first_block(st: SplitState) -> Option<Seq<Seq<char>>> {
    if st.1.len() > 0 {
        Some(st.1[0])
    } else {
        st.3
    }
}

proof fn lemma_split_first_block(ls: Seq<Seq<char>>, i0: int, k: int)
    requires
        0 <= i0 < ls.len(),
        is_fail_headline(ls[i0]),
        forall|j: int| 0 <= j < i0 ==> !is_fail_headline(#[trigger] ls[j]),
        0 <= k <= ls.len(),
    ensures
        k <= i0 ==> split_run(ls.take(k)).1.len() == 0 && split_run(ls.take(k)).3 is None,
        k > i0 ==> (first_block(split_run(ls.take(k))) matches Some(b) && b.len() > 0 && b[0]
            == ls[i0]),
        split_run(ls.take(k)).3 matches Some(b) ==> b.len() > 0,
    decreases k,
{
    if k > 0 {
        lemma_split_first_block(ls, i0, k - 1);
        assert(ls.take(k).drop_last() =~= ls.take(k - 1));
        assert(ls.take(k).last() == ls[k - 1]);
    } else {
        assert(ls.take(0) =~= Seq::<Seq<char>>::empty());
    }
}

/// The sections of a dump with a `[fail]` line: at least one block, and the
/// first block starts with the first `[fail]` line.
pub proof fn law_split_first_headline(ls: Seq<Seq<char>>, i0: int)
    requires
        0 <= i0 < ls.len(),
        is_fail_headline(ls[i0]),
        forall|j: int| 0 <= j < i0 ==> !is_fail_headline(#[trigger] ls[j]),
    ensures
        split_sections(ls).1.len() > 0,
        split_sections(ls).1[0].len() > 0,
        split_sections(ls).1[0][0] == ls[i0],
{
    lemma_split_first_block(ls, i0, ls.len() as int);
    assert(ls.take(ls.len() as int) =~= ls);
}

/// A body line that reaches the location / error-head rules of the
/// compaction (no headline, `Log:`, `Logsdir:` or assertion dump).
pub open spec fn plain_body_line(line: Seq<char>) -> bool {
    let t = trim_start(line);
    !starts_with(t, "[fail]"@) && !starts_with(t, "Log:"@) && !starts_with(t, "Logsdir:"@)
        && !assertion_dump(t)
}

proof fn lemma_loc_err_flags(b: Seq<Seq<char>>, k: int)
    requires
        0 <= k <= b.len(),
    ensures
        block_run(b.take(k)).2 ==> exists|j: int|
            1 <= j < k && plain_body_line(#[trigger] b[j]) && location_line(trim_start(b[j])),
        block_run(b.take(k)).3 ==> exists|j: int|
            1 <= j < k && plain_body_line(#[trigger] b[j]) && (error_head(trim_start(b[j])) || (
            location_line(trim_start(b[j])) && inline_error(trim_start(b[j])))),
    decreases k,
{
    if k > 0 {
        lemma_loc_err_flags(b, k - 1);
        assert(b.take(k).drop_last() =~= b.take(k - 1));
        assert(b.take(k).last() == b[k - 1]);
    }
}

/// Compaction keeps the first location line of a block (slimmed).
pub proof fn law_compact_keeps_first_location(block: Seq<Seq<char>>, i: int)
    requires
        1 <= i < block.len(),
        plain_body_line(block[i]),
        location_line(trim_start(block[i])),
        forall|j: int|
            1 <= j < i ==> !(plain_body_line(#[trigger] block[j]) && location_line(
                trim_start(block[j]),
            )),
    ensures
        compact_block(block).0.contains(slim(block[i], MAX_LINE_CHARS as nat)),
{
    lemma_loc_err_flags(block, i);
    lemma_block_run_grows(block, i + 1);
    assert(block.take(i + 1).drop_last() =~= block.take(i));
    assert(block.take(i + 1).last() == block[i]);
    let out = block_run(block.take(i + 1)).0;
    let n = out.len() - 1;
    assert(out[n] == slim(block[i], MAX_LINE_CHARS as nat));
    assert(compact_block(block).0[n] == out[n]);
}

/// Compaction keeps the first error head of a block (slimmed), unless a
/// location line before it already carried the error.
pub proof fn law_compact_keeps_first_error_head(block: Seq<Seq<char>>, i: int)
    requires
        1 <= i < block.len(),
        plain_body_line(block[i]),
        error_head(trim_start(block[i])),
        !location_line(trim_start(block[i])),
        forall|j: int|
            1 <= j < i ==> !(plain_body_line(#[trigger] block[j]) && (error_head(
                trim_start(block[j]),
            ) || (location_line(trim_start(block[j])) && inline_error(trim_start(block[j]))))),
    ensures
        compact_block(block).0.contains(slim(block[i], MAX_LINE_CHARS as nat)),
{
    lemma_loc_err_flags(block, i);
    lemma_block_run_grows(block, i + 1);
    assert(block.take(i + 1).drop_last() =~= block.take(i));
    assert(block.take(i + 1).last() == block[i]);
    let out = block_run(block.take(i + 1)).0;
    let n = out.len() - 1;
    assert(out[n] == slim(block[i], MAX_LINE_CHARS as nat));
    assert(compact_block(block).0[n] == out[n]);
}

/// Which body lines are error heads, by their text: a line (without its
/// indentation) that starts with `Error:`, `error:` or `AssertionError`, or
/// with `E ` / `E\t` without being an `Expected:` / `but:` dump line.
pub proof fn law_error_head_prefixes(t: Seq<char>)
    ensures
        starts_with(t, "Error:"@) || starts_with(t, "error:"@) || starts_with(t, "AssertionError"@)
            ==> error_head(t),
        (starts_with(t, "E "@) || starts_with(t, "E\t"@)) && !assertion_dump(t) ==> error_head(t),
{
    reveal_strlit("Error:");
    reveal_strlit("error:");
    reveal_strlit("AssertionError");
    reveal_strlit("E   Expected:");
    reveal_strlit("E        but:");
    if starts_with(t, "Error:"@) || starts_with(t, "error:"@) || starts_with(t, "AssertionError"@) {
        assert(t[0] != 'E' || t[1] != ' ') by {
            if starts_with(t, "Error:"@) {
                assert(t.subrange(0, 6)[1] == t[1]);
            } else if starts_with(t, "error:"@) {
                assert(t.subrange(0, 6)[0] == t[0]);
            } else {
                assert(t.subrange(0, 14)[0] == t[0]);
            }
        }
        assert(!starts_with(t, "E   Expected:"@)) by {
            if starts_with(t, "E   Expected:"@) {
                assert(t.subrange(0, 13)[1] == t[1]);
                assert(t.subrange(0, 13)[0] == t[0]);
            }
        }
        assert(!starts_with(t, "E        but:"@)) by {
            if starts_with(t, "E        but:"@) {
                assert(t.subrange(0, 13)[1] == t[1]);
                assert(t.subrange(0, 13)[0] == t[0]);
            }
        }
    }
}

/// A body line whose text starts with `Error:` (Go testify), `error:`,
/// `AssertionError` or `E ` (pytest), and that no earlier body line preempts
/// as error head, is kept by compaction (cut to [`MAX_LINE_CHARS`]).
pub proof fn law_compact_keeps_error_line(block: Seq<Seq<char>>, i: int)
    requires
        1 <= i < block.len(),
        ({
            let t = trim_start(block[i]);
            &&& starts_with(t, "Error:"@) || starts_with(t, "error:"@) || starts_with(
                t,
                "AssertionError"@,
            ) || starts_with(t, "E "@) || starts_with(t, "E\t"@)
            &&& !assertion_dump(t)
            &&& !location_line(t)
        }),
        forall|j: int|
            1 <= j < i ==> !(plain_body_line(#[trigger] block[j]) && (error_head(
                trim_start(block[j]),
            ) || (location_line(trim_start(block[j])) && inline_error(trim_start(block[j]))))),
    ensures
        compact_block(block).0.contains(slim(block[i], MAX_LINE_CHARS as nat)),
{
    let t = trim_start(block[i]);
    law_error_head_prefixes(t);
    reveal_strlit("[fail]");
    reveal_strlit("Log:");
    reveal_strlit("Logsdir:");
    reveal_strlit("Error:");
    reveal_strlit("error:");
    reveal_strlit("AssertionError");
    reveal_strlit("E ");
    reveal_strlit("E\t");
    assert(t[0] == 'E' || t[0] == 'e' || t[0] == 'A') by {
        if starts_with(t, "Error:"@) {
            assert(t.subrange(0, 6)[0] == t[0]);
        } else if starts_with(t, "error:"@) {
            assert(t.subrange(0, 6)[0] == t[0]);
        } else if starts_with(t, "AssertionError"@) {
            assert(t.subrange(0, 14)[0] == t[0]);
        } else if starts_with(t, "E "@) {
            assert(t.subrange(0, 2)[0] == t[0]);
        } else {
            assert(t.subrange(0, 2)[0] == t[0]);
        }
    }
    assert(!starts_with(t, "[fail]"@)) by {
        if starts_with(t, "[fail]"@) {
            assert(t.subrange(0, 6)[0] == t[0]);
        }
    }
    assert(!starts_with(t, "Log:"@)) by {
        if starts_with(t, "Log:"@) {
            assert(t.subrange(0, 4)[0] == t[0]);
        }
    }
    assert(!starts_with(t, "Logsdir:"@)) by {
        if starts_with(t, "Logsdir:"@) {
            assert(t.subrange(0, 8)[0] == t[0]);
        }
    }
    law_compact_keeps_first_error_head(block, i);
}

proof fn lemma_dump_prefixes(t: Seq<char>)
    ensures
        assertion_dump(t) ==> !starts_with(t, "[fail]"@) && !starts_with(t, "Log:"@)
            && !starts_with(t, "Logsdir:"@),
{
    reveal_strlit("E   Expected:");
    reveal_strlit("E        but:");
    reveal_strlit("E   But:");
    reveal_strlit("[fail]");
    reveal_strlit("Log:");
    reveal_strlit("Logsdir:");
    if assertion_dump(t) {
        if starts_with(t, "E   Expected:"@) {
            assert(t[0] == t.subrange(0, 13)[0]);
        } else if starts_with(t, "E        but:"@) {
            assert(t[0] == t.subrange(0, 13)[0]);
        } else {
            assert(t[0] == t.subrange(0, 8)[0]);
        }
        if starts_with(t, "[fail]"@) {
            assert(t[0] == t.subrange(0, 6)[0]);
        }
        if starts_with(t, "Log:"@) {
            assert(t[0] == t.subrange(0, 4)[0]);
        }
        if starts_with(t, "Logsdir:"@) {
            assert(t[0] == t.subrange(0, 8)[0]);
        }
    }
}

/// Compaction only keeps lines of the block: each kept line is a line of the
/// block cut to [`MAX_LINE_CHARS`] (the headline, or a line that is not part
/// of an assertion dump).
pub proof fn law_compact_lines_from_block(block: Seq<Seq<char>>, k: int)
    requires
        0 <= k < compact_block(block).0.len(),
    ensures
        exists|i: int|
            0 <= i < block.len() && #[trigger] compact_block(block).0[k] == slim(
                block[i],
                MAX_LINE_CHARS as nat,
            ) && (i == 0 || !assertion_dump(trim_start(block[i]))),
{
    lemma_block_run_sources(block);
}

pub(crate) proof fn lemma_block_run_sources(b: Seq<Seq<char>>)
    ensures
        forall|k: int|
            0 <= k < block_run(b).0.len() ==> exists|i: int|
                0 <= i < b.len() && #[trigger] block_run(b).0[k] == slim(b[i], MAX_LINE_CHARS as nat)
                    && (i == 0 || !assertion_dump(trim_start(b[i]))),
    decreases b.len(),
{
    if b.len() > 0 {
        let prev = b.drop_last();
        lemma_block_run_sources(prev);
        let o0 = block_run(prev).0;
        let o1 = block_run(b).0;
        assert forall|k: int| 0 <= k < o1.len() implies exists|i: int|
            0 <= i < b.len() && #[trigger] o1[k] == slim(b[i], MAX_LINE_CHARS as nat) && (i == 0
                || !assertion_dump(trim_start(b[i]))) by {
            if k < o0.len() {
                assert(o1[k] == o0[k]);
                let i = choose|i: int|
                    0 <= i < prev.len() && #[trigger] o0[k] == slim(prev[i], MAX_LINE_CHARS as nat)
                        && (i == 0 || !assertion_dump(trim_start(prev[i])));
                assert(prev[i] == b[i]);
            } else {
                let t = trim_start(b.last());
                lemma_dump_prefixes(t);
                assert(o1[k] == slim(b[b.len() - 1], MAX_LINE_CHARS as nat));
                assert(b.len() - 1 == 0 || !assertion_dump(trim_start(b[b.len() - 1])));
            }
        }
    }
}

/// Every line the compaction keeps is a block line, slimmed: the headline,
/// or a line that is no `Expected:` / `but:` dump (those are always dropped).
pub proof fn law_compact_drops_dumps(block: Seq<Seq<char>>)
    ensures
        forall|k: int|
            0 <= k < compact_block(block).0.len() ==> exists|i: int|
                0 <= i < block.len() && #[trigger] compact_block(block).0[k] == slim(
                    block[i],
                    MAX_LINE_CHARS as nat,
                ) && (i == 0 || !assertion_dump(trim_start(block[i]))),
{
    lemma_block_run_sources(block);
}

} // verus!
