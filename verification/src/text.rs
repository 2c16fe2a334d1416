//! Character-level text model: every string is viewed as a `Seq<char>`.
//!
//! Lines follow `str::lines`: split at `\n`, a `\r` right before the `\n` is
//! dropped, and a final line ending adds no empty line.

use vstd::prelude::*;

verus! {

/// Unicode `White_Space`, the set that `char::is_whitespace` and the `trim*`
/// family of `str` methods use.
pub open spec fn is_ws(c: char) -> bool {
    let u = c as u32;
    (9 <= u && u <= 13) || u == 32 || u == 0x85 || u == 0xa0 || u == 0x1680 || (0x2000 <= u
        && u <= 0x200a) || u == 0x2028 || u == 0x2029 || u == 0x202f || u == 0x205f || u
        == 0x3000
}

pub open spec fn is_digit(c: char) -> bool {
    '0' <= c && c <= '9'
}

pub open spec fn is_ascii_alpha(c: char) -> bool {
    ('a' <= c && c <= 'z') || ('A' <= c && c <= 'Z')
}

/// `s` with its leading whitespace removed (`str::trim_start`).
pub open spec fn trim_start(s: Seq<char>) -> Seq<char>
    decreases s.len(),
{
    if s.len() > 0 && is_ws(s[0]) {
        trim_start(s.drop_first())
    } else {
        s
    }
}

/// `s` with its trailing whitespace removed (`str::trim_end`).
pub open spec fn trim_end(s: Seq<char>) -> Seq<char>
    decreases s.len(),
{
    if s.len() > 0 && is_ws(s.last()) {
        trim_end(s.drop_last())
    } else {
        s
    }
}

/// `str::trim`.
pub open spec fn trim(s: Seq<char>) -> Seq<char> {
    trim_end(trim_start(s))
}

/// `p` occurs in `s` at index `i`.
pub open spec fn occurs_at(s: Seq<char>, p: Seq<char>, i: int) -> bool {
    0 <= i && i + p.len() <= s.len() && s.subrange(i, i + p.len()) == p
}

pub open spec fn starts_with(s: Seq<char>, p: Seq<char>) -> bool {
    occurs_at(s, p, 0)
}

pub open spec fn ends_with(s: Seq<char>, p: Seq<char>) -> bool {
    occurs_at(s, p, s.len() - p.len())
}

pub open spec fn contains(s: Seq<char>, p: Seq<char>) -> bool {
    exists|i: int| occurs_at(s, p, i)
}

/// Index of the first occurrence of `p` in `s` (`str::find`).
pub open spec fn find(s: Seq<char>, p: Seq<char>) -> Option<int> {
    if contains(s, p) {
        Some(
            choose|i: int|
                occurs_at(s, p, i) && forall|j: int| 0 <= j < i ==> !#[trigger] occurs_at(s, p, j),
        )
    } else {
        None
    }
}

pub open spec fn strip_cr(l: Seq<char>) -> Seq<char> {
    if l.len() > 0 && l.last() == '\r' {
        l.drop_last()
    } else {
        l
    }
}

/// Finished lines and the line being read, after reading `s`.
pub open spec fn line_state(s: Seq<char>) -> (Seq<Seq<char>>, Seq<char>)
    decreases s.len(),
{
    if s.len() == 0 {
        (seq![], seq![])
    } else {
        let (done, cur) = line_state(s.drop_last());
        if s.last() == '\n' {
            (done.push(strip_cr(cur)), seq![])
        } else {
            (done, cur.push(s.last()))
        }
    }
}

/// `str::lines`.
pub open spec fn lines(s: Seq<char>) -> Seq<Seq<char>> {
    let (done, cur) = line_state(s);
    if cur.len() > 0 {
        done.push(cur)
    } else {
        done
    }
}

/// `ls` joined with `sep` between neighbours (`[T]::join`).
pub open spec fn join(ls: Seq<Seq<char>>, sep: Seq<char>) -> Seq<char>
    decreases ls.len(),
{
    if ls.len() == 0 {
        seq![]
    } else if ls.len() == 1 {
        ls[0]
    } else {
        join(ls.drop_last(), sep) + sep + ls.last()
    }
}

/// Lines joined by `\n`.
pub open spec fn join_nl(ls: Seq<Seq<char>>) -> Seq<char> {
    join(ls, seq!['\n'])
}

/// Decimal digits of `n` (as `usize`'s `Display` writes them).
pub open spec fn decimal(n: nat) -> Seq<char>
    decreases n,
{
    if n < 10 {
        seq![((n + 48) as u32) as char]
    } else {
        decimal(n / 10).push((((n % 10) + 48) as u32) as char)
    }
}

/// The character views of a vector of lines.
pub open spec fn views(v: Seq<Vec<char>>) -> Seq<Seq<char>> {
    v.map_values(|x: Vec<char>| x@)
}

/// `line` without trailing whitespace, cut to at most `max` characters, the
/// last one then being `…`.
pub open spec fn slim(line: Seq<char>, max: nat) -> Seq<char> {
    let t = trim_end(line);
    if t.len() <= max {
        t
    } else {
        t.take(max - 1).push('…')
    }
}

/// The character views of a sequence of `&str`.
pub open spec fn str_views(v: Seq<&str>) -> Seq<Seq<char>> {
    v.map_values(|x: &str| x@)
}

/// The character views of a sequence of `String`.
pub open spec fn string_views(v: Seq<String>) -> Seq<Seq<char>> {
    v.map_values(|x: String| x@)
}

pub proof fn lemma_take_step<A>(s: Seq<A>, i: int)
    requires
        0 <= i < s.len(),
    ensures
        s.take(i + 1).drop_last() == s.take(i),
        s.take(i + 1).last() == s[i],
        s.take(i + 1).len() == i + 1,
{
    assert(s.take(i + 1).drop_last() =~= s.take(i));
}

pub proof fn lemma_take_all<A>(s: Seq<A>)
    ensures
        s.take(s.len() as int) == s,
{
    assert(s.take(s.len() as int) =~= s);
}

// ---------------------------------------------------------------- exec

/// `String::push`.
#[verifier::external_body]
pub(crate) fn string_push_char(s: &mut String, c: char)
    ensures
        final(s)@ == old(s)@.push(c),
{
    s.push(c);
}

pub fn is_whitespace(c: char) -> (r: bool)
    ensures
        r == is_ws(c),
{
    let u = c as u32;
    (9 <= u && u <= 13) || u == 32 || u == 0x85 || u == 0xa0 || u == 0x1680 || (0x2000 <= u
        && u <= 0x200a) || u == 0x2028 || u == 0x2029 || u == 0x202f || u == 0x205f || u
        == 0x3000
}

/// The characters of `s`, in order.
pub fn chars_of(s: &str) -> (r: Vec<char>)
    ensures
        r@ == s@,
{
    let mut r: Vec<char> = Vec::new();
    for c in it: s.chars()
        invariant
            r@ == it.seq().take(it.index() as int),
    {
        r.push(c);
    }
    r
}

/// A `String` holding exactly the characters of `v`.
pub fn string_of(v: &Vec<char>) -> (r: String)
    ensures
        r@ == v@,
{
    let mut r = String::new();
    let mut i: usize = 0;
    while i < v.len()
        invariant
            i <= v.len(),
            r@ == v@.take(i as int),
        decreases v.len() - i,
    {
        string_push_char(&mut r, v[i]);
        assert(v@.take(i + 1) == v@.take(i as int).push(v@[i as int]));
        i += 1;
    }
    assert(v@.take(v.len() as int) == v@);
    r
}

pub fn copy_chars(v: &Vec<char>) -> (r: Vec<char>)
    ensures
        r@ == v@,
{
    let mut r: Vec<char> = Vec::new();
    let mut i: usize = 0;
    while i < v.len()
        invariant
            i <= v.len(),
            r@ == v@.take(i as int),
        decreases v.len() - i,
    {
        r.push(v[i]);
        assert(v@.take(i + 1) == v@.take(i as int).push(v@[i as int]));
        i += 1;
    }
    assert(v@.take(v.len() as int) == v@);
    r
}

/// Characters `from..to` of `v`.
pub fn slice_chars(v: &Vec<char>, from: usize, to: usize) -> (r: Vec<char>)
    requires
        from <= to <= v.len(),
    ensures
        r@ == v@.subrange(from as int, to as int),
{
    let mut r: Vec<char> = Vec::new();
    let mut i: usize = from;
    while i < to
        invariant
            from <= i <= to <= v.len(),
            r@ == v@.subrange(from as int, i as int),
        decreases to - i,
    {
        r.push(v[i]);
        assert(v@.subrange(from as int, i + 1) == v@.subrange(from as int, i as int).push(
            v@[i as int],
        ));
        i += 1;
    }
    r
}

/// Appends the characters of `v` to `out`.
pub fn append_chars(out: &mut Vec<char>, v: &Vec<char>)
    ensures
        final(out)@ == old(out)@ + v@,
{
    let mut i: usize = 0;
    while i < v.len()
        invariant
            i <= v.len(),
            out@ == old(out)@ + v@.take(i as int),
        decreases v.len() - i,
    {
        out.push(v[i]);
        assert(v@.take(i + 1) == v@.take(i as int).push(v@[i as int]));
        i += 1;
    }
    assert(v@.take(v.len() as int) == v@);
}

/// Appends the characters of `p` to `out`.
pub fn push_str(out: &mut Vec<char>, p: &str)
    ensures
        final(out)@ == old(out)@ + p@,
{
    let pc = chars_of(p);
    append_chars(out, &pc);
}

/// `a@ == b@`.
pub fn chars_eq(a: &Vec<char>, b: &Vec<char>) -> (r: bool)
    ensures
        r == (a@ == b@),
{
    if a.len() != b.len() {
        return false;
    }
    let mut i: usize = 0;
    while i < a.len()
        invariant
            a.len() == b.len(),
            i <= a.len(),
            forall|j: int| 0 <= j < i ==> a@[j] == b@[j],
        decreases a.len() - i,
    {
        if a[i] != b[i] {
            return false;
        }
        i += 1;
    }
    assert(a@ =~= b@);
    true
}

pub fn eq_str(a: &Vec<char>, p: &str) -> (r: bool)
    ensures
        r == (a@ == p@),
{
    let pc = chars_of(p);
    chars_eq(a, &pc)
}

/// Whether `p` occurs in `s` at `i`.
pub fn occurs_at_exec(s: &Vec<char>, p: &Vec<char>, i: usize) -> (r: bool)
    ensures
        r == occurs_at(s@, p@, i as int),
{
    if i > s.len() || p.len() > s.len() - i {
        return false;
    }
    let mut k: usize = 0;
    while k < p.len()
        invariant
            i + p.len() <= s.len(),
            k <= p.len(),
            forall|j: int| 0 <= j < k ==> s@[i + j] == p@[j],
        decreases p.len() - k,
    {
        if s[i + k] != p[k] {
            assert(s@.subrange(i as int, i + p.len())[k as int] != p@[k as int]);
            return false;
        }
        k += 1;
    }
    assert(s@.subrange(i as int, i + p.len()) =~= p@);
    true
}

pub fn starts_with_str(s: &Vec<char>, p: &str) -> (r: bool)
    ensures
        r == starts_with(s@, p@),
{
    let pc = chars_of(p);
    occurs_at_exec(s, &pc, 0)
}

pub fn ends_with_str(s: &Vec<char>, p: &str) -> (r: bool)
    ensures
        r == ends_with(s@, p@),
{
    let pc = chars_of(p);
    if pc.len() > s.len() {
        return false;
    }
    occurs_at_exec(s, &pc, s.len() - pc.len())
}

/// First index at which `p` occurs in `s`.
pub fn find_chars(s: &Vec<char>, p: &Vec<char>) -> (r: Option<usize>)
    ensures
        match r {
            Some(i) => find(s@, p@) == Some(i as int),
            None => find(s@, p@) is None,
        },
{
    if p.len() > s.len() {
        assert(!contains(s@, p@));
        return None;
    }
    let limit = s.len() - p.len();
    let mut i: usize = 0;
    loop
        invariant
            p.len() <= s.len(),
            limit == s.len() - p.len(),
            i <= limit,
            forall|j: int| 0 <= j < i ==> !#[trigger] occurs_at(s@, p@, j),
        decreases limit - i,
    {
        if occurs_at_exec(s, p, i) {
            assert(contains(s@, p@));
            proof {
                lemma_min_occurrence(s@, p@, i as int);
                let k = choose|k: int|
                    occurs_at(s@, p@, k) && forall|j: int| 0 <= j < k ==> !#[trigger] occurs_at(s@, p@, j);
                assert(occurs_at(s@, p@, k));
                assert(k == i as int) by {
                    if k < i {
                    } else if k > i {
                        assert(!occurs_at(s@, p@, i as int));
                    }
                }
            }
            return Some(i);
        }
        if i == limit {
            assert forall|j: int| !occurs_at(s@, p@, j) by {
                if 0 <= j <= i {
                }
            }
            return None;
        }
        i += 1;
    }
}

pub fn find_str(s: &Vec<char>, p: &str) -> (r: Option<usize>)
    ensures
        match r {
            Some(i) => find(s@, p@) == Some(i as int),
            None => find(s@, p@) is None,
        },
{
    let pc = chars_of(p);
    find_chars(s, &pc)
}

pub proof fn lemma_min_occurrence(s: Seq<char>, p: Seq<char>, i: int)
    requires
        occurs_at(s, p, i),
    ensures
        exists|k: int| occurs_at(s, p, k) && forall|j: int| 0 <= j < k ==> !#[trigger] occurs_at(s, p, j),
    decreases i,
{
    if exists|j: int| 0 <= j < i && occurs_at(s, p, j) {
        let j = choose|j: int| 0 <= j < i && occurs_at(s, p, j);
        lemma_min_occurrence(s, p, j);
    } else {
        assert(forall|j: int| 0 <= j < i ==> !#[trigger] occurs_at(s, p, j));
    }
}

pub proof fn lemma_find_facts(s: Seq<char>, p: Seq<char>)
    ensures
        find(s, p) is Some <==> contains(s, p),
        find(s, p) matches Some(i) ==> occurs_at(s, p, i) && forall|j: int|
            0 <= j < i ==> !#[trigger] occurs_at(s, p, j),
{
    if contains(s, p) {
        let i = choose|i: int| occurs_at(s, p, i);
        lemma_min_occurrence(s, p, i);
    }
}

pub fn contains_str(s: &Vec<char>, p: &str) -> (r: bool)
    ensures
        r == contains(s@, p@),
{
    let pc = chars_of(p);
    let f = find_chars(s, &pc);
    proof {
        lemma_find_facts(s@, pc@);
    }
    f.is_some()
}

pub fn contains_char(s: &Vec<char>, c: char) -> (r: bool)
    ensures
        r == contains(s@, seq![c]),
{
    let mut i: usize = 0;
    while i < s.len()
        invariant
            i <= s.len(),
            forall|j: int| 0 <= j < i ==> s@[j] != c,
        decreases s.len() - i,
    {
        if s[i] == c {
            assert(occurs_at(s@, seq![c], i as int)) by {
                assert(s@.subrange(i as int, i + 1) =~= seq![c]);
            }
            return true;
        }
        i += 1;
    }
    assert forall|j: int| !occurs_at(s@, seq![c], j) by {
        if occurs_at(s@, seq![c], j) {
            assert(s@.subrange(j, j + 1)[0] == c);
        }
    }
    false
}

/// `trim_start(s)` is a tail of `s`.
pub proof fn lemma_trim_start_tail(s: Seq<char>)
    ensures
        trim_start(s).len() <= s.len(),
        s.skip(s.len() - trim_start(s).len()) == trim_start(s),
    decreases s.len(),
{
    if s.len() > 0 && is_ws(s[0]) {
        lemma_trim_start_tail(s.drop_first());
        assert(s.skip(s.len() - trim_start(s).len()) =~= s.drop_first().skip(
            s.drop_first().len() - trim_start(s.drop_first()).len(),
        ));
    } else {
        assert(s.skip(0) =~= s);
    }
}

pub proof fn lemma_contains_append(a: Seq<char>, b: Seq<char>, p: Seq<char>)
    ensures
        contains(a, p) ==> contains(a + b, p),
        contains(b, p) ==> contains(a + b, p),
{
    if contains(a, p) {
        let i = choose|i: int| occurs_at(a, p, i);
        assert((a + b).subrange(i, i + p.len()) =~= a.subrange(i, i + p.len()));
        assert(occurs_at(a + b, p, i));
    }
    if contains(b, p) {
        let i = choose|i: int| occurs_at(b, p, i);
        assert((a + b).subrange(a.len() + i, a.len() + i + p.len()) =~= b.subrange(i, i + p.len()));
        assert(occurs_at(a + b, p, a.len() + i));
    }
}

/// A line followed by anything holds the line without its leading whitespace.
pub proof fn lemma_contains_trimmed(l: Seq<char>, rest: Seq<char>)
    ensures
        contains(l + rest, trim_start(l)),
{
    lemma_trim_start_tail(l);
    let k = l.len() - trim_start(l).len();
    assert((l + rest).subrange(k, k + trim_start(l).len()) =~= l.skip(k));
    assert(occurs_at(l + rest, trim_start(l), k));
}

pub proof fn lemma_trim_start_skip(s: Seq<char>, i: int)
    requires
        0 <= i <= s.len(),
        forall|j: int| 0 <= j < i ==> is_ws(s[j]),
    ensures
        trim_start(s) == trim_start(s.skip(i)),
    decreases i,
{
    if i > 0 {
        lemma_trim_start_skip(s, i - 1);
        assert(s.skip(i - 1).drop_first() =~= s.skip(i));
    } else {
        assert(s.skip(0) =~= s);
    }
}

pub proof fn lemma_trim_end_take(s: Seq<char>, i: int)
    requires
        0 <= i <= s.len(),
        forall|j: int| i <= j < s.len() ==> is_ws(s[j]),
    ensures
        trim_end(s) == trim_end(s.take(i)),
    decreases s.len() - i,
{
    if i < s.len() {
        lemma_trim_end_take(s, i + 1);
        assert(s.take(i + 1).drop_last() =~= s.take(i));
    } else {
        assert(s.take(i) =~= s);
    }
}

/// `str::trim_start`.
pub fn trim_start_chars(s: &Vec<char>) -> (r: Vec<char>)
    ensures
        r@ == trim_start(s@),
{
    let mut i: usize = 0;
    while i < s.len() && is_whitespace(s[i])
        invariant
            i <= s.len(),
            forall|j: int| 0 <= j < i ==> is_ws(s@[j]),
        decreases s.len() - i,
    {
        i += 1;
    }
    proof {
        lemma_trim_start_skip(s@, i as int);
    }
    slice_chars(s, i, s.len())
}

/// `str::trim_end`.
pub fn trim_end_chars(s: &Vec<char>) -> (r: Vec<char>)
    ensures
        r@ == trim_end(s@),
{
    let mut i: usize = s.len();
    while i > 0 && is_whitespace(s[i - 1])
        invariant
            i <= s.len(),
            forall|j: int| i <= j < s.len() ==> is_ws(s@[j]),
        decreases i,
    {
        i -= 1;
    }
    proof {
        lemma_trim_end_take(s@, i as int);
    }
    assert(s@.take(i as int) =~= s@.subrange(0, i as int));
    slice_chars(s, 0, i)
}

/// `str::trim`.
pub fn trim_chars(s: &Vec<char>) -> (r: Vec<char>)
    ensures
        r@ == trim(s@),
{
    let a = trim_start_chars(s);
    trim_end_chars(&a)
}

/// `str::lines`.
pub fn split_lines(s: &Vec<char>) -> (r: Vec<Vec<char>>)
    ensures
        views(r@) == lines(s@),
{
    let mut done: Vec<Vec<char>> = Vec::new();
    let mut cur: Vec<char> = Vec::new();
    let mut i: usize = 0;
    while i < s.len()
        invariant
            i <= s.len(),
            (views(done@), cur@) == line_state(s@.take(i as int)),
        decreases s.len() - i,
    {
        assert(s@.take(i + 1).drop_last() =~= s@.take(i as int));
        let c = s[i];
        if c == '\n' {
            let ghost old_done = views(done@);
            if cur.len() > 0 && cur[cur.len() - 1] == '\r' {
                cur.pop();
            }
            done.push(cur);
            assert(views(done@) =~= old_done.push(cur@));
            cur = Vec::new();
        } else {
            cur.push(c);
        }
        i += 1;
    }
    assert(s@.take(s.len() as int) =~= s@);
    if cur.len() > 0 {
        let ghost old_done = views(done@);
        done.push(cur);
        assert(views(done@) =~= old_done.push(cur@));
    }
    done
}

/// `str::lines` of a `&str`.
pub fn str_lines(s: &str) -> (r: Vec<Vec<char>>)
    ensures
        views(r@) == lines(s@),
{
    let c = chars_of(s);
    split_lines(&c)
}

/// Decimal text of `n`.
pub fn decimal_chars(n: usize) -> (r: Vec<char>)
    ensures
        r@ == decimal(n as nat),
    decreases n,
{
    if n < 10 {
        let c = char_of_digit(n as u8);
        let mut r = Vec::new();
        r.push(c);
        r
    } else {
        let mut r = decimal_chars(n / 10);
        let c = char_of_digit((n % 10) as u8);
        r.push(c);
        r
    }
}

fn char_of_digit(d: u8) -> (c: char)
    requires
        d < 10,
    ensures
        c == ((d + 48) as u32) as char,
{
    match d {
        0 => '0',
        1 => '1',
        2 => '2',
        3 => '3',
        4 => '4',
        5 => '5',
        6 => '6',
        7 => '7',
        8 => '8',
        _ => '9',
    }
}

/// Lines joined by `\n`.
pub fn join_nl_exec(ls: &Vec<Vec<char>>) -> (r: Vec<char>)
    ensures
        r@ == join_nl(views(ls@)),
{
    let mut r: Vec<char> = Vec::new();
    let mut i: usize = 0;
    while i < ls.len()
        invariant
            i <= ls.len(),
            r@ == join_nl(views(ls@).take(i as int)),
        decreases ls.len() - i,
    {
        let ghost prev = views(ls@).take(i as int);
        assert(views(ls@).take(i + 1).drop_last() =~= prev);
        if i > 0 {
            r.push('\n');
        } else {
            assert(views(ls@).take(1) =~= seq![ls@[0]@]);
        }
        append_chars(&mut r, &ls[i]);
        i += 1;
    }
    assert(views(ls@).take(ls.len() as int) =~= views(ls@));
    r
}

} // verus!

verus! {

/// [`slim`] as code.
pub fn slim_chars(line: &Vec<char>, max: usize) -> (r: Vec<char>)
    requires
        max >= 1,
    ensures
        r@ == slim(line@, max as nat),
{
    let t = trim_end_chars(line);
    if t.len() <= max {
        t
    } else {
        let mut r = slice_chars(&t, 0, max - 1);
        r.push('…');
        r
    }
}

/// The characters of each `&str`.
pub fn chars_of_all(v: &[&str]) -> (r: Vec<Vec<char>>)
    ensures
        views(r@) == str_views(v@),
{
    let mut r: Vec<Vec<char>> = Vec::new();
    let mut i: usize = 0;
    while i < v.len()
        invariant
            i <= v.len(),
            views(r@) == str_views(v@).take(i as int),
        decreases v.len() - i,
    {
        let c = chars_of(v[i]);
        let ghost prev = views(r@);
        r.push(c);
        assert(views(r@) =~= prev.push(c@));
        assert(str_views(v@).take(i + 1) =~= str_views(v@).take(i as int).push(v@[i as int]@));
        i += 1;
    }
    assert(str_views(v@).take(v.len() as int) =~= str_views(v@));
    r
}

/// A `String` for each line.
pub fn strings_of(v: &Vec<Vec<char>>) -> (r: Vec<String>)
    ensures
        string_views(r@) == views(v@),
{
    let mut r: Vec<String> = Vec::new();
    let mut i: usize = 0;
    while i < v.len()
        invariant
            i <= v.len(),
            string_views(r@) == views(v@).take(i as int),
        decreases v.len() - i,
    {
        let s = string_of(&v[i]);
        let ghost prev = string_views(r@);
        r.push(s);
        assert(string_views(r@) =~= prev.push(s@));
        assert(views(v@).take(i + 1) =~= views(v@).take(i as int).push(v@[i as int]@));
        i += 1;
    }
    assert(views(v@).take(v.len() as int) =~= views(v@));
    r
}

/// Appends `line` as a new element.
pub fn push_line(out: &mut Vec<Vec<char>>, line: Vec<char>)
    ensures
        views(final(out)@) == views(old(out)@).push(line@),
{
    let ghost prev = views(out@);
    out.push(line);
    assert(views(out@) =~= prev.push(line@));
}

/// A line made of the characters of `p`.
pub fn line_of(p: &str) -> (r: Vec<char>)
    ensures
        r@ == p@,
{
    chars_of(p)
}

} // verus!

verus! {

/// Text before the first occurrence of `p` (`split(p).next()`).
pub open spec fn before_first(s: Seq<char>, p: Seq<char>) -> Seq<char> {
    match find(s, p) {
        Some(i) => s.take(i),
        None => s,
    }
}

/// `split(p).nth(1)`: the text between the first and second occurrence of `p`
/// (or to the end), when `p` occurs.
pub open spec fn second_piece(s: Seq<char>, p: Seq<char>) -> Option<Seq<char>> {
    match find(s, p) {
        Some(i) => Some(before_first(s.skip(i + p.len()), p)),
        None => None,
    }
}

/// Index of the last `c` in `s`, or -1.
pub open spec fn last_index_of(s: Seq<char>, c: char) -> int
    decreases s.len(),
{
    if s.len() == 0 {
        -1
    } else if s.last() == c {
        s.len() - 1
    } else {
        last_index_of(s.drop_last(), c)
    }
}

/// `rsplit(c).next()`: the text after the last `c` (all of `s` when none).
pub open spec fn after_last(s: Seq<char>, c: char) -> Seq<char> {
    s.skip(last_index_of(s, c) + 1)
}

/// Index of the first `c` in `s`, or `s.len()`.
pub open spec fn first_index_of(s: Seq<char>, c: char) -> int
    decreases s.len(),
{
    if s.len() == 0 {
        0
    } else if s[0] == c {
        0
    } else {
        1 + first_index_of(s.drop_first(), c)
    }
}

/// `split(c).next()`: the text before the first `c`.
pub open spec fn before_char(s: Seq<char>, c: char) -> Seq<char> {
    s.take(first_index_of(s, c))
}

/// Index of the first whitespace character, or `s.len()`.
pub open spec fn first_ws_index(s: Seq<char>) -> int
    decreases s.len(),
{
    if s.len() == 0 {
        0
    } else if is_ws(s[0]) {
        0
    } else {
        1 + first_ws_index(s.drop_first())
    }
}

/// `split_whitespace().next()`.
pub open spec fn first_word(s: Seq<char>) -> Option<Seq<char>> {
    let t = trim_start(s);
    if t.len() == 0 {
        None
    } else {
        Some(t.take(first_ws_index(t)))
    }
}

pub proof fn lemma_last_index_bounds(s: Seq<char>, c: char)
    ensures
        -1 <= last_index_of(s, c) < s.len(),
        last_index_of(s, c) >= 0 ==> s[last_index_of(s, c)] == c,
        forall|j: int| last_index_of(s, c) < j < s.len() ==> s[j] != c,
    decreases s.len(),
{
    if s.len() > 0 && s.last() != c {
        lemma_last_index_bounds(s.drop_last(), c);
        assert forall|j: int| last_index_of(s, c) < j < s.len() implies s[j] != c by {
            if j < s.len() - 1 {
                assert(s.drop_last()[j] == s[j]);
            }
        }
    }
}

pub proof fn lemma_first_index_bounds(s: Seq<char>, c: char)
    ensures
        0 <= first_index_of(s, c) <= s.len(),
        first_index_of(s, c) < s.len() ==> s[first_index_of(s, c)] == c,
        forall|j: int| 0 <= j < first_index_of(s, c) ==> s[j] != c,
    decreases s.len(),
{
    if s.len() > 0 && s[0] != c {
        lemma_first_index_bounds(s.drop_first(), c);
        assert forall|j: int| 0 <= j < first_index_of(s, c) implies s[j] != c by {
            if j > 0 {
                assert(s.drop_first()[j - 1] == s[j]);
            }
        }
    }
}

pub proof fn lemma_first_ws_bounds(s: Seq<char>)
    ensures
        0 <= first_ws_index(s) <= s.len(),
        first_ws_index(s) < s.len() ==> is_ws(s[first_ws_index(s)]),
        forall|j: int| 0 <= j < first_ws_index(s) ==> !is_ws(s[j]),
    decreases s.len(),
{
    if s.len() > 0 && !is_ws(s[0]) {
        lemma_first_ws_bounds(s.drop_first());
        assert forall|j: int| 0 <= j < first_ws_index(s) implies !is_ws(s[j]) by {
            if j > 0 {
                assert(s.drop_first()[j - 1] == s[j]);
            }
        }
    }
}

proof fn lemma_last_index_unique(s: Seq<char>, c: char, k: int)
    requires
        -1 <= k < s.len(),
        k >= 0 ==> s[k] == c,
        forall|j: int| k < j < s.len() ==> s[j] != c,
    ensures
        last_index_of(s, c) == k,
    decreases s.len(),
{
    if s.len() > 0 && s.last() != c {
        lemma_last_index_unique(s.drop_last(), c, k);
    }
}

proof fn lemma_first_index_unique(s: Seq<char>, c: char, k: int)
    requires
        0 <= k <= s.len(),
        k < s.len() ==> s[k] == c,
        forall|j: int| 0 <= j < k ==> s[j] != c,
    ensures
        first_index_of(s, c) == k,
    decreases s.len(),
{
    if s.len() > 0 && s[0] != c {
        lemma_first_index_unique(s.drop_first(), c, k - 1);
    }
}

proof fn lemma_first_ws_unique(s: Seq<char>, k: int)
    requires
        0 <= k <= s.len(),
        k < s.len() ==> is_ws(s[k]),
        forall|j: int| 0 <= j < k ==> !is_ws(s[j]),
    ensures
        first_ws_index(s) == k,
    decreases s.len(),
{
    if s.len() > 0 && !is_ws(s[0]) {
        lemma_first_ws_unique(s.drop_first(), k - 1);
    }
}

/// Index of the last `c`, if any.
pub fn last_index_exec(s: &Vec<char>, c: char) -> (r: Option<usize>)
    ensures
        match r {
            Some(i) => last_index_of(s@, c) == i as int && i < s.len(),
            None => last_index_of(s@, c) == -1,
        },
{
    let mut i: usize = s.len();
    while i > 0
        invariant
            i <= s.len(),
            forall|j: int| i <= j < s.len() ==> s@[j] != c,
        decreases i,
    {
        if s[i - 1] == c {
            proof {
                lemma_last_index_unique(s@, c, i - 1);
            }
            return Some(i - 1);
        }
        i -= 1;
    }
    proof {
        lemma_last_index_unique(s@, c, -1);
    }
    None
}

/// Index of the first `c`, or the length.
pub fn first_index_exec(s: &Vec<char>, c: char) -> (r: usize)
    ensures
        r as int == first_index_of(s@, c),
        r <= s.len(),
{
    let mut i: usize = 0;
    while i < s.len()
        invariant
            i <= s.len(),
            forall|j: int| 0 <= j < i ==> s@[j] != c,
        decreases s.len() - i,
    {
        if s[i] == c {
            proof {
                lemma_first_index_unique(s@, c, i as int);
            }
            return i;
        }
        i += 1;
    }
    proof {
        lemma_first_index_unique(s@, c, i as int);
    }
    i
}

pub fn after_last_exec(s: &Vec<char>, c: char) -> (r: Vec<char>)
    ensures
        r@ == after_last(s@, c),
{
    match last_index_exec(s, c) {
        Some(i) => slice_chars(s, i + 1, s.len()),
        None => {
            assert(s@.skip(0) =~= s@);
            copy_chars(s)
        },
    }
}

pub fn before_char_exec(s: &Vec<char>, c: char) -> (r: Vec<char>)
    ensures
        r@ == before_char(s@, c),
{
    let i = first_index_exec(s, c);
    slice_chars(s, 0, i)
}

pub fn before_first_exec(s: &Vec<char>, p: &str) -> (r: Vec<char>)
    ensures
        r@ == before_first(s@, p@),
{
    match find_str(s, p) {
        Some(i) => {
            proof {
                lemma_find_facts(s@, p@);
            }
            assert(occurs_at(s@, p@, i as int));
            slice_chars(s, 0, i)
        },
        None => copy_chars(s),
    }
}

pub fn second_piece_exec(s: &Vec<char>, p: &str) -> (r: Option<Vec<char>>)
    ensures
        match r {
            Some(v) => second_piece(s@, p@) == Some(v@),
            None => second_piece(s@, p@) is None,
        },
{
    let pc = chars_of(p);
    match find_chars(s, &pc) {
        Some(i) => {
            proof {
                lemma_find_facts(s@, p@);
            }
            assert(occurs_at(s@, pc@, i as int));
            let plen = pc.len();
            assert(i + plen <= s.len());
            let start: usize = i + plen;
            let rest = slice_chars(s, start, s.len());
            assert(rest@ == s@.skip(i + p@.len()));
            Some(before_first_exec(&rest, p))
        },
        None => None,
    }
}

pub fn first_word_exec(s: &Vec<char>) -> (r: Option<Vec<char>>)
    ensures
        match r {
            Some(v) => first_word(s@) == Some(v@),
            None => first_word(s@) is None,
        },
{
    let t = trim_start_chars(s);
    if t.len() == 0 {
        return None;
    }
    let mut k: usize = 0;
    while k < t.len() && !is_whitespace(t[k])
        invariant
            k <= t.len(),
            forall|j: int| 0 <= j < k ==> !is_ws(t@[j]),
        decreases t.len() - k,
    {
        k += 1;
    }
    proof {
        lemma_first_ws_unique(t@, k as int);
    }
    Some(slice_chars(&t, 0, k))
}


// ---------------------------------------------------------------- numbers

pub open spec fn all_digits(s: Seq<char>) -> bool {
    forall|i: int| 0 <= i < s.len() ==> is_digit(#[trigger] s[i])
}

/// The value of a run of decimal digits.
pub open spec fn digits_value(s: Seq<char>) -> nat
    decreases s.len(),
{
    if s.len() == 0 {
        0
    } else {
        digits_value(s.drop_last()) * 10 + ((s.last() as u32) - 48) as nat
    }
}

/// `str::parse::<usize>`: an optional `+`, then one or more decimal digits
/// whose value fits in `usize`.
pub open spec fn usize_of(s: Seq<char>) -> Option<nat> {
    let d = if s.len() > 0 && s[0] == '+' {
        s.drop_first()
    } else {
        s
    };
    if d.len() > 0 && all_digits(d) && digits_value(d) <= usize::MAX {
        Some(digits_value(d))
    } else {
        None
    }
}

/// The leading run of digits of `s`.
pub open spec fn leading_digits(s: Seq<char>) -> Seq<char>
    decreases s.len(),
{
    if s.len() > 0 && is_digit(s[0]) {
        seq![s[0]] + leading_digits(s.drop_first())
    } else {
        seq![]
    }
}

proof fn lemma_digits_prefix(d: Seq<char>, k: int)
    requires
        0 <= k <= d.len(),
        all_digits(d),
    ensures
        digits_value(d.take(k)) <= digits_value(d),
    decreases d.len(),
{
    if k < d.len() {
        assert(is_digit(d[d.len() - 1]));
        assert(all_digits(d.drop_last()));
        lemma_digits_prefix(d.drop_last(), k);
        assert(d.drop_last().take(k) =~= d.take(k));
    } else {
        assert(d.take(k) =~= d);
    }
}

/// The value of `s` when it is all digits and fits in `usize`.
fn digits_usize(s: &Vec<char>, from: usize) -> (r: Option<usize>)
    requires
        from <= s.len(),
    ensures
        ({
            let d = s@.skip(from as int);
            match r {
                Some(n) => d.len() > 0 && all_digits(d) && digits_value(d) == n,
                None => !(d.len() > 0 && all_digits(d) && digits_value(d) <= usize::MAX),
            }
        }),
{
    let ghost d = s@.skip(from as int);
    if from == s.len() {
        return None;
    }
    let mut v: usize = 0;
    let mut i: usize = from;
    while i < s.len()
        invariant
            from <= i <= s.len(),
            d == s@.skip(from as int),
            all_digits(d.take(i - from)),
            v == digits_value(d.take(i - from)),
        decreases s.len() - i,
    {
        let c = s[i];
        if !('0' <= c && c <= '9') {
            assert(d[i - from] == c);
            return None;
        }
        let w: u128 = (v as u128) * 10 + ((c as u32) - 48) as u128;
        assert(d.take(i - from + 1).drop_last() =~= d.take(i - from));
        assert(d.take(i - from + 1).last() == c);
        assert(all_digits(d.take(i - from + 1))) by {
            assert forall|j: int| 0 <= j < i - from + 1 implies is_digit(#[trigger] d.take(i - from + 1)[j]) by {
                if j < i - from {
                    assert(d.take(i - from + 1)[j] == d.take(i - from)[j]);
                }
            }
        }
        if w > usize::MAX as u128 {
            proof {
                if all_digits(d) {
                    lemma_digits_prefix(d, i - from + 1);
                }
            }
            return None;
        }
        v = w as usize;
        i += 1;
    }
    assert(d.take(i - from) =~= d);
    Some(v)
}

/// `str::parse::<usize>` on characters (see [`usize_of`]).
pub fn parse_usize_chars(s: &Vec<char>) -> (r: Option<usize>)
    ensures
        match r {
            Some(n) => usize_of(s@) == Some(n as nat),
            None => usize_of(s@) is None,
        },
{
    let from: usize = if s.len() > 0 && s[0] == '+' {
        1
    } else {
        0
    };
    assert(s@.skip(1) =~= s@.drop_first());
    assert(s@.skip(0) =~= s@);
    digits_usize(s, from)
}

/// [`leading_digits`] on characters.
pub fn leading_digits_exec(s: &Vec<char>) -> (r: Vec<char>)
    ensures
        r@ == leading_digits(s@),
{
    let mut k: usize = 0;
    while k < s.len() && '0' <= s[k] && s[k] <= '9'
        invariant
            k <= s.len(),
            forall|j: int| 0 <= j < k ==> is_digit(s@[j]),
        decreases s.len() - k,
    {
        k += 1;
    }
    proof {
        lemma_leading_digits(s@, k as int);
    }
    slice_chars(s, 0, k)
}

proof fn lemma_leading_digits(s: Seq<char>, k: int)
    requires
        0 <= k <= s.len(),
        forall|j: int| 0 <= j < k ==> is_digit(s[j]),
        k < s.len() ==> !is_digit(s[k]),
    ensures
        leading_digits(s) == s.take(k),
    decreases s.len(),
{
    if s.len() > 0 && is_digit(s[0]) {
        lemma_leading_digits(s.drop_first(), k - 1);
        assert(seq![s[0]] + s.drop_first().take(k - 1) =~= s.take(k));
    } else {
        assert(s.take(k) =~= Seq::<char>::empty());
    }
}

// ---------------------------------------------------------------- line splitting lemmas

/// [`line_state`] continued from `st` over `s`.
pub open spec fn line_state_from(st: (Seq<Seq<char>>, Seq<char>), s: Seq<char>) -> (
    Seq<Seq<char>>,
    Seq<char>,
)
    decreases s.len(),
{
    if s.len() == 0 {
        st
    } else {
        let (done, cur) = line_state_from(st, s.drop_last());
        if s.last() == '\n' {
            (done.push(strip_cr(cur)), seq![])
        } else {
            (done, cur.push(s.last()))
        }
    }
}

pub proof fn lemma_line_state_from_start(s: Seq<char>)
    ensures
        line_state(s) == line_state_from((seq![], seq![]), s),
    decreases s.len(),
{
    if s.len() > 0 {
        lemma_line_state_from_start(s.drop_last());
    }
}

pub proof fn lemma_line_state_concat(st: (Seq<Seq<char>>, Seq<char>), x: Seq<char>, y: Seq<char>)
    ensures
        line_state_from(st, x + y) == line_state_from(line_state_from(st, x), y),
    decreases y.len(),
{
    if y.len() == 0 {
        assert(x + y =~= x);
    } else {
        lemma_line_state_concat(st, x, y.drop_last());
        assert((x + y).drop_last() =~= x + y.drop_last());
        assert((x + y).last() == y.last());
    }
}

pub proof fn lemma_line_state_no_nl(st: (Seq<Seq<char>>, Seq<char>), x: Seq<char>)
    requires
        forall|i: int| 0 <= i < x.len() ==> x[i] != '\n',
    ensures
        line_state_from(st, x) == (st.0, st.1 + x),
    decreases x.len(),
{
    if x.len() == 0 {
        assert(st.1 + x =~= st.1);
    } else {
        lemma_line_state_no_nl(st, x.drop_last());
        assert(st.1 + x.drop_last() + seq![x.last()] =~= st.1 + x);
    }
}

/// Reading on from a line being read: either it is still being read (with
/// `x` added), or it was finished as `c` followed by a prefix of `x`; the
/// finished lines before it stay.
pub proof fn lemma_line_state_cur(d: Seq<Seq<char>>, c: Seq<char>, x: Seq<char>)
    ensures
        ({
            let r = line_state_from((d, c), x);
            &&& d.len() <= r.0.len()
            &&& forall|k: int| 0 <= k < d.len() ==> r.0[k] == d[k]
            &&& (r.0.len() == d.len() && r.1 == c + x) || (r.0.len() > d.len() && exists|j: int|
                0 <= j <= x.len() && r.0[d.len() as int] == strip_cr(c + #[trigger] x.take(j)))
        }),
    decreases x.len(),
{
    if x.len() == 0 {
        assert(c + x =~= c);
    } else {
        let p = x.drop_last();
        lemma_line_state_cur(d, c, p);
        let r0 = line_state_from((d, c), p);
        if r0.0.len() > d.len() {
            let j = choose|j: int| 0 <= j <= p.len() && r0.0[d.len() as int] == strip_cr(c + #[trigger] p.take(j));
            assert(p.take(j) =~= x.take(j));
        } else {
            if x.last() == '\n' {
                assert(p =~= x.take(p.len() as int));
            } else {
                assert(c + p + seq![x.last()] =~= c + x);
            }
        }
    }
}

/// `trim_end(s)` is a prefix of `s`, and reaches past every non-whitespace
/// character.
pub proof fn lemma_trim_end_prefix(s: Seq<char>)
    ensures
        trim_end(s).len() <= s.len(),
        trim_end(s) == s.take(trim_end(s).len() as int),
        forall|k: int| 0 <= k < s.len() && !is_ws(#[trigger] s[k]) ==> k < trim_end(s).len(),
    decreases s.len(),
{
    if s.len() > 0 && is_ws(s.last()) {
        let r = s.drop_last();
        lemma_trim_end_prefix(r);
        assert(r.take(trim_end(r).len() as int) =~= s.take(trim_end(r).len() as int));
        assert forall|k: int| 0 <= k < s.len() && !is_ws(#[trigger] s[k]) implies k < trim_end(s).len() by {
            if k < s.len() - 1 {
                assert(r[k] == s[k]);
            }
        }
    } else {
        assert(s.take(s.len() as int) =~= s);
    }
}

/// `p` inside `q` inside `s`: `p` inside `s`.
pub proof fn lemma_contains_trans(s: Seq<char>, q: Seq<char>, p: Seq<char>)
    requires
        contains(s, q),
        contains(q, p),
    ensures
        contains(s, p),
{
    let i = choose|i: int| occurs_at(s, q, i);
    let j = choose|j: int| occurs_at(q, p, j);
    assert(s.subrange(i + j, i + j + p.len()) =~= q.subrange(j, j + p.len()));
    assert(occurs_at(s, p, i + j));
}

pub proof fn lemma_join_contains(ls: Seq<Seq<char>>, k: int)
    requires
        0 <= k < ls.len(),
    ensures
        contains(join_nl(ls), ls[k]),
    decreases ls.len(),
{
    if ls.len() == 1 {
        assert(join_nl(ls) == ls[0]);
        assert(join_nl(ls).subrange(0, ls[0].len() as int) =~= ls[0]);
        assert(occurs_at(join_nl(ls), ls[k], 0));
    } else {
        let prev = ls.drop_last();
        let tail = seq!['\n'] + ls.last();
        assert(join_nl(ls) =~= join_nl(prev) + tail);
        if k < ls.len() - 1 {
            lemma_join_contains(prev, k);
            assert(prev[k] == ls[k]);
            lemma_contains_append(join_nl(prev), tail, ls[k]);
        } else {
            assert(tail.subrange(1, 1 + ls[k].len() as int) =~= ls[k]);
            assert(occurs_at(tail, ls[k], 1));
            lemma_contains_append(join_nl(prev), tail, ls[k]);
        }
    }
}

/// A match of `p` (which has no `c`) in `a`, `c`, `b` lies in `a` or in `b`.
pub proof fn lemma_contains_split(a: Seq<char>, c: char, b: Seq<char>, p: Seq<char>)
    requires
        contains(a + seq![c] + b, p),
        forall|j: int| 0 <= j < p.len() ==> p[j] != c,
    ensures
        contains(a, p) || contains(b, p),
{
    let s = a + seq![c] + b;
    let i = choose|i: int| occurs_at(s, p, i);
    if i + p.len() <= a.len() {
        assert(a.subrange(i, i + p.len()) =~= s.subrange(i, i + p.len()));
        assert(occurs_at(a, p, i));
    } else if i > a.len() {
        let k = i - a.len() - 1;
        assert(b.subrange(k, k + p.len()) =~= s.subrange(i, i + p.len()));
        assert(occurs_at(b, p, k));
    } else {
        let j = a.len() - i;
        assert(s.subrange(i, i + p.len())[j] == s[a.len() as int]);
        assert(p[j] == c);
    }
}

/// A match in a prefix is a match.
pub proof fn lemma_contains_take(s: Seq<char>, n: int, p: Seq<char>)
    requires
        0 <= n <= s.len(),
        contains(s.take(n), p),
    ensures
        contains(s, p),
{
    let i = choose|i: int| occurs_at(s.take(n), p, i);
    assert(s.subrange(i, i + p.len()) =~= s.take(n).subrange(i, i + p.len()));
    assert(occurs_at(s, p, i));
}

/// Cutting a line (as [`slim`]) adds no match of a `p` without `…`.
pub proof fn lemma_contains_slim(l: Seq<char>, max: nat, p: Seq<char>)
    requires
        max >= 1,
        forall|j: int| 0 <= j < p.len() ==> p[j] != '…',
        contains(slim(l, max), p),
    ensures
        contains(l, p),
{
    let t = trim_end(l);
    lemma_trim_end_prefix(l);
    if p.len() == 0 {
        assert(l.subrange(0, 0) =~= p);
        assert(occurs_at(l, p, 0));
    } else {
        if t.len() > max {
            let a = t.take(max - 1);
            assert(slim(l, max) =~= a + seq!['…'] + Seq::<char>::empty());
            lemma_contains_split(a, '…', Seq::<char>::empty(), p);
            lemma_contains_take(t, max - 1, p);
        }
        lemma_contains_take(l, t.len() as int, p);
    }
}

} // verus!

