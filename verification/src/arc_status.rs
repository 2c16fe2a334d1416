//! `arc status`: the verbose report becomes a branch line and one short
//! `XY path` line per entry; hints are dropped. Output that already looks
//! short is kept, minus blank lines.

use vstd::prelude::*;
use crate::generic_fail::utf8_len;
use crate::text::{
    append_chars, chars_of, contains, contains_char, contains_str, decimal, decimal_chars, find,
    find_str, join_nl, join_nl_exec, lemma_find_facts, lemma_take_all, lemma_take_step,
    leading_digits, leading_digits_exec, line_of, lines, occurs_at, parse_usize_chars, push_line,
    push_str, slice_chars, split_lines, starts_with, starts_with_str, string_of, trim, trim_chars,
    usize_of, views,
};
use crate::util::{strip_ansi_lite, strip_ansi_lite_chars, utf8_len_exec};

verus! {

/// Section of the verbose report being read.
#[derive(Debug, Clone, Copy, PartialEq, Eq, Structural)]
pub enum StatusSection {
    Outside,
    Staged,
    Unstaged,
    Untracked,
    Unmerged,
}

// ---------------------------------------------------------------- spec

/// A line that only the verbose report has.
pub open spec fn verbose_marker(t: Seq<char>) -> bool {
    starts_with(t, "On branch "@) || starts_with(t, "Changes "@) || starts_with(t, "Untracked "@)
        || starts_with(t, "Your branch "@)
}

/// Porcelain-like output: some non-blank line, and every non-blank line is at
/// least two bytes long and no verbose marker.
pub open spec fn looks_short(ls: Seq<Seq<char>>) -> bool {
    &&& exists|i: int| 0 <= i < ls.len() && #[trigger] trim(ls[i]).len() > 0
    &&& forall|i: int|
        0 <= i < ls.len() && #[trigger] trim(ls[i]).len() > 0 ==> !verbose_marker(trim(ls[i]))
            && utf8_len(trim(ls[i])) >= 2
}

/// The lines of `ls` that are not blank.
pub open spec fn non_blank(ls: Seq<Seq<char>>) -> Seq<Seq<char>>
    decreases ls.len(),
{
    if ls.len() == 0 {
        seq![]
    } else if trim(ls.last()).len() > 0 {
        non_blank(ls.drop_last()).push(ls.last())
    } else {
        non_blank(ls.drop_last())
    }
}

/// An `(use "arc …")` hint.
pub open spec fn arc_hint(t: Seq<char>) -> bool {
    starts_with(t, "(use \"arc"@) || starts_with(t, "(use \"git"@) || contains(t, "(use \"arc "@)
        || contains(t, "(use \"arc\""@)
}

/// `'ref' by N commits.` → `N`.
pub open spec fn by_n_commits(rest: Seq<char>) -> Option<nat> {
    match find(rest, " by "@) {
        Some(i) => usize_of(leading_digits(rest.skip(i + 4))),
        None => None,
    }
}

/// The path of an entry line, if the section has entries of that shape.
pub open spec fn entry_path(t: Seq<char>, section: StatusSection) -> Option<Seq<char>> {
    match section {
        StatusSection::Untracked => if contains(t, seq![':']) && !contains(t, seq!['/']) {
            None
        } else {
            Some(t)
        },
        StatusSection::Outside => None,
        _ => match find(t, seq![':']) {
            Some(i) => {
                let p = trim(t.skip(i + 1));
                if p.len() == 0 {
                    None
                } else {
                    Some(p)
                }
            },
            None => None,
        },
    }
}

/// The two-letter code of an entry.
pub open spec fn entry_code(t: Seq<char>, section: StatusSection) -> Seq<char> {
    match section {
        StatusSection::Staged => if starts_with(t, "new file"@) || starts_with(t, "added"@) {
            "A "@
        } else if starts_with(t, "deleted"@) {
            "D "@
        } else if starts_with(t, "renamed"@) {
            "R "@
        } else {
            "M "@
        },
        StatusSection::Unstaged => if starts_with(t, "deleted"@) {
            " D"@
        } else {
            " M"@
        },
        StatusSection::Untracked => "??"@,
        _ => "UU"@,
    }
}

/// `XY path` for an entry line of `section`.
pub open spec fn status_entry(t: Seq<char>, section: StatusSection) -> Option<Seq<char>> {
    match entry_path(t, section) {
        Some(p) => Some(entry_code(t, section) + " "@ + p),
        None => None,
    }
}

/// What the reader of the verbose report holds.
#[verifier::ext_equal]
pub struct StatusModel {
    pub entries: Seq<Seq<char>>,
    pub branch: Option<Seq<char>>,
    pub ahead_behind: Seq<char>,
    pub section: StatusSection,
}

pub open spec fn status_start() -> StatusModel {
    StatusModel { entries: seq![], branch: None, ahead_behind: seq![], section: StatusSection::Outside }
}

#[verifier::opaque]
pub open spec fn status_step(m: StatusModel, line: Seq<char>) -> StatusModel {
    let t = trim(line);
    if t.len() == 0 || arc_hint(t) {
        m
    } else if starts_with(t, "On branch "@) {
        StatusModel { branch: Some(t.skip("On branch "@.len() as int)), ..m }
    } else if starts_with(t, "HEAD detached "@) {
        StatusModel { branch: Some(t), ..m }
    } else if starts_with(t, "Your branch is up-to-date"@) {
        m
    } else if starts_with(t, "Your branch is ahead of "@) {
        match by_n_commits(t.skip("Your branch is ahead of "@.len() as int)) {
            Some(n) => StatusModel { ahead_behind: " [ahead "@ + decimal(n) + "]"@, ..m },
            None => m,
        }
    } else if starts_with(t, "Your branch is behind "@) {
        match by_n_commits(t.skip("Your branch is behind "@.len() as int)) {
            Some(n) => StatusModel {
                ahead_behind: m.ahead_behind + " [behind "@ + decimal(n) + "]"@,
                ..m
            },
            None => m,
        }
    } else if starts_with(t, "Changes to be committed:"@) {
        StatusModel { section: StatusSection::Staged, ..m }
    } else if starts_with(t, "Changes not staged for commit:"@) {
        StatusModel { section: StatusSection::Unstaged, ..m }
    } else if starts_with(t, "Untracked files:"@) {
        StatusModel { section: StatusSection::Untracked, ..m }
    } else if starts_with(t, "Unmerged paths:"@) {
        StatusModel { section: StatusSection::Unmerged, ..m }
    } else if contains(t, "nothing to commit"@) && contains(t, "working tree clean"@) {
        StatusModel { section: StatusSection::Outside, ..m }
    } else if starts_with(t, "nothing added to commit"@) {
        m
    } else {
        match status_entry(t, m.section) {
            Some(e) => StatusModel { entries: m.entries.push(e), ..m },
            None => m,
        }
    }
}

pub open spec fn status_run(ls: Seq<Seq<char>>) -> StatusModel
    decreases ls.len(),
{
    if ls.len() == 0 {
        status_start()
    } else {
        status_step(status_run(ls.drop_last()), ls.last())
    }
}

pub const CLEAN_LINE: &'static str = "clean — nothing to commit";

/// The compact report of the verbose form: `* branch [ahead N][behind M]`,
/// then the entries; a clean note when there is nothing else.
pub open spec fn verbose_status(ls: Seq<Seq<char>>) -> Seq<char> {
    let m = status_run(ls);
    let result = match m.branch {
        Some(b) => seq!["* "@ + b + m.ahead_behind],
        None => seq![],
    } + m.entries;
    if result.len() == 0 {
        CLEAN_LINE@
    } else if result.len() == 1 && starts_with(result[0], "*"@) {
        join_nl(result.push(CLEAN_LINE@))
    } else {
        join_nl(result)
    }
}

/// The `arc status` filter.
pub open spec fn arc_status_filter(raw: Seq<char>) -> Seq<char> {
    let s = strip_ansi_lite(raw);
    let ls = lines(s);
    if trim(s).len() == 0 {
        seq![]
    } else if looks_short(ls) {
        join_nl(non_blank(ls))
    } else {
        verbose_status(ls)
    }
}

// ---------------------------------------------------------------- exec

fn verbose_marker_chars(t: &Vec<char>) -> (r: bool)
    ensures
        r == verbose_marker(t@),
{
    starts_with_str(t, "On branch ") || starts_with_str(t, "Changes ") || starts_with_str(
        t,
        "Untracked ",
    ) || starts_with_str(t, "Your branch ")
}

fn looks_like_short_status(ls: &Vec<Vec<char>>) -> (r: bool)
    ensures
        r == looks_short(views(ls@)),
{
    let ghost lv = views(ls@);
    let mut saw = false;
    let mut i: usize = 0;
    while i < ls.len()
        invariant
            i <= ls.len(),
            lv == views(ls@),
            saw == exists|j: int| 0 <= j < i && #[trigger] trim(lv[j]).len() > 0,
            forall|j: int|
                0 <= j < i && #[trigger] trim(lv[j]).len() > 0 ==> !verbose_marker(trim(lv[j]))
                    && utf8_len(trim(lv[j])) >= 2,
        decreases ls.len() - i,
    {
        let t = trim_chars(&ls[i]);
        assert(lv[i as int] == ls@[i as int]@);
        if t.len() > 0 {
            assert(trim(lv[i as int]).len() > 0);
            if verbose_marker_chars(&t) || utf8_len_exec(&t) < 2 {
                return false;
            }
            saw = true;
        }
        i += 1;
    }
    saw
}

fn non_blank_exec(ls: &Vec<Vec<char>>) -> (r: Vec<Vec<char>>)
    ensures
        views(r@) == non_blank(views(ls@)),
{
    let mut out: Vec<Vec<char>> = Vec::new();
    let mut i: usize = 0;
    while i < ls.len()
        invariant
            i <= ls.len(),
            views(out@) == non_blank(views(ls@).take(i as int)),
        decreases ls.len() - i,
    {
        proof {
            lemma_take_step(views(ls@), i as int);
        }
        if trim_chars(&ls[i]).len() > 0 {
            push_line(&mut out, crate::text::copy_chars(&ls[i]));
        }
        i += 1;
    }
    proof {
        lemma_take_all(views(ls@));
    }
    out
}

fn arc_hint_chars(t: &Vec<char>) -> (r: bool)
    ensures
        r == arc_hint(t@),
{
    starts_with_str(t, "(use \"arc") || starts_with_str(t, "(use \"git") || contains_str(
        t,
        "(use \"arc ",
    ) || contains_str(t, "(use \"arc\"")
}

fn extract_by_n_commits(rest: &Vec<char>) -> (r: Option<usize>)
    ensures
        match r {
            Some(n) => by_n_commits(rest@) == Some(n as nat),
            None => by_n_commits(rest@) is None,
        },
{
    match find_str(rest, " by ") {
        Some(i) => {
            proof {
                lemma_find_facts(rest@, " by "@);
                reveal_strlit(" by ");
            }
            assert(occurs_at(rest@, " by "@, i as int));
            assert(i + 4 <= rest.len());
            let after = slice_chars(rest, i + 4, rest.len());
            assert(after@ =~= rest@.skip(i + 4));
            parse_usize_chars(&leading_digits_exec(&after))
        },
        None => None,
    }
}

fn parse_status_entry(t: &Vec<char>, section: StatusSection) -> (r: Option<Vec<char>>)
    ensures
        match r {
            Some(e) => status_entry(t@, section) == Some(e@),
            None => status_entry(t@, section) is None,
        },
{
    let path = match section {
        StatusSection::Untracked => {
            if contains_char(t, ':') && !contains_char(t, '/') {
                return None;
            }
            crate::text::copy_chars(t)
        },
        StatusSection::Outside => {
            return None;
        },
        _ => {
            match find_str(t, ":") {
                Some(i) => {
                    proof {
                        lemma_find_facts(t@, ":"@);
                        reveal_strlit(":");
                    }
                    assert(":"@ =~= seq![':']);
                    assert(occurs_at(t@, ":"@, i as int));
                    assert(":"@.len() == 1);
                    assert(i + 1 <= t.len());
                    let rest = slice_chars(t, i + 1, t.len());
                    assert(rest@ =~= t@.skip(i + 1));
                    let p = trim_chars(&rest);
                    if p.len() == 0 {
                        return None;
                    }
                    p
                },
                None => {
                    proof {
                        reveal_strlit(":");
                    }
                    assert(":"@ =~= seq![':']);
                    return None;
                },
            }
        },
    };
    let mut code = match section {
        StatusSection::Staged => {
            if starts_with_str(t, "new file") || starts_with_str(t, "added") {
                line_of("A ")
            } else if starts_with_str(t, "deleted") {
                line_of("D ")
            } else if starts_with_str(t, "renamed") {
                line_of("R ")
            } else {
                line_of("M ")
            }
        },
        StatusSection::Unstaged => {
            if starts_with_str(t, "deleted") {
                line_of(" D")
            } else {
                line_of(" M")
            }
        },
        StatusSection::Untracked => line_of("??"),
        _ => line_of("UU"),
    };
    push_str(&mut code, " ");
    append_chars(&mut code, &path);
    Some(code)
}

struct StatusState {
    entries: Vec<Vec<char>>,
    branch: Option<Vec<char>>,
    ahead_behind: Vec<char>,
    section: StatusSection,
}

impl StatusState {
    spec fn model(&self) -> StatusModel {
        StatusModel {
            entries: views(self.entries@),
            branch: match self.branch {
                Some(b) => Some(b@),
                None => None,
            },
            ahead_behind: self.ahead_behind@,
            section: self.section,
        }
    }
}

fn status_step_exec(st: &mut StatusState, line: &Vec<char>)
    ensures
        final(st).model() == status_step(old(st).model(), line@),
{
    proof {
        reveal(status_step);
    }
    let t = trim_chars(line);
    if t.len() == 0 || arc_hint_chars(&t) {
        return;
    }
    if starts_with_str(&t, "On branch ") {
        let n = line_of("On branch ").len();
        st.branch = Some(slice_chars(&t, n, t.len()));
    } else if starts_with_str(&t, "HEAD detached ") {
        st.branch = Some(t);
    } else if starts_with_str(&t, "Your branch is up-to-date") {
    } else if starts_with_str(&t, "Your branch is ahead of ") {
        let n = line_of("Your branch is ahead of ").len();
        match extract_by_n_commits(&slice_chars(&t, n, t.len())) {
            Some(k) => {
                let mut ab = line_of(" [ahead ");
                append_chars(&mut ab, &decimal_chars(k));
                push_str(&mut ab, "]");
                st.ahead_behind = ab;
            },
            None => {},
        }
    } else if starts_with_str(&t, "Your branch is behind ") {
        let n = line_of("Your branch is behind ").len();
        match extract_by_n_commits(&slice_chars(&t, n, t.len())) {
            Some(k) => {
                push_str(&mut st.ahead_behind, " [behind ");
                append_chars(&mut st.ahead_behind, &decimal_chars(k));
                push_str(&mut st.ahead_behind, "]");
            },
            None => {},
        }
    } else if starts_with_str(&t, "Changes to be committed:") {
        st.section = StatusSection::Staged;
    } else if starts_with_str(&t, "Changes not staged for commit:") {
        st.section = StatusSection::Unstaged;
    } else if starts_with_str(&t, "Untracked files:") {
        st.section = StatusSection::Untracked;
    } else if starts_with_str(&t, "Unmerged paths:") {
        st.section = StatusSection::Unmerged;
    } else if contains_str(&t, "nothing to commit") && contains_str(&t, "working tree clean") {
        st.section = StatusSection::Outside;
    } else if starts_with_str(&t, "nothing added to commit") {
    } else {
        match parse_status_entry(&t, st.section) {
            Some(e) => push_line(&mut st.entries, e),
            None => {},
        }
    }
    assert(st.model() =~= status_step(old(st).model(), line@));
}

fn verbose_status_exec(ls: &Vec<Vec<char>>) -> (r: Vec<char>)
    ensures
        r@ == verbose_status(views(ls@)),
{
    let ghost lv = views(ls@);
    let mut st = StatusState {
        entries: Vec::new(),
        branch: None,
        ahead_behind: Vec::new(),
        section: StatusSection::Outside,
    };
    assert(st.model() =~= status_start());
    let mut i: usize = 0;
    while i < ls.len()
        invariant
            i <= ls.len(),
            lv == views(ls@),
            st.model() == status_run(lv.take(i as int)),
        decreases ls.len() - i,
    {
        proof {
            lemma_take_step(lv, i as int);
        }
        status_step_exec(&mut st, &ls[i]);
        i += 1;
    }
    proof {
        lemma_take_all(lv);
    }
    let mut result: Vec<Vec<char>> = Vec::new();
    match &st.branch {
        Some(b) => {
            let mut l = line_of("* ");
            append_chars(&mut l, b);
            append_chars(&mut l, &st.ahead_behind);
            push_line(&mut result, l);
        },
        None => {},
    }
    let ghost head = views(result@);
    let mut k: usize = 0;
    while k < st.entries.len()
        invariant
            k <= st.entries.len(),
            views(result@) == head + views(st.entries@).take(k as int),
        decreases st.entries.len() - k,
    {
        proof {
            lemma_take_step(views(st.entries@), k as int);
        }
        push_line(&mut result, crate::text::copy_chars(&st.entries[k]));
        assert(views(result@) =~= head + views(st.entries@).take(k + 1));
        k += 1;
    }
    proof {
        lemma_take_all(views(st.entries@));
    }
    if result.len() == 0 {
        return line_of(CLEAN_LINE);
    }
    assert(views(result@)[0] == result@[0]@);
    if result.len() == 1 && starts_with_str(&result[0], "*") {
        push_line(&mut result, line_of(CLEAN_LINE));
    }
    join_nl_exec(&result)
}

/// [`arc_status_filter`] on characters.
pub fn arc_status_chars(raw: &Vec<char>) -> (r: Vec<char>)
    ensures
        r@ == arc_status_filter(raw@),
{
    let s = strip_ansi_lite_chars(raw);
    if trim_chars(&s).len() == 0 {
        return Vec::new();
    }
    let ls = split_lines(&s);
    if looks_like_short_status(&ls) {
        return join_nl_exec(&non_blank_exec(&ls));
    }
    verbose_status_exec(&ls)
}

/// Compact verbose `arc status` (see [`arc_status_filter`]).
pub fn filter_arc_status(raw: &str) -> (r: String)
    ensures
        r@ == arc_status_filter(raw@),
{
    string_of(&arc_status_chars(&chars_of(raw)))
}

// ---------------------------------------------------------------- entry law

/// An entry line `<kind>:   <path>` of a staged / unstaged section gives the
/// `XY path` line git's short format uses: staged `new file` / `added` → `A `,
/// `deleted` → `D `, `renamed` → `R `, anything else → `M `; unstaged
/// `deleted` → ` D`, anything else → ` M`. The path is the text after the
/// first `:`, trimmed.
pub proof fn law_status_entry_codes(t: Seq<char>, i: int)
    requires
        find(t, seq![':']) == Some(i),
        trim(t.skip(i + 1)).len() > 0,
    ensures
        ({
            let p = trim(t.skip(i + 1));
            let staged = status_entry(t, StatusSection::Staged);
            let unstaged = status_entry(t, StatusSection::Unstaged);
            &&& (starts_with(t, "new file"@) || starts_with(t, "added"@)) ==> staged == Some(
                "A "@ + " "@ + p,
            )
            &&& starts_with(t, "deleted"@) ==> staged == Some("D "@ + " "@ + p)
            &&& starts_with(t, "renamed"@) ==> staged == Some("R "@ + " "@ + p)
            &&& !starts_with(t, "new file"@) && !starts_with(t, "added"@) && !starts_with(
                t,
                "deleted"@,
            ) && !starts_with(t, "renamed"@) ==> staged == Some("M "@ + " "@ + p)
            &&& starts_with(t, "deleted"@) ==> unstaged == Some(" D"@ + " "@ + p)
            &&& !starts_with(t, "deleted"@) ==> unstaged == Some(" M"@ + " "@ + p)
        }),
{
    reveal_strlit("new file");
    reveal_strlit("added");
    reveal_strlit("deleted");
    reveal_strlit("renamed");
    if starts_with(t, "deleted"@) {
        assert(t.subrange(0, 7)[0] == t[0]);
        assert(t[0] == 'd');
        assert(!starts_with(t, "new file"@)) by {
            if starts_with(t, "new file"@) {
                assert(t.subrange(0, 8)[0] == t[0]);
            }
        }
        assert(!starts_with(t, "added"@)) by {
            if starts_with(t, "added"@) {
                assert(t.subrange(0, 5)[0] == t[0]);
            }
        }
    }
    if starts_with(t, "renamed"@) {
        assert(t.subrange(0, 7)[0] == t[0]);
        assert(!starts_with(t, "new file"@)) by {
            if starts_with(t, "new file"@) {
                assert(t.subrange(0, 8)[0] == t[0]);
            }
        }
        assert(!starts_with(t, "added"@)) by {
            if starts_with(t, "added"@) {
                assert(t.subrange(0, 5)[0] == t[0]);
            }
        }
        assert(!starts_with(t, "deleted"@)) by {
            if starts_with(t, "deleted"@) {
                assert(t.subrange(0, 7)[0] == t[0]);
            }
        }
    }
}

/// Inside a section, an entry line whose text starts with a lowercase kind
/// word (`deleted`, `modified`, `renamed`, `added`, …: first letter `d`, `m`,
/// `r` or `a`) adds its `XY path` line (see [`law_status_entry_codes`]) and
/// leaves the section as it was.
pub proof fn law_status_entry_line(m: StatusModel, line: Seq<char>)
    requires
        ({
            let t = trim(line);
            &&& t.len() > 0
            &&& t[0] == 'd' || t[0] == 'm' || t[0] == 'r' || t[0] == 'a'
            &&& !arc_hint(t)
            &&& !(contains(t, "nothing to commit"@) && contains(t, "working tree clean"@))
        }),
    ensures
        status_step(m, line).section == m.section,
        status_step(m, line).entries == match status_entry(trim(line), m.section) {
            Some(e) => m.entries.push(e),
            None => m.entries,
        },
{
    reveal(status_step);
    let t = trim(line);
    reveal_strlit("On branch ");
    reveal_strlit("HEAD detached ");
    reveal_strlit("Your branch is up-to-date");
    reveal_strlit("Your branch is ahead of ");
    reveal_strlit("Your branch is behind ");
    reveal_strlit("Changes to be committed:");
    reveal_strlit("Changes not staged for commit:");
    reveal_strlit("Untracked files:");
    reveal_strlit("Unmerged paths:");
    reveal_strlit("nothing added to commit");
    assert(!starts_with(t, "On branch "@)) by {
        if starts_with(t, "On branch "@) { assert(t.subrange(0, 10)[0] == t[0]); }
    }
    assert(!starts_with(t, "HEAD detached "@)) by {
        if starts_with(t, "HEAD detached "@) { assert(t.subrange(0, 14)[0] == t[0]); }
    }
    assert(!starts_with(t, "Your branch is up-to-date"@)) by {
        if starts_with(t, "Your branch is up-to-date"@) { assert(t.subrange(0, 25)[0] == t[0]); }
    }
    assert(!starts_with(t, "Your branch is ahead of "@)) by {
        if starts_with(t, "Your branch is ahead of "@) { assert(t.subrange(0, 24)[0] == t[0]); }
    }
    assert(!starts_with(t, "Your branch is behind "@)) by {
        if starts_with(t, "Your branch is behind "@) { assert(t.subrange(0, 22)[0] == t[0]); }
    }
    assert(!starts_with(t, "Changes to be committed:"@)) by {
        if starts_with(t, "Changes to be committed:"@) { assert(t.subrange(0, 24)[0] == t[0]); }
    }
    assert(!starts_with(t, "Changes not staged for commit:"@)) by {
        if starts_with(t, "Changes not staged for commit:"@) { assert(t.subrange(0, 30)[0] == t[0]); }
    }
    assert(!starts_with(t, "Untracked files:"@)) by {
        if starts_with(t, "Untracked files:"@) { assert(t.subrange(0, 16)[0] == t[0]); }
    }
    assert(!starts_with(t, "Unmerged paths:"@)) by {
        if starts_with(t, "Unmerged paths:"@) { assert(t.subrange(0, 15)[0] == t[0]); }
    }
    assert(!starts_with(t, "nothing added to commit"@)) by {
        if starts_with(t, "nothing added to commit"@) { assert(t.subrange(0, 23)[0] == t[0]); }
    }
}

} // verus!
