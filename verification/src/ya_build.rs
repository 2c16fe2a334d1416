//! Build-only `ya make` filter: `[PB]` / `Ok [n/m]` / PEERDIR / hot-settings
//! progress is counted and dropped; real diagnostics, compile failures,
//! pytest summary lines and final outcome lines are kept (each cut to
//! [`MAX_LINE_CHARS`] characters); counts of what was dropped come last.

use vstd::prelude::*;
use crate::envelope::{is_test_mode, test_mode};
use crate::generic_fail::{CAP_ERRORS, MAX_LINE_CHARS};
use crate::text::{
    lemma_contains_append, lemma_join_contains, append_chars, chars_of, contains, contains_str, occurs_at, decimal, decimal_chars, eq_str, find, find_str,
    is_digit, join_nl, join_nl_exec, lemma_find_facts, lemma_take_all, lemma_take_step, line_of,
    lines, push_line, push_str, slim, slim_chars, split_lines, starts_with, starts_with_str,
    string_of, string_views, trim, trim_chars, trim_start, trim_start_chars, views,
};
use crate::util::{strip_ansi, strip_ansi_chars, terminate_nl, terminate_nl_exec};

verus! {

// ---------------------------------------------------------------- spec

/// `ya make` without test flags.
pub open spec fn build_mode(args: Seq<Seq<char>>) -> bool {
    args.len() > 0 && args[0] == "make"@ && !test_mode(args)
}

/// `file.go:NN…` compiler diagnostics (tool argv lines excluded).
pub open spec fn go_compile_diag(t: Seq<char>) -> bool {
    if contains(t, "/compile "@) || starts_with(t, "command (pid:"@) {
        false
    } else {
        match find(t, ".go:"@) {
            Some(i) => i + 4 < t.len() && is_digit(t[i + 4]),
            None => false,
        }
    }
}

/// Lines that carry real build signal.
pub open spec fn build_signal(t: Seq<char>) -> bool {
    ||| starts_with(t, "Error["@) || starts_with(t, "Error:"@)
    ||| starts_with(t, "Warn["@) && !contains(t, "BUILD_ONLY_IF"@)
    ||| starts_with(t, "make:"@)
    ||| starts_with(t, "------- [GO]"@) && contains(t, "FAILED"@)
    ||| contains(t, "[TM]"@) || starts_with(t, "------- [TM]"@)
    ||| contains(t, "could not import"@)
    ||| contains(t, "BUILD ERRORS"@) || contains(t, "BUILD ERROR"@)
    ||| go_compile_diag(t)
    ||| starts_with(t, "ERROR "@) || starts_with(t, "FAILED "@)
    ||| starts_with(t, "="@) && (contains(t, "ERROR"@) || contains(t, "short test summary"@)
        || contains(t, "errors in"@) || contains(t, "failed in"@) || contains(t, "passed in"@)
        || contains(t, "test session"@))
    ||| contains(t, " errors in "@) || contains(t, " failed in "@)
    ||| starts_with(t, "Total "@) || starts_with(t, "Failed"@)
}

/// What the build handler counts.
pub struct BuildCounts {
    pub pb: nat,
    pub ok: nat,
    pub hot: nat,
    pub peerdir: nat,
    pub errors: nat,
    pub connection_refused: bool,
}

pub open spec fn no_counts() -> BuildCounts {
    BuildCounts { pb: 0, ok: 0, hot: 0, peerdir: 0, errors: 0, connection_refused: false }
}

/// `n + 1`, held at `usize::MAX`.
pub open spec fn bump(n: nat) -> nat {
    if n < usize::MAX {
        n + 1
    } else {
        n
    }
}

/// One line: the new counts, and whether the line is dropped.
pub open spec fn skip_step(c: BuildCounts, line: Seq<char>) -> (BuildCounts, bool) {
    let t = trim_start(line);
    if t.len() == 0 {
        (c, true)
    } else if starts_with(t, "------- [PB]"@) || starts_with(t, "-------[PB]"@) || (contains(
        t,
        ".proto:"@,
    ) && contains(t, "warning: Import"@)) {
        (BuildCounts { pb: bump(c.pb), ..c }, true)
    } else if t == "Ok"@ || starts_with(t, "Ok ["@) {
        (BuildCounts { ok: bump(c.ok), ..c }, true)
    } else if contains(t, "Unexpected getting uninitialized hot settings"@) {
        (BuildCounts { hot: bump(c.hot), ..c }, true)
    } else if contains(t, "PEERDIR"@) || contains(t, "UserWarning:"@) || contains(
        t,
        "warnings.warn("@,
    ) {
        (BuildCounts { peerdir: bump(c.peerdir), ..c }, true)
    } else {
        let c1 = if contains(t, "Connection refused"@) || contains(t, "OperationalError"@) {
            BuildCounts { connection_refused: true, ..c }
        } else {
            c
        };
        if build_signal(t) {
            if starts_with(t, "ERROR "@) {
                let c2 = BuildCounts { errors: bump(c1.errors), ..c1 };
                (c2, c2.errors > CAP_ERRORS)
            } else {
                (c1, false)
            }
        } else {
            (c1, true)
        }
    }
}

/// `seq![l]` when `b`, else nothing.
pub open spec fn part_if(b: bool, l: Seq<char>) -> Seq<Seq<char>> {
    if b {
        seq![l]
    } else {
        seq![]
    }
}

/// Summary lines for the dropped noise, in a fixed order.
pub open spec fn summary_parts(c: BuildCounts) -> Seq<Seq<char>> {
    part_if(c.pb > 0, "… "@ + decimal(c.pb) + "× [PB]/proto import noise suppressed"@)
        + part_if(c.ok > 0, "… "@ + decimal(c.ok) + "× Ok progress suppressed"@)
        + part_if(c.hot > 0, "… "@ + decimal(c.hot) + "× uninitialized hot settings warnings suppressed"@)
        + part_if(c.peerdir > 0, "… "@ + decimal(c.peerdir) + "× UserWarning/PEERDIR suppressed"@)
        + part_if(c.connection_refused, "… repeated OperationalError: Connection refused (bodies in tee)"@)
        + part_if(c.errors > CAP_ERRORS, "… +"@ + decimal((c.errors - CAP_ERRORS) as nat) + " more ERROR lines"@)
}

/// The summary: its lines joined and ended by `\n`, or nothing.
pub open spec fn build_summary(c: BuildCounts) -> Option<Seq<char>> {
    let parts = summary_parts(c);
    if parts.len() == 0 {
        None
    } else {
        Some(join_nl(parts) + seq!['\n'])
    }
}

/// What the stream filter shows for a line: `None` when dropped, else the
/// line cut to [`MAX_LINE_CHARS`] and ended by `\n`.
pub open spec fn build_feed(c: BuildCounts, line: Seq<char>) -> (BuildCounts, Option<Seq<char>>) {
    let (c1, skip) = skip_step(c, line);
    if skip {
        (c1, None)
    } else {
        (c1, Some(slim(line, MAX_LINE_CHARS as nat) + seq!['\n']))
    }
}

/// Counts and kept text after a run of lines.
pub open spec fn build_run(ls: Seq<Seq<char>>) -> (BuildCounts, Seq<char>)
    decreases ls.len(),
{
    if ls.len() == 0 {
        (no_counts(), seq![])
    } else {
        let (c, kept) = build_run(ls.drop_last());
        let (c1, out) = build_feed(c, ls.last());
        (
            c1,
            match out {
                Some(o) => kept + o,
                None => kept,
            },
        )
    }
}

/// The build filter: ANSI stripped; blank text gives nothing; otherwise the
/// kept lines, then the summary, ended by `\n`.
pub open spec fn build_filter(raw: Seq<char>) -> Seq<char> {
    let clean = strip_ansi(raw);
    if trim(clean).len() == 0 {
        seq![]
    } else {
        let (c, kept) = build_run(lines(clean));
        terminate_nl(
            kept + match build_summary(c) {
                Some(s) => s,
                None => seq![],
            },
        )
    }
}

// ---------------------------------------------------------------- exec

/// True when argv is `ya make` without test flags.
pub fn is_build_mode(args: &[String]) -> (r: bool)
    ensures
        r == build_mode(string_views(args@)),
{
    if args.len() == 0 {
        return false;
    }
    let first = chars_of(args[0].as_str());
    assert(string_views(args@)[0] == first@);
    eq_str(&first, "make") && !is_test_mode(args)
}

fn go_compile_diag_chars(t: &Vec<char>) -> (r: bool)
    ensures
        r == go_compile_diag(t@),
{
    if contains_str(t, "/compile ") || starts_with_str(t, "command (pid:") {
        return false;
    }
    match find_str(t, ".go:") {
        Some(i) => {
            proof {
                lemma_find_facts(t@, ".go:"@);
                reveal_strlit(".go:");
                assert(".go:"@.len() == 4);
                assert(occurs_at(t@, ".go:"@, i as int));
                assert(i + 4 <= t.len());
            }
            i + 4 < t.len() && '0' <= t[i + 4] && t[i + 4] <= '9'
        },
        None => false,
    }
}

fn build_signal_chars(t: &Vec<char>) -> (r: bool)
    ensures
        r == build_signal(t@),
{
    (starts_with_str(t, "Error[") || starts_with_str(t, "Error:")) || (starts_with_str(t, "Warn[")
        && !contains_str(t, "BUILD_ONLY_IF")) || starts_with_str(t, "make:") || (starts_with_str(
        t,
        "------- [GO]",
    ) && contains_str(t, "FAILED")) || (contains_str(t, "[TM]") || starts_with_str(
        t,
        "------- [TM]",
    )) || contains_str(t, "could not import") || (contains_str(t, "BUILD ERRORS")
        || contains_str(t, "BUILD ERROR")) || go_compile_diag_chars(t) || (starts_with_str(
        t,
        "ERROR ",
    ) || starts_with_str(t, "FAILED ")) || (starts_with_str(t, "=") && (contains_str(t, "ERROR")
        || contains_str(t, "short test summary") || contains_str(t, "errors in") || contains_str(
        t,
        "failed in",
    ) || contains_str(t, "passed in") || contains_str(t, "test session"))) || (contains_str(
        t,
        " errors in ",
    ) || contains_str(t, " failed in ")) || (starts_with_str(t, "Total ") || starts_with_str(
        t,
        "Failed",
    ))
}

fn bump_exec(n: usize) -> (r: usize)
    ensures
        r == bump(n as nat),
{
    if n < usize::MAX {
        n + 1
    } else {
        n
    }
}

/// Line handler of the build filter: counts the noise it drops.
#[derive(Debug)]
pub struct YaBuildHandler {
    pb_suppressed: usize,
    ok_suppressed: usize,
    hot_settings: usize,
    peerdir_warns: usize,
    error_lines: usize,
    seen_connection_refused: bool,
}

impl View for YaBuildHandler {
    type V = BuildCounts;

    closed spec fn view(&self) -> BuildCounts {
        BuildCounts {
            pb: self.pb_suppressed as nat,
            ok: self.ok_suppressed as nat,
            hot: self.hot_settings as nat,
            peerdir: self.peerdir_warns as nat,
            errors: self.error_lines as nat,
            connection_refused: self.seen_connection_refused,
        }
    }
}

impl Default for YaBuildHandler {
    fn default() -> (r: Self)
        ensures
            r@ == no_counts(),
    {
        YaBuildHandler {
            pb_suppressed: 0,
            ok_suppressed: 0,
            hot_settings: 0,
            peerdir_warns: 0,
            error_lines: 0,
            seen_connection_refused: false,
        }
    }
}

impl YaBuildHandler {
    /// Whether `line` is dropped; counts it when it is known noise.
    pub fn should_skip(&mut self, line: &str) -> (r: bool)
        ensures
            (final(self)@, r) == skip_step(old(self)@, line@),
    {
        let l = chars_of(line);
        self.skip_chars(&l)
    }

    fn skip_chars(&mut self, line: &Vec<char>) -> (r: bool)
        ensures
            (final(self)@, r) == skip_step(old(self)@, line@),
    {
        let t = trim_start_chars(line);
        if t.len() == 0 {
            return true;
        }
        if starts_with_str(&t, "------- [PB]") || starts_with_str(&t, "-------[PB]") || (
        contains_str(&t, ".proto:") && contains_str(&t, "warning: Import")) {
            self.pb_suppressed = bump_exec(self.pb_suppressed);
            return true;
        }
        if eq_str(&t, "Ok") || starts_with_str(&t, "Ok [") {
            self.ok_suppressed = bump_exec(self.ok_suppressed);
            return true;
        }
        if contains_str(&t, "Unexpected getting uninitialized hot settings") {
            self.hot_settings = bump_exec(self.hot_settings);
            return true;
        }
        if contains_str(&t, "PEERDIR") || contains_str(&t, "UserWarning:") || contains_str(
            &t,
            "warnings.warn(",
        ) {
            self.peerdir_warns = bump_exec(self.peerdir_warns);
            return true;
        }
        if contains_str(&t, "Connection refused") || contains_str(&t, "OperationalError") {
            self.seen_connection_refused = true;
        }
        if build_signal_chars(&t) {
            if starts_with_str(&t, "ERROR ") {
                self.error_lines = bump_exec(self.error_lines);
                if self.error_lines > CAP_ERRORS {
                    return true;
                }
            }
            return false;
        }
        true
    }

    /// Counts of the dropped noise (see [`build_summary`]).
    pub fn format_summary(&self, exit_code: i32, raw: &str) -> (r: Option<String>)
        ensures
            match r {
                Some(s) => build_summary(self@) == Some(s@),
                None => build_summary(self@) is None,
            },
    {
        match self.summary_chars() {
            Some(v) => Some(string_of(&v)),
            None => None,
        }
    }

    fn summary_chars(&self) -> (r: Option<Vec<char>>)
        ensures
            match r {
                Some(s) => build_summary(self@) == Some(s@),
                None => build_summary(self@) is None,
            },
    {
        let ghost c = self@;
        let mut parts: Vec<Vec<char>> = Vec::new();
        push_if(&mut parts, self.pb_suppressed > 0, count_line(self.pb_suppressed, "× [PB]/proto import noise suppressed"));
        push_if(&mut parts, self.ok_suppressed > 0, count_line(self.ok_suppressed, "× Ok progress suppressed"));
        push_if(&mut parts, self.hot_settings > 0, count_line(self.hot_settings, "× uninitialized hot settings warnings suppressed"));
        push_if(&mut parts, self.peerdir_warns > 0, count_line(self.peerdir_warns, "× UserWarning/PEERDIR suppressed"));
        push_if(&mut parts, self.seen_connection_refused, line_of("… repeated OperationalError: Connection refused (bodies in tee)"));
        let errs = if self.error_lines > CAP_ERRORS {
            let mut l = line_of("… +");
            append_chars(&mut l, &decimal_chars(self.error_lines - CAP_ERRORS));
            push_str(&mut l, " more ERROR lines");
            l
        } else {
            Vec::new()
        };
        push_if(&mut parts, self.error_lines > CAP_ERRORS, errs);
        assert(views(parts@) =~= summary_parts(c));
        if parts.len() == 0 {
            return None;
        }
        let mut out = join_nl_exec(&parts);
        out.push('\n');
        Some(out)
    }
}

fn push_if(parts: &mut Vec<Vec<char>>, b: bool, l: Vec<char>)
    ensures
        views(final(parts)@) == views(old(parts)@) + part_if(b, l@),
{
    let ghost v = l@;
    if b {
        push_line(parts, l);
        assert(views(parts@) =~= views(old(parts)@) + part_if(b, v));
    } else {
        assert(views(parts@) =~= views(old(parts)@) + part_if(b, v));
    }
}

fn count_line(n: usize, tail: &str) -> (r: Vec<char>)
    ensures
        r@ == "… "@ + decimal(n as nat) + tail@,
{
    let mut l = line_of("… ");
    append_chars(&mut l, &decimal_chars(n));
    push_str(&mut l, tail);
    l
}

/// Stream filter of build-mode `ya make`: kept lines are cut to
/// [`MAX_LINE_CHARS`] characters.
pub struct YaBuildStreamFilter {
    inner: YaBuildHandler,
}

impl View for YaBuildStreamFilter {
    type V = BuildCounts;

    closed spec fn view(&self) -> BuildCounts {
        self.inner@
    }
}

impl YaBuildStreamFilter {
    pub fn new() -> (r: Self)
        ensures
            r@ == no_counts(),
    {
        YaBuildStreamFilter { inner: YaBuildHandler::default() }
    }

    /// The line as shown (cut, ended by `\n`), or `None` when dropped.
    pub fn feed_line(&mut self, line: &str) -> (r: Option<String>)
        ensures
            (final(self)@, match r {
                Some(s) => Some(s@),
                None => None,
            }) == build_feed(old(self)@, line@),
    {
        let l = chars_of(line);
        match self.feed_chars(&l) {
            Some(v) => Some(string_of(&v)),
            None => None,
        }
    }

    fn feed_chars(&mut self, line: &Vec<char>) -> (r: Option<Vec<char>>)
        ensures
            (final(self)@, match r {
                Some(s) => Some(s@),
                None => None,
            }) == build_feed(old(self)@, line@),
    {
        if self.inner.skip_chars(line) {
            None
        } else {
            let mut out = slim_chars(line, MAX_LINE_CHARS);
            out.push('\n');
            Some(out)
        }
    }

    /// Nothing is held back between lines.
    pub fn flush(&mut self) -> (r: String)
        ensures
            r@ == Seq::<char>::empty(),
            final(self)@ == old(self)@,
    {
        String::new()
    }

    /// The summary of the dropped noise, if any.
    pub fn on_exit(&mut self, exit_code: i32, raw: &str) -> (r: Option<String>)
        ensures
            final(self)@ == old(self)@,
            match r {
                Some(s) => build_summary(old(self)@) == Some(s@),
                None => build_summary(old(self)@) is None,
            },
    {
        self.inner.format_summary(exit_code, raw)
    }
}

impl Default for YaBuildStreamFilter {
    fn default() -> (r: Self)
        ensures
            r@ == no_counts(),
    {
        Self::new()
    }
}

/// Stream filter entry for build-mode `ya make`.
pub fn build_stream_filter() -> (r: YaBuildStreamFilter)
    ensures
        r@ == no_counts(),
{
    YaBuildStreamFilter::new()
}

/// [`build_filter`] on text held as characters.
pub fn build_filter_chars(raw: &Vec<char>) -> (r: Vec<char>)
    ensures
        r@ == build_filter(raw@),
{
    let clean = strip_ansi_chars(raw);
    if trim_chars(&clean).len() == 0 {
        return Vec::new();
    }
    let ls = split_lines(&clean);
    let mut filter = build_stream_filter();
    let mut kept: Vec<char> = Vec::new();
    let mut i: usize = 0;
    while i < ls.len()
        invariant
            i <= ls.len(),
            (filter@, kept@) == build_run(views(ls@).take(i as int)),
        decreases ls.len() - i,
    {
        proof {
            lemma_take_step(views(ls@), i as int);
        }
        match filter.feed_chars(&ls[i]) {
            Some(chunk) => append_chars(&mut kept, &chunk),
            None => {},
        }
        i += 1;
    }
    proof {
        lemma_take_all(views(ls@));
    }
    match filter.inner.summary_chars() {
        Some(s) => append_chars(&mut kept, &s),
        None => {},
    }
    terminate_nl_exec(&mut kept);
    kept
}

/// Filter a whole build-mode `ya make` dump (see [`build_filter`]).
pub fn filter_ya_build(raw: &str) -> (r: String)
    ensures
        r@ == build_filter(raw@),
{
    string_of(&build_filter_chars(&chars_of(raw)))
}

// ---------------------------------------------------------------- laws

/// `ERROR …` lines shown after a run of lines.
pub open spec fn kept_errors(ls: Seq<Seq<char>>) -> nat
    decreases ls.len(),
{
    if ls.len() == 0 {
        0
    } else {
        let (_, out) = build_feed(build_run(ls.drop_last()).0, ls.last());
        kept_errors(ls.drop_last()) + if out is Some && starts_with(
            trim_start(ls.last()),
            "ERROR "@,
        ) {
            1nat
        } else {
            0nat
        }
    }
}

/// Of the `ERROR …` lines counted, exactly [`CAP_ERRORS`] are shown (all of
/// them when there are fewer); the summary then reports the rest.
pub proof fn law_error_cap(ls: Seq<Seq<char>>)
    requires
        ls.len() < usize::MAX,
    ensures
        build_run(ls).0.errors <= ls.len(),
        kept_errors(ls) == (if build_run(ls).0.errors <= CAP_ERRORS {
            build_run(ls).0.errors
        } else {
            CAP_ERRORS as nat
        }),
    decreases ls.len(),
{
    if ls.len() > 0 {
        law_error_cap(ls.drop_last());
    }
}

/// An `ERROR …` line with none of the noise markers the handler counts apart.
pub open spec fn plain_error_line(line: Seq<char>) -> bool {
    let t = trim_start(line);
    &&& starts_with(t, "ERROR "@)
    &&& !contains(t, "PEERDIR"@)
    &&& !contains(t, "UserWarning:"@)
    &&& !contains(t, "warnings.warn("@)
    &&& !contains(t, ".proto:"@)
    &&& !contains(t, "Unexpected getting uninitialized hot settings"@)
}

/// The counts after `ls`, from `c`, and the answer of each `should_skip` call.
pub open spec fn skip_answers(c: BuildCounts, ls: Seq<Seq<char>>) -> (BuildCounts, Seq<bool>)
    decreases ls.len(),
{
    if ls.len() == 0 {
        (c, seq![])
    } else {
        let (c1, a) = skip_answers(c, ls.drop_last());
        let (c2, skip) = skip_step(c1, ls.last());
        (c2, a.push(skip))
    }
}

proof fn lemma_plain_error_step(c: BuildCounts, line: Seq<char>)
    requires
        plain_error_line(line),
    ensures
        skip_step(c, line).0.errors == bump(c.errors),
        skip_step(c, line).0.pb == c.pb && skip_step(c, line).0.ok == c.ok,
        skip_step(c, line).0.hot == c.hot && skip_step(c, line).0.peerdir == c.peerdir,
        skip_step(c, line).1 == (bump(c.errors) > CAP_ERRORS),
{
    let t = trim_start(line);
    reveal_strlit("ERROR ");
    reveal_strlit("------- [PB]");
    reveal_strlit("-------[PB]");
    reveal_strlit("Ok [");
    reveal_strlit("Ok");
    assert(t[0] == 'E') by {
        assert(t.subrange(0, 6)[0] == "ERROR "@[0]);
    }
    assert(!starts_with(t, "------- [PB]"@)) by {
        if starts_with(t, "------- [PB]"@) {
            assert(t.subrange(0, 12)[0] == "------- [PB]"@[0]);
        }
    }
    assert(!starts_with(t, "-------[PB]"@)) by {
        if starts_with(t, "-------[PB]"@) {
            assert(t.subrange(0, 11)[0] == "-------[PB]"@[0]);
        }
    }
    assert(!starts_with(t, "Ok ["@)) by {
        if starts_with(t, "Ok ["@) {
            assert(t.subrange(0, 4)[0] == "Ok ["@[0]);
        }
    }
    assert(t != "Ok"@);
    assert(build_signal(t));
}

/// Over a run of `should_skip` calls from a fresh handler on plain `ERROR`
/// lines, exactly the first [`CAP_ERRORS`] are kept (the k-th call, counting
/// from 1, skips iff k > `CAP_ERRORS`), and every line is counted.
pub proof fn law_error_run(ls: Seq<Seq<char>>)
    requires
        ls.len() < usize::MAX,
        forall|k: int| 0 <= k < ls.len() ==> plain_error_line(#[trigger] ls[k]),
    ensures
        skip_answers(no_counts(), ls).0.errors == ls.len(),
        skip_answers(no_counts(), ls).0.pb == 0 && skip_answers(no_counts(), ls).0.ok == 0,
        skip_answers(no_counts(), ls).0.hot == 0 && skip_answers(no_counts(), ls).0.peerdir == 0,
        skip_answers(no_counts(), ls).1.len() == ls.len(),
        forall|k: int|
            0 <= k < ls.len() ==> #[trigger] skip_answers(no_counts(), ls).1[k] == (k + 1
                > CAP_ERRORS),
    decreases ls.len(),
{
    if ls.len() > 0 {
        let prev = ls.drop_last();
        assert forall|k: int| 0 <= k < prev.len() implies plain_error_line(#[trigger] prev[k]) by {
            assert(prev[k] == ls[k]);
        }
        law_error_run(prev);
        let (c1, a) = skip_answers(no_counts(), prev);
        lemma_plain_error_step(c1, ls.last());
        assert(plain_error_line(ls[ls.len() - 1]));
    }
}

/// With no noise counted, the summary reports the `ERROR` overflow exactly
/// when more than [`CAP_ERRORS`] were counted: its last line is then
/// `… +N more ERROR lines`; otherwise no line of it starts with `… +`.
pub proof fn law_error_overflow_summary(c: BuildCounts)
    requires
        c.pb == 0 && c.ok == 0 && c.hot == 0 && c.peerdir == 0,
    ensures
        c.errors > CAP_ERRORS ==> summary_parts(c).last() == "… +"@ + decimal(
            (c.errors - CAP_ERRORS) as nat,
        ) + " more ERROR lines"@,
        c.errors <= CAP_ERRORS ==> forall|j: int|
            0 <= j < summary_parts(c).len() ==> !starts_with(#[trigger] summary_parts(c)[j], "… +"@),
{
    let r = "… repeated OperationalError: Connection refused (bodies in tee)"@;
    reveal_strlit("… repeated OperationalError: Connection refused (bodies in tee)");
    reveal_strlit("… +");
    assert(!starts_with(r, "… +"@)) by {
        if starts_with(r, "… +"@) {
            assert(r.subrange(0, 3)[2] == "… +"@[2]);
        }
    }
    if c.errors <= CAP_ERRORS {
        assert forall|j: int|
            0 <= j < summary_parts(c).len() implies !starts_with(
            #[trigger] summary_parts(c)[j],
            "… +"@,
        ) by {
            assert(summary_parts(c) =~= part_if(c.connection_refused, r));
        }
    }
}

/// `… +N more ERROR lines`.
pub open spec fn more_errors_line(n: nat) -> Seq<char> {
    "… +"@ + decimal(n) + " more ERROR lines"@
}

/// Over a run of calls from a fresh handler on plain `ERROR` lines
/// `s_1 … s_m`: `should_skip(s_k)` (and, on the stream filter, whether
/// `feed_line(s_k)` shows nothing) is `k > CAP_ERRORS`, so exactly the first
/// [`CAP_ERRORS`] are kept; `format_summary` then reports
/// `… +{m - CAP_ERRORS} more ERROR lines` when `m > CAP_ERRORS`, and
/// otherwise has no such line (at most the connection-refused note).
pub proof fn law_error_cap_run(ls: Seq<Seq<char>>)
    requires
        ls.len() < usize::MAX,
        forall|k: int| 0 <= k < ls.len() ==> plain_error_line(#[trigger] ls[k]),
    ensures
        forall|k: int|
            0 <= k < ls.len() ==> #[trigger] skip_answers(no_counts(), ls).1[k] == (k + 1
                > CAP_ERRORS),
        forall|k: int|
            0 <= k < ls.len() ==> (#[trigger] build_feed(skip_answers(no_counts(), ls.take(k)).0, ls[k]).1
                is None) == (k + 1 > CAP_ERRORS),
        ls.len() > CAP_ERRORS ==> (build_summary(skip_answers(no_counts(), ls).0) matches Some(t)
            && contains(t, more_errors_line((ls.len() - CAP_ERRORS) as nat))),
        ls.len() <= CAP_ERRORS ==> (build_summary(skip_answers(no_counts(), ls).0) is None
            || build_summary(skip_answers(no_counts(), ls).0) == Some(
            "… repeated OperationalError: Connection refused (bodies in tee)"@ + seq!['\n'],
        )),
{
    law_error_run(ls);
    let c = skip_answers(no_counts(), ls).0;
    law_error_overflow_summary(c);
    assert forall|k: int|
        0 <= k < ls.len() implies (#[trigger] build_feed(skip_answers(no_counts(), ls.take(k)).0, ls[k]).1
            is None) == (k + 1 > CAP_ERRORS) by {
        let t = ls.take(k + 1);
        assert forall|j: int| 0 <= j < t.len() implies plain_error_line(#[trigger] t[j]) by {
            assert(t[j] == ls[j]);
        }
        law_error_run(t);
        let u = ls.take(k);
        assert(t.drop_last() =~= u);
        assert(t.last() == ls[k]);
        assert forall|j: int| 0 <= j < u.len() implies plain_error_line(#[trigger] u[j]) by {
            assert(u[j] == ls[j]);
        }
        law_error_run(u);
        let (c1, a) = skip_answers(no_counts(), u);
        let (c2, sk) = skip_step(c1, ls[k]);
        assert(skip_answers(no_counts(), t) == (c2, a.push(sk)));
        assert(skip_answers(no_counts(), t).1[k] == sk);
    }
    let parts = summary_parts(c);
    if ls.len() > CAP_ERRORS {
        let l = more_errors_line((ls.len() - CAP_ERRORS) as nat);
        assert(parts.last() == l);
        lemma_join_contains(parts, parts.len() - 1);
        lemma_contains_append(join_nl(parts), seq!['\n'], l);
    } else {
        let r = "… repeated OperationalError: Connection refused (bodies in tee)"@;
        assert(parts =~= part_if(c.connection_refused, r));
        if c.connection_refused {
            assert(join_nl(seq![r]) == r);
        }
    }
}

/// A Go compiler diagnostic (`file.go:17:5: undefined: …`: the first `.go:`
/// followed by a digit; not a `/compile ` command line nor a `command (pid:`
/// line) that carries none of the noise markers is always shown, cut to
/// [`MAX_LINE_CHARS`], whatever was counted before.
pub proof fn law_build_shows_go_diagnostic(c: BuildCounts, line: Seq<char>, i: int)
    requires
        ({
            let t = trim_start(line);
            &&& find(t, ".go:"@) == Some(i)
            &&& i + 4 < t.len()
            &&& is_digit(t[i + 4])
            &&& !contains(t, "/compile "@)
            &&& !starts_with(t, "command (pid:"@)
            &&& !starts_with(t, "------- [PB]"@) && !starts_with(t, "-------[PB]"@)
            &&& !(contains(t, ".proto:"@) && contains(t, "warning: Import"@))
            &&& t != "Ok"@ && !starts_with(t, "Ok ["@)
            &&& !contains(t, "Unexpected getting uninitialized hot settings"@)
            &&& !contains(t, "PEERDIR"@) && !contains(t, "UserWarning:"@) && !contains(
                t,
                "warnings.warn("@,
            )
            &&& !starts_with(t, "ERROR "@)
        }),
    ensures
        build_feed(c, line).1 == Some(slim(line, MAX_LINE_CHARS as nat) + seq!['\n']),
{
    let t = trim_start(line);
    assert(go_compile_diag(t));
    assert(build_signal(t));
    assert(t.len() > 0);
}

/// The build filter's output is empty or ends with a newline.
pub proof fn law_build_output_ends_line(raw: Seq<char>)
    ensures
        build_filter(raw).len() == 0 || build_filter(raw).last() == '\n',
{
}

/// Proto, progress, hot-settings and PEERDIR / warning noise is never shown.
pub proof fn law_build_noise_hidden(c: BuildCounts, line: Seq<char>)
    requires
        ({
            let t = trim_start(line);
            ||| starts_with(t, "------- [PB]"@) || starts_with(t, "-------[PB]"@)
            ||| contains(t, ".proto:"@) && contains(t, "warning: Import"@)
            ||| t == "Ok"@ || starts_with(t, "Ok ["@)
            ||| contains(t, "Unexpected getting uninitialized hot settings"@)
            ||| contains(t, "PEERDIR"@) || contains(t, "UserWarning:"@) || contains(t, "warnings.warn("@)
        }),
    ensures
        build_feed(c, line).1 is None,
{
}

/// A line of real build signal that is no known noise is shown, cut to
/// [`MAX_LINE_CHARS`] characters (`ERROR …` lines only up to the cap).
pub proof fn law_build_signal_shown(c: BuildCounts, line: Seq<char>)
    requires
        ({
            let t = trim_start(line);
            &&& build_signal(t)
            &&& !starts_with(t, "ERROR "@)
            &&& !starts_with(t, "------- [PB]"@) && !starts_with(t, "-------[PB]"@)
            &&& !(contains(t, ".proto:"@) && contains(t, "warning: Import"@))
            &&& t != "Ok"@ && !starts_with(t, "Ok ["@)
            &&& !contains(t, "Unexpected getting uninitialized hot settings"@)
            &&& !contains(t, "PEERDIR"@) && !contains(t, "UserWarning:"@) && !contains(t, "warnings.warn("@)
        }),
    ensures
        build_feed(c, line).1 == Some(slim(line, MAX_LINE_CHARS as nat) + seq!['\n']),
{
    let t = trim_start(line);
    if t.len() == 0 {
        // every signal prefix or infix is non-empty, so an empty line has none
        reveal_strlit("Error[");
        reveal_strlit("Error:");
        reveal_strlit("Warn[");
        reveal_strlit("make:");
        reveal_strlit("------- [GO]");
        reveal_strlit("[TM]");
        reveal_strlit("------- [TM]");
        reveal_strlit("could not import");
        reveal_strlit("BUILD ERRORS");
        reveal_strlit("BUILD ERROR");
        reveal_strlit("FAILED ");
        reveal_strlit("=");
        reveal_strlit(" errors in ");
        reveal_strlit(" failed in ");
        reveal_strlit("Total ");
        reveal_strlit("Failed");
        reveal_strlit(".go:");
        assert(!build_signal(t));
    }
}

} // verus!
