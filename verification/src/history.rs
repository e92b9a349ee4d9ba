//! Batched `git log` records of the commits that touched one file, the
//! first-pass cohort filter (reverts and broad commits), and generated-file
//! markers in a file's header.
use vstd::prelude::*;

use crate::git_stream::{
    byte_lines, lemma_line_end_bounds, line_end, line_text, read_text_line_bounded, LineReader,
    StreamError, StreamErrorKind,
};
use crate::log_records::{
    empty_tally, tally_changed, tally_changed_exec, tally_offer, tally_offer_exec, PathTally,
    TallyView,
};
use crate::text::{
    split_chars, split_on, chars_of, contains_chars, contains_sub, decimal, extend_str, lower, lowercase, push_decimal,
    slice_chars, string_of, trim, trim_start, trimmed,
};
use crate::validate::strings_view;

verus! {

pub const HISTORY_REPORT_SCHEMA_VERSION: u32 = 1;

pub const DEFAULT_MAX_COMMITS: usize = 100;

pub const DEFAULT_MAX_PATHS_PER_COMMIT: usize = 100;

pub const GENERATED_HEADER_LINES: usize = 40;

#[derive(Debug, Clone, Copy, Eq, PartialEq, Structural)]
pub struct HistoryOptions {
    pub max_commits: usize,
    pub max_paths_per_commit: usize,
}

impl HistoryOptions {
    /// The defaults: the last hundred commits, broad above a hundred paths.
    pub fn standard() -> (o: HistoryOptions)
        ensures
            o.max_commits == DEFAULT_MAX_COMMITS,
            o.max_paths_per_commit == DEFAULT_MAX_PATHS_PER_COMMIT,
    {
        HistoryOptions {
            max_commits: DEFAULT_MAX_COMMITS,
            max_paths_per_commit: DEFAULT_MAX_PATHS_PER_COMMIT,
        }
    }
}

#[derive(Debug, Clone, Eq, PartialEq)]
pub struct CommitSummary {
    pub sha: String,
    pub date: String,
    pub subject: String,
}

#[derive(Debug, Clone, Eq, PartialEq)]
pub struct ExcludedCommit {
    pub commit: CommitSummary,
    pub reason: String,
    pub changed_paths: usize,
}

#[derive(Debug, Clone, Eq, PartialEq)]
pub struct GeneratedMarkerEvidence {
    pub path: String,
    pub line: usize,
    pub marker: String,
}

/// One commit of the log: its summary, its retained paths (empty once it
/// was broad) and how many paths it changed.
#[derive(Debug, Clone, Eq, PartialEq)]
pub struct HistoricalCommit {
    pub summary: CommitSummary,
    pub paths: Vec<String>,
    pub changed_paths: usize,
}

pub struct SummaryView {
    pub sha: Seq<char>,
    pub date: Seq<char>,
    pub subject: Seq<char>,
}

pub struct CommitView {
    pub summary: SummaryView,
    pub paths: Seq<Seq<char>>,
    pub changed_paths: nat,
}

impl CommitSummary {
    pub open spec fn summary_view(&self) -> SummaryView {
        SummaryView { sha: self.sha@, date: self.date@, subject: self.subject@ }
    }
}

impl HistoricalCommit {
    pub open spec fn commit_view(&self) -> CommitView {
        CommitView {
            summary: self.summary.summary_view(),
            paths: strings_view(self.paths@),
            changed_paths: self.changed_paths as nat,
        }
    }
}

pub open spec fn commits_view(cs: Seq<HistoricalCommit>) -> Seq<CommitView> {
    cs.map_values(|c: HistoricalCommit| c.commit_view())
}

// ---------------------------------------------------------------------------
// Record metadata.

pub open spec fn first_unit_separator(s: Seq<char>) -> Option<int> {
    crate::diff_parse::first_index_of(s, '\u{1f}')
}

/// `%H%x1f%cI%x1f%s`, trimmed: sha, date and subject, each trimmed; the
/// subject keeps any further separators.
pub open spec fn summary_from_metadata(metadata: Seq<char>) -> Option<SummaryView> {
    let t = trim(metadata);
    match first_unit_separator(t) {
        None => None,
        Some(a) => {
            let rest = t.skip(a + 1);
            match first_unit_separator(rest) {
                None => None,
                Some(b) => Some(
                    SummaryView {
                        sha: trim(t.take(a)),
                        date: trim(rest.take(b)),
                        subject: trim(rest.skip(b + 1)),
                    },
                ),
            }
        },
    }
}

fn first_unit_separator_exec(s: &[char]) -> (r: Option<usize>)
    ensures
        match r {
            Some(k) => first_unit_separator(s@) == Some(k as int) && k < s@.len(),
            None => first_unit_separator(s@) is None,
        },
{
    let mut i: usize = 0;
    while i < s.len()
        invariant
            i <= s@.len(),
            forall|j: int| 0 <= j < i ==> s@[j] != '\u{1f}',
        decreases s.len() - i,
    {
        if s[i] == '\u{1f}' {
            proof {
                let k = choose|k: int|
                    0 <= k < s@.len() && s@[k] == '\u{1f}' && forall|j: int|
                        0 <= j < k ==> s@[j] != '\u{1f}';
                if k > i {
                    assert(s@[i as int] == '\u{1f}');
                }
            }
            return Some(i);
        }
        i = i + 1;
    }
    None
}

/// Reads a record's metadata line (after its record separator).
pub fn history_summary_from_metadata(metadata: &str) -> (r: Option<CommitSummary>)
    ensures
        match r {
            Some(s) => summary_from_metadata(metadata@) == Some(s.summary_view()),
            None => summary_from_metadata(metadata@) is None,
        },
{
    let mc = chars_of(metadata);
    let t = trimmed(mc.as_slice());
    let a = match first_unit_separator_exec(t.as_slice()) {
        None => return None,
        Some(a) => a,
    };
    let tl = t.len();
    assert(a < tl);
    let rest = slice_chars(t.as_slice(), a + 1, tl);
    assert(rest@ == t@.skip(a + 1));
    let b = match first_unit_separator_exec(rest.as_slice()) {
        None => return None,
        Some(b) => b,
    };
    let sha_part = slice_chars(t.as_slice(), 0, a);
    let date_part = slice_chars(rest.as_slice(), 0, b);
    let subject_part = slice_chars(rest.as_slice(), b + 1, rest.len());
    assert(sha_part@ == t@.take(a as int));
    assert(date_part@ == rest@.take(b as int));
    assert(subject_part@ == rest@.skip(b + 1));
    let sha = trimmed(sha_part.as_slice());
    let date = trimmed(date_part.as_slice());
    let subject = trimmed(subject_part.as_slice());
    Some(
        CommitSummary {
            sha: string_of(sha.as_slice()),
            date: string_of(date.as_slice()),
            subject: string_of(subject.as_slice()),
        },
    )
}

// ---------------------------------------------------------------------------
// The log stream.

pub struct HistState {
    pub commits: Seq<CommitView>,
    pub current: Option<(SummaryView, TallyView)>,
    pub malformed: bool,
}

pub open spec fn finish_record(summary: SummaryView, tally: TallyView, max: usize) -> CommitView {
    CommitView { summary, paths: tally.paths, changed_paths: tally_changed(tally, max) }
}

/// One line of the log (with its line ending): a record separator opens a
/// record, other non-blank lines are paths of the open record, and anything
/// before the first record marks the log malformed.
pub open spec fn history_step(st: HistState, line: Seq<char>, max: usize) -> HistState {
    if st.malformed {
        st
    } else if line.len() > 0 && line[0] == '\u{1e}' {
        let commits = match st.current {
            Some((s, t)) => st.commits.push(finish_record(s, t, max)),
            None => st.commits,
        };
        match summary_from_metadata(line.drop_first()) {
            Some(s) => HistState { commits, current: Some((s, empty_tally())), malformed: false },
            None => HistState { commits, current: None, malformed: true },
        }
    } else {
        match st.current {
            Some((s, t)) => {
                let p = trim(line);
                if p.len() > 0 {
                    HistState { current: Some((s, tally_offer(t, max, p))), ..st }
                } else {
                    st
                }
            },
            None => if trim(line).len() > 0 {
                HistState { malformed: true, ..st }
            } else {
                st
            },
        }
    }
}

/// Runs the lines; a line that is not UTF-8 fails the stream.
pub open spec fn history_lines(st: HistState, lines: Seq<Seq<u8>>, max: usize) -> Result<
    HistState,
    Seq<char>,
>
    decreases lines.len(),
{
    if lines.len() == 0 {
        Ok(st)
    } else {
        match line_text(lines[0]) {
            None => Err("streamed line is not valid UTF-8"@),
            Some(t) => history_lines(history_step(st, t, max), lines.drop_first(), max),
        }
    }
}

/// The commits of a finished stream, or `None` when it was malformed.
pub open spec fn history_result(st: HistState, max: usize) -> Option<Seq<CommitView>> {
    if st.malformed {
        None
    } else {
        Some(
            match st.current {
                Some((s, t)) => st.commits.push(finish_record(s, t, max)),
                None => st.commits,
            },
        )
    }
}

pub open spec fn initial_hist_state() -> HistState {
    HistState { commits: Seq::empty(), current: None, malformed: false }
}

/// What the batched log gives: the commits in log order, `None` for a
/// malformed log, or an error for a line that is not UTF-8.
pub open spec fn history_log(input: Seq<u8>, max: usize) -> Result<Option<Seq<CommitView>>, Seq<char>> {
    match history_lines(initial_hist_state(), byte_lines(input), max) {
        Err(e) => Err(e),
        Ok(st) => Ok(history_result(st, max)),
    }
}

struct HistCursor {
    commits: Vec<HistoricalCommit>,
    current: Option<(CommitSummary, PathTally)>,
    malformed: bool,
}

spec fn cursor_view(c: HistCursor) -> HistState {
    HistState {
        commits: commits_view(c.commits@),
        current: match c.current {
            Some((s, t)) => Some((s.summary_view(), t.tally_view())),
            None => None,
        },
        malformed: c.malformed,
    }
}

spec fn cursor_bounded(c: HistCursor, max: usize, offers: nat) -> bool {
    match c.current {
        Some((_, t)) => t.bounded_by(max, offers),
        None => true,
    }
}

fn finish_exec(summary: CommitSummary, tally: PathTally, max: usize, Ghost(offers): Ghost<nat>) -> (c:
    HistoricalCommit)
    requires
        tally.bounded_by(max, offers),
        offers <= usize::MAX,
    ensures
        c.commit_view() == finish_record(summary.summary_view(), tally.tally_view(), max),
{
    let changed = tally_changed_exec(&tally, max, Ghost(offers));
    HistoricalCommit { summary, paths: tally.set.paths, changed_paths: changed }
}

fn push_commit(commits: &mut Vec<HistoricalCommit>, c: HistoricalCommit)
    ensures
        commits_view(final(commits)@) == commits_view(old(commits)@).push(c.commit_view()),
{
    let ghost before = commits@;
    let ghost cv = c.commit_view();
    commits.push(c);
    assert(commits_view(commits@) =~= commits_view(before).push(cv));
}

/// Streams a batched `git log --name-only` feed whose records start with a
/// record separator followed by `sha`, `date` and `subject` separated by unit
/// separators. A commit crossing `max_paths_per_commit` distinct paths keeps
/// only its count.
pub fn stream_history_log(input: &[u8], max_paths_per_commit: usize) -> (r: Result<
    Option<Vec<HistoricalCommit>>,
    StreamError,
>)
    ensures
        match history_log(input@, max_paths_per_commit) {
            Err(m) => r matches Err(e) && e.message@ == m && e.kind == StreamErrorKind::InvalidData,
            Ok(None) => r matches Ok(None),
            Ok(Some(cs)) => r matches Ok(Some(v)) && commits_view(v@) == cs,
        },
{
    let max = max_paths_per_commit;
    let mut bytes: Vec<u8> = Vec::new();
    let mut k: usize = 0;
    while k < input.len()
        invariant
            k <= input.len(),
            bytes@ == input@.take(k as int),
        decreases input.len() - k,
    {
        bytes.push(input[k]);
        k = k + 1;
        assert(bytes@ == input@.take(k as int));
    }
    assert(input@.take(input.len() as int) == input@);
    let total = bytes.len();
    let mut reader = LineReader::new(bytes);
    let mut st = HistCursor { commits: Vec::new(), current: None, malformed: false };
    assert(commits_view(st.commits@) =~= Seq::<CommitView>::empty());
    let mut text = String::new();
    let mut scratch: Vec<u8> = Vec::new();
    let mut done = false;
    while !done
        invariant
            reader.wf(),
            max == max_paths_per_commit,
            total == input@.len(),
            reader.remaining().len() <= total,
            history_lines(initial_hist_state(), byte_lines(input@), max) == history_lines(
                cursor_view(st),
                byte_lines(reader.remaining()),
                max,
            ),
            cursor_bounded(st, max, (total - reader.remaining().len()) as nat),
            done ==> reader.remaining().len() == 0,
        decreases reader.remaining().len() + if done {
            0int
        } else {
            1int
        },
    {
        let ghost rem = reader.remaining();
        proof {
            reader.lemma_remaining_fits();
            lemma_line_end_bounds(rem);
        }
        let read = read_text_line_bounded(&mut reader, &mut text, &mut scratch, usize::MAX);
        proof {
            if rem.len() > 0 {
                assert(byte_lines(rem) == seq![rem.take(line_end(rem))] + byte_lines(
                    rem.skip(line_end(rem)),
                ));
                assert(byte_lines(rem)[0] == rem.take(line_end(rem)));
                assert(byte_lines(rem).drop_first() =~= byte_lines(rem.skip(line_end(rem))));
            } else {
                assert(byte_lines(rem).len() == 0);
                assert(rem.take(0) =~= Seq::<u8>::empty());
                assert(vstd::utf8::valid_utf8(Seq::<u8>::empty()));
            }
        }
        match read {
            Err(e) => {
                proof {
                    assert(line_end(rem) <= usize::MAX);
                    if rem.len() == 0 {
                        assert(line_text(rem.take(0)) is Some);
                    }
                    assert(rem.len() > 0);
                    assert(line_text(byte_lines(rem)[0]) is None);
                    assert(history_lines(cursor_view(st), byte_lines(rem), max) == Err::<
                        HistState,
                        Seq<char>,
                    >("streamed line is not valid UTF-8"@));
                    assert(e.message@ == "streamed line is not valid UTF-8"@);
                    assert(e.kind == StreamErrorKind::InvalidData);
                    assert(history_log(input@, max) == Err::<Option<Seq<CommitView>>, Seq<char>>(
                        "streamed line is not valid UTF-8"@,
                    ));
                }
                return Err(e);
            },
            Ok(n) => {
                if n == 0 {
                    done = true;
                } else if !st.malformed {
                    let ghost consumed_before = (total - rem.len()) as nat;
                    let tc = chars_of(text.as_str());
                    if tc.len() > 0 && tc[0] == '\u{1e}' {
                        let meta = slice_chars(tc.as_slice(), 1, tc.len());
                        assert(meta@ == text@.drop_first());
                        match st.current.take() {
                            Some((s, t)) => {
                                let c = finish_exec(s, t, max, Ghost(consumed_before));
                                push_commit(&mut st.commits, c);
                            },
                            None => {},
                        }
                        match history_summary_from_metadata(string_of(meta.as_slice()).as_str()) {
                            Some(s) => st.current = Some((s, PathTally::new())),
                            None => st.malformed = true,
                        }
                    } else {
                        let p = trimmed(tc.as_slice());
                        match st.current.take() {
                            Some((s, t)) => {
                                let mut t = t;
                                if p.len() > 0 {
                                    tally_offer_exec(
                                        &mut t,
                                        max,
                                        string_of(p.as_slice()).as_str(),
                                        Ghost(consumed_before),
                                    );
                                }
                                st.current = Some((s, t));
                            },
                            None => {
                                if p.len() > 0 {
                                    st.malformed = true;
                                }
                            },
                        }
                    }
                }
            },
        }
    }
    if st.malformed {
        return Ok(None);
    }
    match st.current.take() {
        Some((s, t)) => {
            let c = finish_exec(s, t, max, Ghost((total - reader.remaining().len()) as nat));
            push_commit(&mut st.commits, c);
        },
        None => {},
    }
    Ok(Some(st.commits))
}

// ---------------------------------------------------------------------------
// The first-pass cohort filter.

/// A subject that starts, after leading whitespace and in any case, with
/// `revert`.
pub open spec fn revert_subject(subject: Seq<char>) -> bool {
    let t = lower(trim_start(subject));
    t.len() >= 6 && t.take(6) == "revert"@
}

pub fn is_revert_subject(subject: &str) -> (r: bool)
    ensures
        r == revert_subject(subject@),
{
    let cs = chars_of(subject);
    let t = crate::text::trim_start_chars(cs.as_slice());
    let l = lowercase(t.as_slice());
    let revert = chars_of("revert");
    proof {
        reveal_strlit("revert");
    }
    let r = crate::text::starts_with(l.as_slice(), revert.as_slice());
    proof {
        if revert_subject(subject@) {
            assert(revert@.is_prefix_of(l@));
        }
        if r {
            assert(l@.take(6) =~= "revert"@);
        }
    }
    r
}

pub struct ExcludedView {
    pub commit: SummaryView,
    pub reason: Seq<char>,
    pub changed_paths: nat,
}

impl ExcludedCommit {
    pub open spec fn excluded_view(&self) -> ExcludedView {
        ExcludedView {
            commit: self.commit.summary_view(),
            reason: self.reason@,
            changed_paths: self.changed_paths as nat,
        }
    }
}

pub open spec fn broad_reason(max: usize) -> Seq<char> {
    "broad commit changed more than "@ + decimal(max as nat) + " paths"@
}

/// The commits the cohort keeps: neither reverts nor broad.
pub open spec fn considered_commits(cs: Seq<CommitView>, max: usize) -> Seq<CommitView> {
    cs.filter(|c: CommitView| !revert_subject(c.summary.subject) && c.changed_paths <= max)
}

/// The commits the cohort drops, with the reason for each, in log order.
pub open spec fn excluded_commits(cs: Seq<CommitView>, max: usize) -> Seq<ExcludedView>
    decreases cs.len(),
{
    if cs.len() == 0 {
        Seq::empty()
    } else {
        let rest = excluded_commits(cs.drop_last(), max);
        let c = cs.last();
        if revert_subject(c.summary.subject) {
            rest.push(
                ExcludedView {
                    commit: c.summary,
                    reason: "revert commit"@,
                    changed_paths: c.changed_paths,
                },
            )
        } else if c.changed_paths > max {
            rest.push(
                ExcludedView {
                    commit: c.summary,
                    reason: broad_reason(max),
                    changed_paths: c.changed_paths,
                },
            )
        } else {
            rest
        }
    }
}

pub open spec fn excluded_views(v: Seq<ExcludedCommit>) -> Seq<ExcludedView> {
    v.map_values(|e: ExcludedCommit| e.excluded_view())
}

impl CommitSummary {
    pub fn copy(&self) -> (r: CommitSummary)
        ensures
            r.summary_view() == self.summary_view(),
    {
        CommitSummary { sha: self.sha.clone(), date: self.date.clone(), subject: self.subject.clone() }
    }
}

/// Splits the log into the considered cohort and the excluded commits.
pub fn classify_commits(commits: &Vec<HistoricalCommit>, max_paths_per_commit: usize) -> (r: (
    Vec<HistoricalCommit>,
    Vec<ExcludedCommit>,
))
    ensures
        commits_view(r.0@) == considered_commits(commits_view(commits@), max_paths_per_commit),
        excluded_views(r.1@) == excluded_commits(commits_view(commits@), max_paths_per_commit),
{
    let ghost cs = commits_view(commits@);
    let ghost pred = |c: CommitView|
        !revert_subject(c.summary.subject) && c.changed_paths <= max_paths_per_commit;
    let mut considered: Vec<HistoricalCommit> = Vec::new();
    let mut excluded: Vec<ExcludedCommit> = Vec::new();
    let mut i: usize = 0;
    assert(cs.take(0) =~= Seq::<CommitView>::empty());
    while i < commits.len()
        invariant
            i <= commits@.len(),
            cs == commits_view(commits@),
            pred == (|c: CommitView|
                !revert_subject(c.summary.subject) && c.changed_paths <= max_paths_per_commit),
            commits_view(considered@) == cs.take(i as int).filter(pred),
            excluded_views(excluded@) == excluded_commits(cs.take(i as int), max_paths_per_commit),
        decreases commits.len() - i,
    {
        let c = &commits[i];
        assert(c.commit_view() == cs[i as int]);
        proof {
            reveal_with_fuel(Seq::filter, 1);
            assert(cs.take(i + 1).drop_last() =~= cs.take(i as int));
            assert(cs.take(i + 1).last() == cs[i as int]);
        }
        if is_revert_subject(c.summary.subject.as_str()) {
            let ghost before = excluded@;
            let e = ExcludedCommit {
                commit: c.summary.copy(),
                reason: crate::text::owned("revert commit"),
                changed_paths: c.changed_paths,
            };
            excluded.push(e);
            assert(excluded_views(excluded@) =~= excluded_views(before).push(e.excluded_view()));
        } else if c.changed_paths > max_paths_per_commit {
            let ghost before = excluded@;
            let mut reason = chars_of("broad commit changed more than ");
            push_decimal(&mut reason, max_paths_per_commit);
            extend_str(&mut reason, " paths");
            let e = ExcludedCommit {
                commit: c.summary.copy(),
                reason: string_of(reason.as_slice()),
                changed_paths: c.changed_paths,
            };
            excluded.push(e);
            assert(excluded_views(excluded@) =~= excluded_views(before).push(e.excluded_view()));
        } else {
            let ghost before = considered@;
            let copy = HistoricalCommit {
                summary: c.summary.copy(),
                paths: crate::cmux_review::copy_strings(&c.paths),
                changed_paths: c.changed_paths,
            };
            let ghost cv = copy.commit_view();
            considered.push(copy);
            assert(commits_view(considered@) =~= commits_view(before).push(cv));
        }
        i = i + 1;
    }
    assert(cs.take(i as int) =~= cs);
    (considered, excluded)
}

// ---------------------------------------------------------------------------
// Generated-file markers.

/// The lines of a text, as `str::lines` yields them (a line's carriage
/// return, if any, is kept; the marker checks and the trimmed marker text do
/// not depend on it).
pub open spec fn header_lines(s: Seq<char>) -> Seq<Seq<char>> {
    let parts = split_on(s, '\n');
    if parts.last().len() == 0 {
        parts.drop_last()
    } else {
        parts
    }
}

/// A line that identifies its file as generated, in any case.
pub open spec fn strong_marker(line: Seq<char>) -> bool {
    let l = lower(line);
    contains_sub(l, "@generated"@) || contains_sub(l, "do not edit"@) || contains_sub(
        l,
        "automatically generated"@,
    ) || contains_sub(l, "auto-generated"@)
}

pub fn strong_generated_marker(line: &str) -> (r: bool)
    ensures
        r == strong_marker(line@),
{
    let cs = chars_of(line);
    let l = lowercase(cs.as_slice());
    let a = chars_of("@generated");
    let b = chars_of("do not edit");
    let c = chars_of("automatically generated");
    let d = chars_of("auto-generated");
    contains_chars(l.as_slice(), a.as_slice()) || contains_chars(l.as_slice(), b.as_slice())
        || contains_chars(l.as_slice(), c.as_slice()) || contains_chars(
        l.as_slice(),
        d.as_slice(),
    )
}

/// The first of the first `limit` lines, from `i` on, that carries a marker.
pub open spec fn first_marker(ls: Seq<Seq<char>>, i: int, limit: int) -> Option<int>
    decreases limit - i,
{
    if i >= limit || i >= ls.len() || i < 0 {
        None
    } else if strong_marker(ls[i]) {
        Some(i)
    } else {
        first_marker(ls, i + 1, limit)
    }
}

pub struct MarkerView {
    pub path: Seq<char>,
    pub line: nat,
    pub marker: Seq<char>,
}

/// The marker found in the first forty lines of a header: the path, the
/// one-based line and the trimmed line.
pub open spec fn header_marker(relative: Seq<char>, header: Seq<char>) -> Option<MarkerView> {
    let ls = header_lines(header);
    match first_marker(ls, 0, GENERATED_HEADER_LINES as int) {
        None => None,
        Some(i) => Some(MarkerView { path: relative, line: (i + 1) as nat, marker: trim(ls[i]) }),
    }
}

/// Looks for a generated-file marker in the first forty lines of `header`.
pub fn generated_marker_from_header(relative: &str, header: &str) -> (r: Option<
    GeneratedMarkerEvidence,
>)
    ensures
        match header_marker(relative@, header@) {
            None => r is None,
            Some(m) => r matches Some(e) && e.path@ == m.path && e.line == m.line && e.marker@
                == m.marker,
        },
{
    let hc = chars_of(header);
    let mut parts = split_chars(hc.as_slice(), '\n');
    let ghost ps = crate::text::seqs_view(parts@);
    if parts[parts.len() - 1].len() == 0 {
        parts.pop();
    }
    let ghost ls = header_lines(header@);
    assert(crate::text::seqs_view(parts@) =~= ls);
    let mut i: usize = 0;
    while i < parts.len() && i < GENERATED_HEADER_LINES
        invariant
            i <= parts@.len(),
            ls == header_lines(header@),
            crate::text::seqs_view(parts@) == ls,
            first_marker(ls, 0, GENERATED_HEADER_LINES as int) == first_marker(
                ls,
                i as int,
                GENERATED_HEADER_LINES as int,
            ),
        decreases parts.len() - i,
    {
        assert(ls[i as int] == parts@[i as int]@);
        let line = string_of(parts[i].as_slice());
        if strong_generated_marker(line.as_str()) {
            let marker = trimmed(parts[i].as_slice());
            return Some(
                GeneratedMarkerEvidence {
                    path: crate::text::owned(relative),
                    line: i + 1,
                    marker: string_of(marker.as_slice()),
                },
            );
        }
        i = i + 1;
    }
    None
}

/// The four phrases that mark a generated file.
pub open spec fn generated_phrase(p: Seq<char>) -> bool {
    p == "@generated"@ || p == "do not edit"@ || p == "automatically generated"@ || p
        == "auto-generated"@
}

/// A line marks its file as generated exactly when, lowercased, it holds one
/// of the phrases `@generated`, `do not edit`, `automatically generated` or
/// `auto-generated` somewhere: for instance a bindgen header
/// `/* automatically generated by rust-bindgen */` is a marker.
pub proof fn lemma_strong_marker_phrases(line: Seq<char>)
    ensures
        strong_marker(line) <==> exists|p: Seq<char>, i: int|
            generated_phrase(p) && 0 <= i && i + p.len() <= line.len() && #[trigger] lower(line).subrange(
                i,
                i + p.len(),
            ) == p,
{
    let l = lower(line);
    assert(l.len() == line.len());
    if strong_marker(line) {
        let p = if contains_sub(l, "@generated"@) {
            "@generated"@
        } else if contains_sub(l, "do not edit"@) {
            "do not edit"@
        } else if contains_sub(l, "automatically generated"@) {
            "automatically generated"@
        } else {
            "auto-generated"@
        };
        assert(generated_phrase(p));
        let i = choose|i: int| 0 <= i && i + p.len() <= line.len() && #[trigger] l.subrange(i, i + p.len()) == p;
    }
    if exists|p: Seq<char>, i: int|
        generated_phrase(p) && 0 <= i && i + p.len() <= line.len() && #[trigger] lower(line).subrange(
            i,
            i + p.len(),
        ) == p {
        let (p, i) = choose|p: Seq<char>, i: int|
            generated_phrase(p) && 0 <= i && i + p.len() <= line.len() && #[trigger] lower(line).subrange(
                i,
                i + p.len(),
            ) == p;
        assert(contains_sub(l, p));
    }
}

} // verus!
