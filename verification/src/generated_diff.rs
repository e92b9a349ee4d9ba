//! Generated-companion evidence: the batched source history of a generator
//! input, the syntax cohort of its commits, and the finding raised when a
//! source edit omits the generated output that always followed it.
use vstd::prelude::*;

use crate::finding::{Claim, ClaimKind, Evidence, Finding, Location};
use crate::git_stream::{
    byte_lines, exceeded_message, lemma_line_end_bounds, line_end, line_text,
    read_text_line_bounded, LineReader, StreamError, StreamErrorKind, MAX_LOG_LINE_BYTES,
};
use crate::history::first_unit_separator;
use crate::log_records::{
    empty_tally, tally_changed, tally_changed_exec, tally_offer, tally_offer_exec, PathTally,
    TallyView,
};
use crate::text::{
    chars_of, extend_str, is_ws, is_ws_exec, push_decimal, slice_chars, string_of, trim,
    trim_start, trimmed,
};
use crate::validate::{contains_string, strings_view};

verus! {

pub const MAX_HISTORY_COMMITS: usize = 100;

pub const MAX_PATHS_PER_COMMIT: usize = 100;

pub const MIN_SYNTAX_COHORT: usize = 3;

pub const EXAMPLE_LIMIT: usize = 3;

/// One commit of a generator input's history.
#[derive(Debug, Clone, Eq, PartialEq)]
pub struct SourceHistoryRecord {
    pub sha: String,
    pub parent: Option<String>,
    pub subject: String,
    pub paths: Vec<String>,
    pub changed_paths: usize,
}

pub struct SourceHeaderView {
    pub sha: Seq<char>,
    pub parent: Option<Seq<char>>,
    pub subject: Seq<char>,
}

pub struct SourceRecordView {
    pub header: SourceHeaderView,
    pub paths: Seq<Seq<char>>,
    pub changed_paths: nat,
}

pub open spec fn opt_chars(o: Option<String>) -> Option<Seq<char>> {
    match o {
        Some(s) => Some(s@),
        None => None,
    }
}

impl SourceHistoryRecord {
    pub open spec fn record_view(&self) -> SourceRecordView {
        SourceRecordView {
            header: SourceHeaderView {
                sha: self.sha@,
                parent: opt_chars(self.parent),
                subject: self.subject@,
            },
            paths: strings_view(self.paths@),
            changed_paths: self.changed_paths as nat,
        }
    }
}

pub open spec fn records_view(rs: Seq<SourceHistoryRecord>) -> Seq<SourceRecordView> {
    rs.map_values(|r: SourceHistoryRecord| r.record_view())
}

/// Trailing newline and carriage-return characters removed.
pub open spec fn strip_line_endings(s: Seq<char>) -> Seq<char>
    decreases s.len(),
{
    if s.len() > 0 && (s.last() == '\n' || s.last() == '\r') {
        strip_line_endings(s.drop_last())
    } else {
        s
    }
}

/// The first whitespace-separated word, if any.
pub open spec fn first_word(s: Seq<char>) -> Option<Seq<char>> {
    let t = trim_start(s);
    if t.len() == 0 {
        None
    } else if exists|i: int| 0 <= i < t.len() && is_ws(#[trigger] t[i]) {
        let k = choose|k: int|
            0 <= k < t.len() && is_ws(t[k]) && forall|j: int| 0 <= j < k ==> !is_ws(#[trigger] t[j]);
        Some(t.take(k))
    } else {
        Some(t)
    }
}

/// `%H%x1f%P%x1f%s` after the line ending: sha (trimmed), the first parent
/// if any, and the subject (trimmed, keeping further separators).
pub open spec fn source_summary(metadata: Seq<char>) -> Option<SourceHeaderView> {
    let t = strip_line_endings(metadata);
    match first_unit_separator(t) {
        None => None,
        Some(a) => {
            let rest = t.skip(a + 1);
            match first_unit_separator(rest) {
                None => None,
                Some(b) => Some(
                    SourceHeaderView {
                        sha: trim(t.take(a)),
                        parent: first_word(rest.take(b)),
                        subject: trim(rest.skip(b + 1)),
                    },
                ),
            }
        },
    }
}

fn strip_line_endings_exec(s: &[char]) -> (r: Vec<char>)
    ensures
        r@ == strip_line_endings(s@),
{
    let mut n = s.len();
    assert(s@.take(n as int) =~= s@);
    while n > 0 && (s[n - 1] == '\n' || s[n - 1] == '\r')
        invariant
            n <= s.len(),
            strip_line_endings(s@) == strip_line_endings(s@.take(n as int)),
        decreases n,
    {
        assert(s@.take(n as int).drop_last() =~= s@.take(n - 1));
        n = n - 1;
    }
    assert(s@.take(n as int) == s@.subrange(0, n as int));
    slice_chars(s, 0, n)
}

fn first_word_exec(s: &[char]) -> (r: Option<Vec<char>>)
    ensures
        match r {
            Some(w) => first_word(s@) == Some(w@),
            None => first_word(s@) is None,
        },
{
    let t = crate::text::trim_start_chars(s);
    if t.len() == 0 {
        return None;
    }
    let mut i: usize = 0;
    while i < t.len()
        invariant
            i <= t@.len(),
            t@ == trim_start(s@),
            t@.len() > 0,
            forall|j: int| 0 <= j < i ==> !is_ws(#[trigger] t@[j]),
        decreases t.len() - i,
    {
        if is_ws_exec(t[i]) {
            proof {
                let k = choose|k: int|
                    0 <= k < t@.len() && is_ws(t@[k]) && forall|j: int|
                        0 <= j < k ==> !is_ws(#[trigger] t@[j]);
                if k < i {
                    assert(!is_ws(t@[k]));
                } else if k > i {
                    assert(is_ws(t@[i as int]));
                }
            }
            return Some(slice_chars(t.as_slice(), 0, i));
        }
        i = i + 1;
    }
    assert(t@.take(i as int) =~= t@);
    let n = t.len();
    Some(slice_chars(t.as_slice(), 0, n))
}

fn find_unit_separator(s: &[char]) -> (r: Option<usize>)
    ensures
        match r {
            Some(k) => first_unit_separator(s@) == Some(k as int) && k < s@.len(),
            None => first_unit_separator(s@) is None,
        },
{
    let mut i: usize = 0;
    while i < s.len()
        invariant
            i <= s@.len(),
            forall|j: int| 0 <= j < i ==> s@[j] != '\u{1f}',
        decreases s.len() - i,
    {
        if s[i] == '\u{1f}' {
            proof {
                let k = choose|k: int|
                    0 <= k < s@.len() && s@[k] == '\u{1f}' && forall|j: int|
                        0 <= j < k ==> s@[j] != '\u{1f}';
                if k > i {
                    assert(s@[i as int] == '\u{1f}');
                }
            }
            return Some(i);
        }
        i = i + 1;
    }
    None
}

/// Reads a source-history record's metadata: sha, first parent, subject.
pub fn source_history_summary(metadata: &str) -> (r: Option<(String, Option<String>, String)>)
    ensures
        match r {
            Some((sha, parent, subject)) => source_summary(metadata@) == Some(
                SourceHeaderView { sha: sha@, parent: opt_chars(parent), subject: subject@ },
            ),
            None => source_summary(metadata@) is None,
        },
{
    let mc = chars_of(metadata);
    let t = strip_line_endings_exec(mc.as_slice());
    let a = match find_unit_separator(t.as_slice()) {
        None => return None,
        Some(a) => a,
    };
    let tl = t.len();
    assert(a < tl);
    let rest = slice_chars(t.as_slice(), a + 1, tl);
    assert(rest@ == t@.skip(a + 1));
    let b = match find_unit_separator(rest.as_slice()) {
        None => return None,
        Some(b) => b,
    };
    let rl = rest.len();
    assert(b < rl);
    let sha_part = slice_chars(t.as_slice(), 0, a);
    let parent_part = slice_chars(rest.as_slice(), 0, b);
    let subject_part = slice_chars(rest.as_slice(), b + 1, rl);
    assert(sha_part@ == t@.take(a as int));
    assert(parent_part@ == rest@.take(b as int));
    assert(subject_part@ == rest@.skip(b + 1));
    let sha = trimmed(sha_part.as_slice());
    let parent = match first_word_exec(parent_part.as_slice()) {
        Some(w) => Some(string_of(w.as_slice())),
        None => None,
    };
    let subject = trimmed(subject_part.as_slice());
    Some((string_of(sha.as_slice()), parent, string_of(subject.as_slice())))
}

pub struct SourceState {
    pub records: Seq<SourceRecordView>,
    pub current: Option<(SourceHeaderView, TallyView)>,
    pub malformed: bool,
}

pub open spec fn finish_source(h: SourceHeaderView, t: TallyView, max: usize) -> SourceRecordView {
    SourceRecordView { header: h, paths: t.paths, changed_paths: tally_changed(t, max) }
}

/// One line of the source history, as for the anchor history.
pub open spec fn source_step(st: SourceState, line: Seq<char>, max: usize) -> SourceState {
    if st.malformed {
        st
    } else if line.len() > 0 && line[0] == '\u{1e}' {
        let records = match st.current {
            Some((h, t)) => st.records.push(finish_source(h, t, max)),
            None => st.records,
        };
        match source_summary(line.drop_first()) {
            Some(h) => SourceState { records, current: Some((h, empty_tally())), malformed: false },
            None => SourceState { records, current: None, malformed: true },
        }
    } else {
        match st.current {
            Some((h, t)) => {
                let p = trim(line);
                if p.len() > 0 {
                    SourceState { current: Some((h, tally_offer(t, max, p))), ..st }
                } else {
                    st
                }
            },
            None => if trim(line).len() > 0 {
                SourceState { malformed: true, ..st }
            } else {
                st
            },
        }
    }
}

/// Runs the lines; a line over the log bound or not UTF-8 fails the stream.
pub open spec fn source_lines(st: SourceState, lines: Seq<Seq<u8>>, max: usize) -> Result<
    SourceState,
    Seq<char>,
>
    decreases lines.len(),
{
    if lines.len() == 0 {
        Ok(st)
    } else if lines[0].len() > MAX_LOG_LINE_BYTES {
        Err(exceeded_message(MAX_LOG_LINE_BYTES))
    } else {
        match line_text(lines[0]) {
            None => Err("streamed line is not valid UTF-8"@),
            Some(t) => source_lines(source_step(st, t, max), lines.drop_first(), max),
        }
    }
}

pub open spec fn source_result(st: SourceState, max: usize) -> Option<Seq<SourceRecordView>> {
    if st.malformed {
        None
    } else {
        Some(
            match st.current {
                Some((h, t)) => st.records.push(finish_source(h, t, max)),
                None => st.records,
            },
        )
    }
}

pub open spec fn source_log(input: Seq<u8>, max: usize) -> Result<
    Option<Seq<SourceRecordView>>,
    Seq<char>,
> {
    match source_lines(
        SourceState { records: Seq::empty(), current: None, malformed: false },
        byte_lines(input),
        max,
    ) {
        Err(e) => Err(e),
        Ok(st) => Ok(source_result(st, max)),
    }
}

struct SourceCursor {
    records: Vec<SourceHistoryRecord>,
    current: Option<(String, Option<String>, String, PathTally)>,
    malformed: bool,
}

spec fn source_cursor_view(c: SourceCursor) -> SourceState {
    SourceState {
        records: records_view(c.records@),
        current: match c.current {
            Some((sha, parent, subject, t)) => Some(
                (
                    SourceHeaderView { sha: sha@, parent: opt_chars(parent), subject: subject@ },
                    t.tally_view(),
                ),
            ),
            None => None,
        },
        malformed: c.malformed,
    }
}

spec fn source_cursor_bounded(c: SourceCursor, max: usize, offers: nat) -> bool {
    match c.current {
        Some((_, _, _, t)) => t.bounded_by(max, offers),
        None => true,
    }
}

fn finish_source_exec(
    sha: String,
    parent: Option<String>,
    subject: String,
    tally: PathTally,
    max: usize,
    Ghost(offers): Ghost<nat>,
) -> (r: SourceHistoryRecord)
    requires
        tally.bounded_by(max, offers),
        offers <= usize::MAX,
    ensures
        r.record_view() == finish_source(
            SourceHeaderView { sha: sha@, parent: opt_chars(parent), subject: subject@ },
            tally.tally_view(),
            max,
        ),
{
    let changed = tally_changed_exec(&tally, max, Ghost(offers));
    SourceHistoryRecord { sha, parent, subject, paths: tally.set.paths, changed_paths: changed }
}

fn push_record(records: &mut Vec<SourceHistoryRecord>, r: SourceHistoryRecord)
    ensures
        records_view(final(records)@) == records_view(old(records)@).push(r.record_view()),
{
    let ghost before = records@;
    let ghost rv = r.record_view();
    records.push(r);
    assert(records_view(records@) =~= records_view(before).push(rv));
}

/// Streams the batched source-history feed of one generator input (lines of
/// at most `MAX_LOG_LINE_BYTES` bytes).
pub fn stream_source_history_log(input: &[u8], max_paths_per_commit: usize) -> (r: Result<
    Option<Vec<SourceHistoryRecord>>,
    StreamError,
>)
    ensures
        match source_log(input@, max_paths_per_commit) {
            Err(m) => r matches Err(e) && e.message@ == m && e.kind == StreamErrorKind::InvalidData,
            Ok(None) => r matches Ok(None),
            Ok(Some(rs)) => r matches Ok(Some(v)) && records_view(v@) == rs,
        },
{
    let max = max_paths_per_commit;
    let mut bytes: Vec<u8> = Vec::new();
    let mut k: usize = 0;
    while k < input.len()
        invariant
            k <= input.len(),
            bytes@ == input@.take(k as int),
        decreases input.len() - k,
    {
        bytes.push(input[k]);
        k = k + 1;
        assert(bytes@ == input@.take(k as int));
    }
    assert(input@.take(input.len() as int) == input@);
    let total = bytes.len();
    let mut reader = LineReader::new(bytes);
    let mut st = SourceCursor { records: Vec::new(), current: None, malformed: false };
    assert(records_view(st.records@) =~= Seq::<SourceRecordView>::empty());
    let mut text = String::new();
    let mut scratch: Vec<u8> = Vec::new();
    let mut done = false;
    while !done
        invariant
            reader.wf(),
            max == max_paths_per_commit,
            total == input@.len(),
            reader.remaining().len() <= total,
            source_lines(
                SourceState { records: Seq::empty(), current: None, malformed: false },
                byte_lines(input@),
                max,
            ) == source_lines(source_cursor_view(st), byte_lines(reader.remaining()), max),
            source_cursor_bounded(st, max, (total - reader.remaining().len()) as nat),
            done ==> reader.remaining().len() == 0,
        decreases reader.remaining().len() + if done {
            0int
        } else {
            1int
        },
    {
        let ghost rem = reader.remaining();
        proof {
            reader.lemma_remaining_fits();
            lemma_line_end_bounds(rem);
        }
        let read = read_text_line_bounded(&mut reader, &mut text, &mut scratch, MAX_LOG_LINE_BYTES);
        proof {
            if rem.len() > 0 {
                assert(byte_lines(rem) == seq![rem.take(line_end(rem))] + byte_lines(
                    rem.skip(line_end(rem)),
                ));
                assert(byte_lines(rem)[0] == rem.take(line_end(rem)));
                assert(byte_lines(rem).drop_first() =~= byte_lines(rem.skip(line_end(rem))));
            } else {
                assert(byte_lines(rem).len() == 0);
                assert(rem.take(0) =~= Seq::<u8>::empty());
                assert(vstd::utf8::valid_utf8(Seq::<u8>::empty()));
            }
        }
        match read {
            Err(e) => {
                proof {
                    if rem.len() == 0 {
                        assert(line_text(rem.take(0)) is Some);
                    }
                    assert(rem.len() > 0);
                    assert(byte_lines(rem)[0].len() == line_end(rem));
                }
                return Err(e);
            },
            Ok(n) => {
                if n == 0 {
                    done = true;
                } else if !st.malformed {
                    let ghost consumed_before = (total - rem.len()) as nat;
                    let tc = chars_of(text.as_str());
                    if tc.len() > 0 && tc[0] == '\u{1e}' {
                        let meta = slice_chars(tc.as_slice(), 1, tc.len());
                        assert(meta@ == text@.drop_first());
                        match st.current.take() {
                            Some((sha, parent, subject, t)) => {
                                let r = finish_source_exec(
                                    sha,
                                    parent,
                                    subject,
                                    t,
                                    max,
                                    Ghost(consumed_before),
                                );
                                push_record(&mut st.records, r);
                            },
                            None => {},
                        }
                        match source_history_summary(string_of(meta.as_slice()).as_str()) {
                            Some((sha, parent, subject)) => st.current = Some(
                                (sha, parent, subject, PathTally::new()),
                            ),
                            None => st.malformed = true,
                        }
                    } else {
                        let p = trimmed(tc.as_slice());
                        match st.current.take() {
                            Some((sha, parent, subject, t)) => {
                                let mut t = t;
                                if p.len() > 0 {
                                    tally_offer_exec(
                                        &mut t,
                                        max,
                                        string_of(p.as_slice()).as_str(),
                                        Ghost(consumed_before),
                                    );
                                }
                                st.current = Some((sha, parent, subject, t));
                            },
                            None => {
                                if p.len() > 0 {
                                    st.malformed = true;
                                }
                            },
                        }
                    }
                }
            },
        }
    }
    if st.malformed {
        return Ok(None);
    }
    match st.current.take() {
        Some((sha, parent, subject, t)) => {
            let r = finish_source_exec(
                sha,
                parent,
                subject,
                t,
                max,
                Ghost((total - reader.remaining().len()) as nat),
            );
            push_record(&mut st.records, r);
        },
        None => {},
    }
    Ok(Some(st.records))
}

// ---------------------------------------------------------------------------
// The syntax cohort.

/// How one source commit changed its generator input.
#[derive(Debug, Clone, Copy, Eq, PartialEq, Structural)]
pub enum SourceChangeClass {
    SyntaxChanged,
    CommentsOrDocsOnly,
    Unclassified,
}

#[derive(Debug, Clone, Eq, PartialEq)]
pub struct CohortExample {
    pub sha: String,
    pub subject: String,
}

/// The comparable source commits of a generator input and how many of them
/// also changed the generated output.
#[derive(Debug, Clone, Eq, PartialEq)]
pub struct SyntaxCohort {
    pub support: usize,
    pub opportunities: usize,
    pub comments_or_docs_only: usize,
    pub unclassified: usize,
    pub examples: Vec<CohortExample>,
}

/// A considered source commit with the class of its change.
#[derive(Debug, Clone, Eq, PartialEq)]
pub struct ClassifiedSourceCommit {
    pub sha: String,
    pub subject: String,
    pub paths: Vec<String>,
    pub class: SourceChangeClass,
}

pub struct CohortView {
    pub support: nat,
    pub opportunities: nat,
    pub comments_or_docs_only: nat,
    pub unclassified: nat,
    pub examples: Seq<(Seq<char>, Seq<char>)>,
}

pub struct ClassifiedView {
    pub sha: Seq<char>,
    pub subject: Seq<char>,
    pub paths: Seq<Seq<char>>,
    pub class: SourceChangeClass,
}

impl View for SyntaxCohort {
    type V = CohortView;

    open spec fn view(&self) -> CohortView {
        CohortView {
            support: self.support as nat,
            opportunities: self.opportunities as nat,
            comments_or_docs_only: self.comments_or_docs_only as nat,
            unclassified: self.unclassified as nat,
            examples: self.examples@.map_values(|e: CohortExample| (e.sha@, e.subject@)),
        }
    }
}

impl View for ClassifiedSourceCommit {
    type V = ClassifiedView;

    open spec fn view(&self) -> ClassifiedView {
        ClassifiedView {
            sha: self.sha@,
            subject: self.subject@,
            paths: strings_view(self.paths@),
            class: self.class,
        }
    }
}

pub open spec fn classified_views(h: Seq<ClassifiedSourceCommit>) -> Seq<ClassifiedView> {
    h.map_values(|c: ClassifiedSourceCommit| c@)
}

pub open spec fn empty_cohort() -> CohortView {
    CohortView {
        support: 0,
        opportunities: 0,
        comments_or_docs_only: 0,
        unclassified: 0,
        examples: Seq::empty(),
    }
}

impl Default for SyntaxCohort {
    fn default() -> (c: SyntaxCohort)
        ensures
            c@ == empty_cohort(),
    {
        let c = SyntaxCohort {
            support: 0,
            opportunities: 0,
            comments_or_docs_only: 0,
            unclassified: 0,
            examples: Vec::new(),
        };
        assert(c@.examples =~= Seq::<(Seq<char>, Seq<char>)>::empty());
        c
    }
}

/// One commit added to the cohort: comment-only and unclassified commits
/// are counted aside; a syntax change is an opportunity, and it supports the
/// relation when it also changed `output` (the first few are kept as
/// examples).
pub open spec fn cohort_step(c: CohortView, k: ClassifiedView, output: Seq<char>) -> CohortView {
    match k.class {
        SourceChangeClass::CommentsOrDocsOnly => CohortView {
            comments_or_docs_only: c.comments_or_docs_only + 1,
            ..c
        },
        SourceChangeClass::Unclassified => CohortView { unclassified: c.unclassified + 1, ..c },
        SourceChangeClass::SyntaxChanged => if k.paths.contains(output) {
            CohortView {
                support: c.support + 1,
                opportunities: c.opportunities + 1,
                examples: if c.examples.len() < EXAMPLE_LIMIT {
                    c.examples.push((k.sha, k.subject))
                } else {
                    c.examples
                },
                ..c
            }
        } else {
            CohortView { opportunities: c.opportunities + 1, ..c }
        },
    }
}

/// The cohort of a classified history, taken in history order.
pub open spec fn cohort_of(h: Seq<ClassifiedView>, output: Seq<char>) -> CohortView
    decreases h.len(),
{
    if h.len() == 0 {
        empty_cohort()
    } else {
        cohort_step(cohort_of(h.drop_last(), output), h.last(), output)
    }
}

/// Every commit of the history is counted exactly once, supporting commits
/// are opportunities, and at most `EXAMPLE_LIMIT` examples are kept.
pub proof fn lemma_cohort_accounts_for_history(h: Seq<ClassifiedView>, output: Seq<char>)
    ensures
        cohort_of(h, output).opportunities + cohort_of(h, output).comments_or_docs_only
            + cohort_of(h, output).unclassified == h.len(),
        cohort_of(h, output).support <= cohort_of(h, output).opportunities,
        cohort_of(h, output).examples.len() <= EXAMPLE_LIMIT,
        cohort_of(h, output).examples.len() <= cohort_of(h, output).support,
    decreases h.len(),
{
    if h.len() > 0 {
        lemma_cohort_accounts_for_history(h.drop_last(), output);
    }
}

/// Counts the comparable syntax-changing commits and how many of them also
/// changed `output`.
pub fn build_syntax_cohort(history: &Vec<ClassifiedSourceCommit>, output: &str) -> (c: SyntaxCohort)
    ensures
        c@ == cohort_of(classified_views(history@), output@),
{
    let ghost h = classified_views(history@);
    let mut cohort = SyntaxCohort::default();
    let mut i: usize = 0;
    while i < history.len()
        invariant
            i <= history@.len(),
            h == classified_views(history@),
            cohort@ == cohort_of(h.take(i as int), output@),
        decreases history.len() - i,
    {
        let commit = &history[i];
        proof {
            assert(h.take(i + 1).drop_last() =~= h.take(i as int));
            assert(h.take(i + 1).last() == commit@);
            lemma_cohort_accounts_for_history(h.take(i as int), output@);
        }
        match commit.class {
            SourceChangeClass::CommentsOrDocsOnly => {
                cohort.comments_or_docs_only = cohort.comments_or_docs_only + 1;
            },
            SourceChangeClass::Unclassified => {
                cohort.unclassified = cohort.unclassified + 1;
            },
            SourceChangeClass::SyntaxChanged => {
                cohort.opportunities = cohort.opportunities + 1;
                if contains_string(&commit.paths, output) {
                    cohort.support = cohort.support + 1;
                    if cohort.examples.len() < EXAMPLE_LIMIT {
                        let ghost before = cohort.examples@;
                        let e = CohortExample {
                            sha: crate::text::owned(commit.sha.as_str()),
                            subject: crate::text::owned(commit.subject.as_str()),
                        };
                        cohort.examples.push(e);
                        assert(cohort.examples@.map_values(
                            |e: CohortExample| (e.sha@, e.subject@),
                        ) =~= before.map_values(|e: CohortExample| (e.sha@, e.subject@)).push(
                            (commit.sha@, commit.subject@),
                        ));
                    }
                }
            },
        }
        i = i + 1;
    }
    assert(h.take(i as int) =~= h);
    cohort
}

/// A relation is owed its companion only when every one of at least
/// `MIN_SYNTAX_COHORT` comparable commits also changed the output.
pub open spec fn companion_expected(c: CohortView) -> bool {
    c.opportunities >= MIN_SYNTAX_COHORT && c.support == c.opportunities
}

pub fn requires_companion(cohort: &SyntaxCohort) -> (r: bool)
    ensures
        r == companion_expected(cohort@),
{
    cohort.opportunities >= MIN_SYNTAX_COHORT && cohort.support == cohort.opportunities
}

/// The class of a source commit from the syntax fingerprints of the input
/// before and after it (`None` where the version or its fingerprint is
/// missing).
pub open spec fn change_class(before: Option<Seq<char>>, after: Option<Seq<char>>) -> SourceChangeClass {
    match (before, after) {
        (Some(b), Some(a)) => if b == a {
            SourceChangeClass::CommentsOrDocsOnly
        } else {
            SourceChangeClass::SyntaxChanged
        },
        _ => SourceChangeClass::Unclassified,
    }
}

pub fn classify_source_change(before: &Option<String>, after: &Option<String>) -> (r:
    SourceChangeClass)
    ensures
        r == change_class(opt_chars(*before), opt_chars(*after)),
{
    match (before, after) {
        (Some(b), Some(a)) => {
            let bc = chars_of(b.as_str());
            let ac = chars_of(a.as_str());
            if crate::text::chars_eq(bc.as_slice(), ac.as_slice()) {
                SourceChangeClass::CommentsOrDocsOnly
            } else {
                SourceChangeClass::SyntaxChanged
            }
        },
        _ => SourceChangeClass::Unclassified,
    }
}

/// A source commit is considered unless it is a revert or broad.
pub open spec fn considered_source(r: SourceRecordView) -> bool {
    !crate::history::revert_subject(r.header.subject) && r.changed_paths <= MAX_PATHS_PER_COMMIT
}

/// The records of the source history that enter the cohort, in order.
pub fn considered_source_records(records: &Vec<SourceHistoryRecord>) -> (r: Vec<SourceHistoryRecord>)
    ensures
        records_view(r@) == records_view(records@).filter(|v: SourceRecordView| considered_source(v)),
{
    let ghost rs = records_view(records@);
    let ghost pred = |v: SourceRecordView| considered_source(v);
    let mut out: Vec<SourceHistoryRecord> = Vec::new();
    let mut i: usize = 0;
    assert(rs.take(0) =~= Seq::<SourceRecordView>::empty());
    while i < records.len()
        invariant
            i <= records@.len(),
            rs == records_view(records@),
            pred == (|v: SourceRecordView| considered_source(v)),
            records_view(out@) == rs.take(i as int).filter(pred),
        decreases records.len() - i,
    {
        let r = &records[i];
        assert(r.record_view() == rs[i as int]);
        proof {
            reveal_with_fuel(Seq::filter, 1);
            assert(rs.take(i + 1).drop_last() =~= rs.take(i as int));
            assert(rs.take(i + 1).last() == rs[i as int]);
        }
        if !crate::history::is_revert_subject(r.subject.as_str())
            && r.changed_paths <= MAX_PATHS_PER_COMMIT {
            let copy = SourceHistoryRecord {
                sha: crate::text::owned(r.sha.as_str()),
                parent: crate::cmux_review::copy_opt_string(&r.parent),
                subject: crate::text::owned(r.subject.as_str()),
                paths: crate::cmux_review::copy_strings(&r.paths),
                changed_paths: r.changed_paths,
            };
            assert(copy.record_view() == r.record_view());
            push_record(&mut out, copy);
        }
        i = i + 1;
    }
    assert(rs.take(i as int) =~= rs);
    out
}

/// A considered source record with the class of its change.
pub fn classify_source_commit(
    record: &SourceHistoryRecord,
    before: &Option<String>,
    after: &Option<String>,
) -> (c: ClassifiedSourceCommit)
    ensures
        c@ == (ClassifiedView {
            sha: record.sha@,
            subject: record.subject@,
            paths: strings_view(record.paths@),
            class: change_class(opt_chars(*before), opt_chars(*after)),
        }),
{
    ClassifiedSourceCommit {
        sha: crate::text::owned(record.sha.as_str()),
        subject: crate::text::owned(record.subject.as_str()),
        paths: crate::cmux_review::copy_strings(&record.paths),
        class: classify_source_change(before, after),
    }
}

// ---------------------------------------------------------------------------
// The finding.

/// A generator relation: the Cargo alias and package that run `function`,
/// which reads `input` and writes `output`.
#[derive(Debug, Clone, Eq, PartialEq)]
pub struct GeneratorRelation {
    pub alias: String,
    pub package: String,
    pub function: String,
    pub generator_path: String,
    pub input: String,
    pub output: String,
}

/// The first eight bytes of a sha when they end on a character boundary,
/// else the whole sha; `k` characters have been passed, covering fewer than
/// eight bytes.
pub open spec fn short_sha_from(s: Seq<char>, k: int) -> Seq<char>
    decreases s.len() - k,
{
    if k < 0 || k >= s.len() {
        s
    } else if crate::text::byte_len(s.take(k + 1)) == 8 {
        s.take(k + 1)
    } else if crate::text::byte_len(s.take(k + 1)) > 8 {
        s
    } else {
        short_sha_from(s, k + 1)
    }
}

pub open spec fn short_sha(s: Seq<char>) -> Seq<char> {
    short_sha_from(s, 0)
}

pub fn short_sha_exec(sha: &str) -> (r: Vec<char>)
    ensures
        r@ == short_sha(sha@),
{
    let cs = chars_of(sha);
    let mut total: usize = 0;
    let mut k: usize = 0;
    while k < cs.len()
        invariant
            k <= cs@.len(),
            cs@ == sha@,
            total == crate::text::byte_len(cs@.take(k as int)),
            total < 8,
            short_sha(sha@) == short_sha_from(sha@, k as int),
        decreases cs.len() - k,
    {
        let u = cs[k] as u32;
        let w: usize = if u < 0x80 {
            1
        } else if u < 0x800 {
            2
        } else if u < 0x10000 {
            3
        } else {
            4
        };
        assert(cs@.take(k + 1).drop_last() =~= cs@.take(k as int));
        total = total + w;
        if total == 8 {
            return slice_chars(cs.as_slice(), 0, k + 1);
        }
        if total > 8 {
            return cs;
        }
        k = k + 1;
    }
    cs
}

pub struct RelationView {
    pub alias: Seq<char>,
    pub package: Seq<char>,
    pub function: Seq<char>,
    pub generator_path: Seq<char>,
    pub input: Seq<char>,
    pub output: Seq<char>,
}

impl View for GeneratorRelation {
    type V = RelationView;

    open spec fn view(&self) -> RelationView {
        RelationView {
            alias: self.alias@,
            package: self.package@,
            function: self.function@,
            generator_path: self.generator_path@,
            input: self.input@,
            output: self.output@,
        }
    }
}

pub open spec fn bare(message: Seq<char>) -> crate::finding::EvidenceSpec {
    crate::finding::EvidenceSpec { message, location: None }
}

pub open spec fn located(message: Seq<char>, path: Seq<char>, line: Option<usize>) -> crate::finding::EvidenceSpec {
    crate::finding::EvidenceSpec {
        message,
        location: Some(crate::finding::LocationSpec { path, line }),
    }
}

pub open spec fn example_evidence(e: (Seq<char>, Seq<char>)) -> crate::finding::EvidenceSpec {
    bare("Example "@ + short_sha(e.0) + ": "@ + e.1)
}

pub open spec fn count_note(n: nat, text: Seq<char>) -> Seq<crate::finding::EvidenceSpec> {
    if n > 0 {
        seq![bare(crate::text::decimal(n) + text)]
    } else {
        Seq::empty()
    }
}

pub open spec fn comments_note() -> Seq<char> {
    " comment/doc/whitespace-only source commit(s) were excluded from the syntax cohort."@
}

pub open spec fn unclassified_note() -> Seq<char> {
    " source commit(s) could not be classified and were excluded from the syntax cohort."@
}

/// The historical claim: support over opportunities with `percent` (the
/// ratio as a percentage with one decimal), then the examples and the
/// excluded counts.
pub open spec fn historical_claim(r: RelationView, c: CohortView, percent: Seq<char>) -> crate::finding::ClaimSpec {
    crate::finding::ClaimSpec {
        kind: ClaimKind::Observed,
        message: "`"@ + r.output + "` changed in "@ + crate::text::decimal(c.support) + "/"@
            + crate::text::decimal(c.opportunities) + " comparable Rust syntax-changing commits for `"@
            + r.input + "` ("@ + percent + "%)."@,
        evidence: c.examples.map_values(|e: (Seq<char>, Seq<char>)| example_evidence(e)) + count_note(
            c.comments_or_docs_only,
            comments_note(),
        ) + count_note(c.unclassified, unclassified_note()),
    }
}

pub open spec fn ownership_unknown() -> Seq<char> {
    "Repository evidence establishes generation ownership and precedent, but it does not establish whether this current absence is intentional or whether this source edit changes generated bytes."@
}

/// The finding raised when a syntax change of `input` omits `output`.
pub open spec fn companion_finding(
    r: RelationView,
    marker_line: usize,
    marker: Seq<char>,
    c: CohortView,
    percent: Seq<char>,
) -> crate::finding::FindingSpec {
    crate::finding::FindingSpec {
        kind: "generated-companion-missing"@,
        title: "Generated companion absent from source syntax change"@,
        location: Some(crate::finding::LocationSpec { path: r.input, line: None }),
        claims: seq![
            crate::finding::ClaimSpec {
                kind: ClaimKind::Derived,
                message: "The current diff changes normalized Rust syntax in `"@ + r.input
                    + "` and omits `"@ + r.output + "`."@,
                evidence: seq![
                    located("Changed source is present in the current diff."@, r.input, None),
                    bare("`"@ + r.output + "` is absent from the current diff."@),
                ],
            },
            crate::finding::ClaimSpec {
                kind: ClaimKind::Derived,
                message: "Cargo alias `cargo "@ + r.alias + "` invokes generator package `"@
                    + r.package + "`, and `"@ + r.function + "` reads `"@ + r.input
                    + "` and writes `"@ + r.output + "`."@,
                evidence: seq![
                    located(
                        "Literal repository-path read/write relation is present in this generator source."@,
                        r.generator_path,
                        None,
                    ),
                ],
            },
            crate::finding::ClaimSpec {
                kind: ClaimKind::Observed,
                message: "`"@ + r.output
                    + "` declares itself generated and `.gitattributes` marks the exact path `linguist-generated=true`."@,
                evidence: seq![located(marker, r.output, Some(marker_line))],
            },
            historical_claim(r, c, percent),
            crate::finding::ClaimSpec {
                kind: ClaimKind::Unknown,
                message: ownership_unknown(),
                evidence: Seq::empty(),
            },
        ],
        question: Some(
            "Was `cargo "@ + r.alias + "` intentionally deferred for this source change, or is `"@
                + r.output + "` stale?"@,
        ),
    }
}

fn text_of(parts: &Vec<char>) -> (s: String)
    ensures
        s@ == parts@,
{
    string_of(parts.as_slice())
}

fn historical_claim_exec(relation: &GeneratorRelation, cohort: &SyntaxCohort, percent: &str) -> (c:
    Claim)
    ensures
        c@ == historical_claim(relation@, cohort@, percent@),
{
    let mut m = chars_of("`");
    extend_str(&mut m, relation.output.as_str());
    extend_str(&mut m, "` changed in ");
    push_decimal(&mut m, cohort.support);
    extend_str(&mut m, "/");
    push_decimal(&mut m, cohort.opportunities);
    extend_str(&mut m, " comparable Rust syntax-changing commits for `");
    extend_str(&mut m, relation.input.as_str());
    extend_str(&mut m, "` (");
    extend_str(&mut m, percent);
    extend_str(&mut m, "%).");
    let mut claim = Claim::new(ClaimKind::Observed, text_of(&m).as_str());
    let ghost exs = cohort@.examples;
    let ghost ev = exs.map_values(|e: (Seq<char>, Seq<char>)| example_evidence(e));
    let mut i: usize = 0;
    while i < cohort.examples.len()
        invariant
            i <= cohort.examples@.len(),
            exs == cohort@.examples,
            ev == exs.map_values(|e: (Seq<char>, Seq<char>)| example_evidence(e)),
            claim@.kind == ClaimKind::Observed,
            claim@.message == m@,
            claim@.evidence == ev.take(i as int),
        decreases cohort.examples.len() - i,
    {
        let example = &cohort.examples[i];
        let mut t = chars_of("Example ");
        let short = short_sha_exec(example.sha.as_str());
        crate::text::extend_chars(&mut t, short.as_slice());
        extend_str(&mut t, ": ");
        extend_str(&mut t, example.subject.as_str());
        assert(exs[i as int] == (example.sha@, example.subject@));
        claim = claim.with_evidence(Evidence::new(text_of(&t).as_str()));
        i = i + 1;
        assert(claim@.evidence =~= ev.take(i as int));
    }
    assert(ev.take(i as int) =~= ev);
    if cohort.comments_or_docs_only > 0 {
        let mut t: Vec<char> = Vec::new();
        push_decimal(&mut t, cohort.comments_or_docs_only);
        extend_str(
            &mut t,
            " comment/doc/whitespace-only source commit(s) were excluded from the syntax cohort.",
        );
        claim = claim.with_evidence(Evidence::new(text_of(&t).as_str()));
    }
    let ghost after_comments = claim@.evidence;
    assert(after_comments =~= ev + count_note(cohort@.comments_or_docs_only, comments_note()));
    if cohort.unclassified > 0 {
        let mut t: Vec<char> = Vec::new();
        push_decimal(&mut t, cohort.unclassified);
        extend_str(
            &mut t,
            " source commit(s) could not be classified and were excluded from the syntax cohort.",
        );
        claim = claim.with_evidence(Evidence::new(text_of(&t).as_str()));
    }
    assert(claim@.evidence =~= after_comments + count_note(cohort@.unclassified, unclassified_note()));
    claim
}

/// The missing-companion finding for one relation, its generated marker and
/// its cohort; `percent` is the support ratio as a percentage rendered with
/// one decimal.
pub fn build_finding(
    relation: &GeneratorRelation,
    marker: &crate::history::GeneratedMarkerEvidence,
    cohort: &SyntaxCohort,
    percent: &str,
) -> (f: Finding)
    ensures
        f@ == companion_finding(relation@, marker.line, marker.marker@, cohort@, percent@),
{
    let input = relation.input.as_str();
    let output = relation.output.as_str();

    let mut m1 = chars_of("The current diff changes normalized Rust syntax in `");
    extend_str(&mut m1, input);
    extend_str(&mut m1, "` and omits `");
    extend_str(&mut m1, output);
    extend_str(&mut m1, "`.");
    let mut absent = chars_of("`");
    extend_str(&mut absent, output);
    extend_str(&mut absent, "` is absent from the current diff.");
    let first = Claim::new(ClaimKind::Derived, text_of(&m1).as_str()).with_evidence(
        Evidence::at("Changed source is present in the current diff.", Location::new(input, None)),
    ).with_evidence(Evidence::new(text_of(&absent).as_str()));

    let mut m2 = chars_of("Cargo alias `cargo ");
    extend_str(&mut m2, relation.alias.as_str());
    extend_str(&mut m2, "` invokes generator package `");
    extend_str(&mut m2, relation.package.as_str());
    extend_str(&mut m2, "`, and `");
    extend_str(&mut m2, relation.function.as_str());
    extend_str(&mut m2, "` reads `");
    extend_str(&mut m2, input);
    extend_str(&mut m2, "` and writes `");
    extend_str(&mut m2, output);
    extend_str(&mut m2, "`.");
    let second = Claim::new(ClaimKind::Derived, text_of(&m2).as_str()).with_evidence(
        Evidence::at(
            "Literal repository-path read/write relation is present in this generator source.",
            Location::new(relation.generator_path.as_str(), None),
        ),
    );

    let mut m3 = chars_of("`");
    extend_str(&mut m3, output);
    extend_str(
        &mut m3,
        "` declares itself generated and `.gitattributes` marks the exact path `linguist-generated=true`.",
    );
    let third = Claim::new(ClaimKind::Observed, text_of(&m3).as_str()).with_evidence(
        Evidence::at(marker.marker.as_str(), Location::new(output, Some(marker.line))),
    );

    let fourth = historical_claim_exec(relation, cohort, percent);

    let mut q = chars_of("Was `cargo ");
    extend_str(&mut q, relation.alias.as_str());
    extend_str(&mut q, "` intentionally deferred for this source change, or is `");
    extend_str(&mut q, output);
    extend_str(&mut q, "` stale?");

    let ghost spec_f = companion_finding(relation@, marker.line, marker.marker@, cohort@, percent@);
    assert(first@.evidence =~= spec_f.claims[0].evidence);
    assert(first@ == spec_f.claims[0]);
    assert(second@.evidence =~= spec_f.claims[1].evidence);
    assert(second@ == spec_f.claims[1]);
    assert(third@.evidence =~= spec_f.claims[2].evidence);
    assert(third@ == spec_f.claims[2]);
    let f = Finding::new(
        "generated-companion-missing",
        "Generated companion absent from source syntax change",
    ).at(Location::new(input, None)).with_claim(first).with_claim(second).with_claim(third).with_claim(
        fourth,
    ).with_claim(
        Claim::new(
            ClaimKind::Unknown,
            "Repository evidence establishes generation ownership and precedent, but it does not establish whether this current absence is intentional or whether this source edit changes generated bytes.",
        ),
    ).with_question(text_of(&q).as_str());
    assert(f@.claims =~= companion_finding(
        relation@,
        marker.line,
        marker.marker@,
        cohort@,
        percent@,
    ).claims);
    f
}

/// A relation is examined when its input is one of the changed Rust sources
/// (paths compared component by component) and its output is not among the
/// changed paths.
pub open spec fn companion_candidate_spec(r: RelationView, changed: Seq<Seq<char>>) -> bool {
    &&& crate::rust_facts::rust_source_name(r.input)
    &&& crate::rust_facts::lists_path(changed, r.input)
    &&& !crate::rust_facts::lists_path(changed, r.output)
}

pub fn companion_candidate(relation: &GeneratorRelation, changed: &Vec<String>) -> (r: bool)
    ensures
        r == companion_candidate_spec(relation@, strings_view(changed@)),
{
    crate::rust_facts::has_rust_extension(relation.input.as_str())
        && crate::rust_facts::lists_path_exec(changed, relation.input.as_str())
        && !crate::rust_facts::lists_path_exec(changed, relation.output.as_str())
}

/// The finding owed for a candidate relation whose generated output carries
/// `marker` and whose input's syntax changed, judged on the input's
/// classified history. It is owed only when every comparable commit (and at
/// least `MIN_SYNTAX_COHORT` of them) also changed the output, so the share
/// it reports is always the full one, `100.0` percent.
pub fn companion_history_finding(
    relation: &GeneratorRelation,
    marker: &crate::history::GeneratedMarkerEvidence,
    history: &Vec<ClassifiedSourceCommit>,
) -> (r: Option<Finding>)
    ensures
        match r {
            Some(f) => companion_expected(cohort_of(classified_views(history@), relation.output@))
                && f@ == companion_finding(
                relation@,
                marker.line,
                marker.marker@,
                cohort_of(classified_views(history@), relation.output@),
                "100.0"@,
            ),
            None => !companion_expected(cohort_of(classified_views(history@), relation.output@)),
        },
{
    let cohort = build_syntax_cohort(history, relation.output.as_str());
    if !requires_companion(&cohort) {
        return None;
    }
    Some(build_finding(relation, marker, &cohort, "100.0"))
}

} // verus!
