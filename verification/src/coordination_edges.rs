//! Explicit coordination edges from work metadata: a snapshot of pull
//! requests is validated, and each top-level `Do not merge while #N ...`
//! clause outside fenced code becomes a hold-merge edge between two known
//! pieces of work, with the receipt of the clause that stated it.
use vstd::prelude::*;

use crate::history::header_lines;
use crate::text::{
    all_digits, byte_len, chars_eq, chars_less, chars_of, decimal, extend_str, is_ascii_digit,
    is_ascii_digit_exec, is_ascii_hex, is_ascii_hex_exec, push_decimal, seq_less, split_chars,
    string_of, trim,
};
use crate::validate::{
    either, first_error, lemma_first_error_stable, lemma_first_error_step, msg, repeats_earlier,
};

verus! {

pub const SNAPSHOT_SCHEMA_VERSION: u32 = 1;

pub const MAX_SNAPSHOT_BYTES: usize = 1048576;

pub const MAX_WORK_ITEMS: usize = 128;

pub const MAX_BODY_BYTES: usize = 131072;

pub const MAX_BODY_LINE_BYTES: usize = 32768;

pub const MAX_SOURCE_BYTES: usize = 512;

pub const MAX_KIND_BYTES: usize = 64;

pub const MAX_TIME_BYTES: usize = 128;

pub const MAX_EDGES: usize = 512;

/// Why a snapshot was refused.
#[derive(Debug, Clone, Eq, PartialEq)]
pub struct EdgeError {
    message: String,
}

impl EdgeError {
    pub closed spec fn spec_message(&self) -> Seq<char> {
        self.message@
    }

    fn new(message: Vec<char>) -> (e: EdgeError)
        ensures
            e.spec_message() == message@,
    {
        EdgeError { message: string_of(message.as_slice()) }
    }

    /// The refusal's text.
    pub fn to_string(&self) -> (s: String)
        ensures
            s@ == self.spec_message(),
    {
        self.message.clone()
    }
}

/// The admitted metadata snapshot.
#[derive(Debug, Clone, Eq, PartialEq)]
pub struct WorkMetadataSnapshot {
    pub schema_version: u32,
    pub source: String,
    pub work: Vec<WorkMetadata>,
}

/// One piece of work and its description.
#[derive(Debug, Clone, Eq, PartialEq)]
pub struct WorkMetadata {
    pub id: String,
    pub kind: String,
    pub source: String,
    pub head_sha: String,
    pub updated_at: String,
    pub body: String,
}

#[derive(Debug, Clone, Copy, Eq, PartialEq, Structural)]
pub enum CoordinationKind {
    HoldMergeWhile,
}

#[derive(Debug, Clone, Eq, PartialEq)]
pub struct CoordinationEdge {
    pub kind: CoordinationKind,
    pub from: String,
    pub to: String,
    pub source: String,
}

#[derive(Debug, Clone, Eq, PartialEq)]
pub struct SourceReceipt {
    pub kind: CoordinationKind,
    pub from: String,
    pub to: String,
    pub source: String,
    pub source_head_sha: String,
    pub source_updated_at: String,
    pub matched_clause: String,
}

#[derive(Debug, Clone, Copy, Default, Eq, PartialEq)]
pub struct ExtractionStats {
    pub work_items_examined: usize,
    pub operative_clauses_matched: usize,
    pub self_references_ignored: usize,
    pub unresolved_endpoints_ignored: usize,
    pub duplicate_edges_ignored: usize,
}

#[derive(Debug, Clone, Eq, PartialEq)]
pub struct ExtractionReport {
    pub schema_version: u32,
    pub analysis: String,
    pub source: String,
    pub coordination_edges: Vec<CoordinationEdge>,
    pub source_receipts: Vec<SourceReceipt>,
    pub unresolved_endpoint_receipts: Vec<SourceReceipt>,
    pub stats: ExtractionStats,
    pub unknowns: Vec<String>,
}

pub struct WorkView {
    pub id: Seq<char>,
    pub kind: Seq<char>,
    pub source: Seq<char>,
    pub head_sha: Seq<char>,
    pub updated_at: Seq<char>,
    pub body: Seq<char>,
}

impl View for WorkMetadata {
    type V = WorkView;

    open spec fn view(&self) -> WorkView {
        WorkView {
            id: self.id@,
            kind: self.kind@,
            source: self.source@,
            head_sha: self.head_sha@,
            updated_at: self.updated_at@,
            body: self.body@,
        }
    }
}

pub open spec fn works_view(ws: Seq<WorkMetadata>) -> Seq<WorkView> {
    ws.map_values(|w: WorkMetadata| w@)
}

pub open spec fn ids_of(ws: Seq<WorkView>) -> Seq<Seq<char>> {
    ws.map_values(|w: WorkView| w.id)
}

// ---------------------------------------------------------------------------
// Validation.

/// A bounded, non-empty field.
pub open spec fn bounded_error(label: Seq<char>, v: Seq<char>, maximum: nat) -> Option<Seq<char>> {
    if v.len() == 0 {
        Some(label + " must not be empty"@)
    } else if byte_len(v) > maximum {
        Some(label + " is "@ + decimal(byte_len(v)) + " bytes; maximum is "@ + decimal(maximum))
    } else {
        None
    }
}

/// `#` followed by a positive decimal number without leading zeros.
pub open spec fn work_id_error(id: Seq<char>) -> Option<Seq<char>> {
    if !(id.len() > 0 && id[0] == '#') {
        Some(
            "invalid work id `"@ + id + "`; expected # followed by a positive decimal number"@,
        )
    } else {
        let digits = id.drop_first();
        if digits.len() == 0 || digits[0] == '0' || !all_digits(digits) {
            Some("invalid work id `"@ + id + "`; expected canonical positive decimal form"@)
        } else {
            None
        }
    }
}

pub open spec fn canonical_source(id: Seq<char>) -> Seq<char> {
    "github:pull/"@ + id.drop_first()
}

pub open spec fn all_hex(s: Seq<char>) -> bool {
    forall|i: int| 0 <= i < s.len() ==> is_ascii_hex(#[trigger] s[i])
}

/// The checks of one piece of work, in order.
pub open spec fn work_error(ws: Seq<WorkView>, i: int) -> Option<Seq<char>> {
    let w = ws[i];
    if work_id_error(w.id) is Some {
        work_id_error(w.id)
    } else if repeats_earlier(ids_of(ws), i) {
        Some("duplicate work id `"@ + w.id + "`"@)
    } else if bounded_error("work kind"@, w.kind, MAX_KIND_BYTES as nat) is Some {
        bounded_error("work kind"@, w.kind, MAX_KIND_BYTES as nat)
    } else if w.kind != "pull_request"@ {
        Some(
            "unsupported work kind `"@ + w.kind + "` for "@ + w.id + "; expected `pull_request`"@,
        )
    } else if bounded_error("work source"@, w.source, MAX_SOURCE_BYTES as nat) is Some {
        bounded_error("work source"@, w.source, MAX_SOURCE_BYTES as nat)
    } else if w.source != canonical_source(w.id) {
        Some(
            "work source `"@ + w.source + "` does not match canonical source `"@ + canonical_source(
                w.id,
            ) + "` for "@ + w.id,
        )
    } else if !(w.head_sha.len() == 40 && all_hex(w.head_sha)) {
        Some(w.id + " head_sha must be exactly 40 hexadecimal characters"@)
    } else if bounded_error("work updated_at"@, w.updated_at, MAX_TIME_BYTES as nat) is Some {
        bounded_error("work updated_at"@, w.updated_at, MAX_TIME_BYTES as nat)
    } else if byte_len(w.body) > MAX_BODY_BYTES {
        Some(
            w.id + " body is "@ + decimal(byte_len(w.body)) + " bytes; maximum is "@ + decimal(
                MAX_BODY_BYTES as nat,
            ),
        )
    } else {
        None
    }
}

/// The first reason a snapshot is refused, if any.
pub open spec fn snapshot_error(schema_version: u32, source: Seq<char>, ws: Seq<WorkView>) -> Option<
    Seq<char>,
> {
    if schema_version != SNAPSHOT_SCHEMA_VERSION {
        Some(
            "unsupported coordination metadata schema "@ + decimal(schema_version as nat)
                + "; expected 1"@,
        )
    } else if bounded_error("snapshot source"@, source, MAX_SOURCE_BYTES as nat) is Some {
        bounded_error("snapshot source"@, source, MAX_SOURCE_BYTES as nat)
    } else if ws.len() > MAX_WORK_ITEMS {
        Some("work item count "@ + decimal(ws.len()) + " exceeds maximum "@ + decimal(
            MAX_WORK_ITEMS as nat,
        ))
    } else {
        first_error(ws.len(), |i: int| work_error(ws, i))
    }
}

fn bounded_check(label: &str, value: &str, maximum: usize) -> (r: Option<Vec<char>>)
    ensures
        msg(r) == bounded_error(label@, value@, maximum as nat),
{
    let cs = chars_of(value);
    if cs.len() == 0 {
        let mut m = chars_of(label);
        extend_str(&mut m, " must not be empty");
        return Some(m);
    }
    let n = value.as_bytes().len();
    proof {
        crate::text::lemma_str_len_is_byte_len(value@);
    }
    if n > maximum {
        let mut m = chars_of(label);
        extend_str(&mut m, " is ");
        push_decimal(&mut m, n);
        extend_str(&mut m, " bytes; maximum is ");
        push_decimal(&mut m, maximum);
        return Some(m);
    }
    None
}

fn work_id_check(id: &str) -> (r: Option<Vec<char>>)
    ensures
        msg(r) == work_id_error(id@),
{
    let cs = chars_of(id);
    if !(cs.len() > 0 && cs[0] == '#') {
        let mut m = chars_of("invalid work id `");
        extend_str(&mut m, id);
        extend_str(&mut m, "`; expected # followed by a positive decimal number");
        return Some(m);
    }
    let mut ok = cs.len() > 1 && cs[1] != '0';
    let mut i: usize = 1;
    while i < cs.len()
        invariant
            1 <= i <= cs@.len(),
            cs@ == id@,
            cs@.len() > 0,
            ok == (cs@.len() > 1 && cs@[1] != '0' && forall|j: int|
                1 <= j < i ==> is_ascii_digit(#[trigger] cs@[j])),
        decreases cs.len() - i,
    {
        if !is_ascii_digit_exec(cs[i]) {
            ok = false;
        }
        i = i + 1;
    }
    proof {
        let d = id@.drop_first();
        if ok {
            assert forall|j: int| 0 <= j < d.len() implies is_ascii_digit(#[trigger] d[j]) by {
                assert(d[j] == cs@[j + 1]);
            }
        } else if d.len() > 0 && d[0] != '0' {
            let j = choose|j: int| 1 <= j < cs@.len() && !is_ascii_digit(#[trigger] cs@[j]);
            assert(d[j - 1] == cs@[j]);
        }
    }
    if !ok {
        let mut m = chars_of("invalid work id `");
        extend_str(&mut m, id);
        extend_str(&mut m, "`; expected canonical positive decimal form");
        return Some(m);
    }
    None
}

fn head_sha_ok(head: &str) -> (r: bool)
    ensures
        r == (head@.len() == 40 && all_hex(head@)),
{
    let cs = chars_of(head);
    if cs.len() != 40 {
        return false;
    }
    let mut i: usize = 0;
    while i < cs.len()
        invariant
            i <= cs@.len(),
            cs@ == head@,
            forall|j: int| 0 <= j < i ==> is_ascii_hex(#[trigger] cs@[j]),
        decreases cs.len() - i,
    {
        if !is_ascii_hex_exec(cs[i]) {
            return false;
        }
        i = i + 1;
    }
    true
}

fn canonical_source_exec(id: &str) -> (r: Vec<char>)
    requires
        id@.len() > 0,
    ensures
        r@ == canonical_source(id@),
{
    let cs = chars_of(id);
    let mut r = chars_of("github:pull/");
    let tail = crate::text::slice_chars(cs.as_slice(), 1, cs.len());
    crate::text::extend_chars(&mut r, tail.as_slice());
    r
}

fn ids_repeat(works: &Vec<WorkMetadata>, i: usize) -> (r: bool)
    requires
        i < works@.len(),
    ensures
        r == repeats_earlier(ids_of(works_view(works@)), i as int),
{
    let ghost ids = ids_of(works_view(works@));
    let target = chars_of(works[i].id.as_str());
    let mut j: usize = 0;
    while j < i
        invariant
            i < works@.len(),
            j <= i,
            ids == ids_of(works_view(works@)),
            target@ == ids[i as int],
            forall|k: int| 0 <= k < j ==> ids[k] != ids[i as int],
        decreases i - j,
    {
        let other = chars_of(works[j].id.as_str());
        assert(ids[j as int] == works@[j as int].id@);
        if chars_eq(other.as_slice(), target.as_slice()) {
            return true;
        }
        j = j + 1;
    }
    false
}

fn work_check(works: &Vec<WorkMetadata>, i: usize) -> (r: Option<Vec<char>>)
    requires
        i < works@.len(),
    ensures
        msg(r) == work_error(works_view(works@), i as int),
{
    let w = &works[i];
    let ghost ws = works_view(works@);
    assert(ws[i as int] == w@);
    let e = work_id_check(w.id.as_str());
    if e.is_some() {
        return e;
    }
    if ids_repeat(works, i) {
        let mut m = chars_of("duplicate work id `");
        extend_str(&mut m, w.id.as_str());
        extend_str(&mut m, "`");
        return Some(m);
    }
    let e = bounded_check("work kind", w.kind.as_str(), MAX_KIND_BYTES);
    if e.is_some() {
        return e;
    }
    let kc = chars_of(w.kind.as_str());
    let pr = chars_of("pull_request");
    if !chars_eq(kc.as_slice(), pr.as_slice()) {
        let mut m = chars_of("unsupported work kind `");
        extend_str(&mut m, w.kind.as_str());
        extend_str(&mut m, "` for ");
        extend_str(&mut m, w.id.as_str());
        extend_str(&mut m, "; expected `pull_request`");
        return Some(m);
    }
    let e = bounded_check("work source", w.source.as_str(), MAX_SOURCE_BYTES);
    if e.is_some() {
        return e;
    }
    let expected = canonical_source_exec(w.id.as_str());
    let sc = chars_of(w.source.as_str());
    if !chars_eq(sc.as_slice(), expected.as_slice()) {
        let mut m = chars_of("work source `");
        extend_str(&mut m, w.source.as_str());
        extend_str(&mut m, "` does not match canonical source `");
        crate::text::extend_chars(&mut m, expected.as_slice());
        extend_str(&mut m, "` for ");
        extend_str(&mut m, w.id.as_str());
        return Some(m);
    }
    if !head_sha_ok(w.head_sha.as_str()) {
        let mut m = chars_of(w.id.as_str());
        extend_str(&mut m, " head_sha must be exactly 40 hexadecimal characters");
        return Some(m);
    }
    let e = bounded_check("work updated_at", w.updated_at.as_str(), MAX_TIME_BYTES);
    if e.is_some() {
        return e;
    }
    let n = w.body.as_str().as_bytes().len();
    proof {
        crate::text::lemma_str_len_is_byte_len(w.body@);
    }
    if n > MAX_BODY_BYTES {
        let mut m = chars_of(w.id.as_str());
        extend_str(&mut m, " body is ");
        push_decimal(&mut m, n);
        extend_str(&mut m, " bytes; maximum is ");
        push_decimal(&mut m, MAX_BODY_BYTES);
        return Some(m);
    }
    None
}

/// Validates a snapshot: schema, source, size, and each piece of work.
pub fn validate_snapshot(snapshot: &WorkMetadataSnapshot) -> (r: Result<(), EdgeError>)
    ensures
        match snapshot_error(
            snapshot.schema_version,
            snapshot.source@,
            works_view(snapshot.work@),
        ) {
            None => r is Ok,
            Some(m) => r matches Err(e) && e.spec_message() == m,
        },
{
    if snapshot.schema_version != SNAPSHOT_SCHEMA_VERSION {
        let mut m = chars_of("unsupported coordination metadata schema ");
        push_decimal(&mut m, snapshot.schema_version as usize);
        extend_str(&mut m, "; expected 1");
        return Err(EdgeError::new(m));
    }
    let e = bounded_check("snapshot source", snapshot.source.as_str(), MAX_SOURCE_BYTES);
    if let Some(m) = e {
        return Err(EdgeError::new(m));
    }
    assert(works_view(snapshot.work@).len() == snapshot.work@.len());
    if snapshot.work.len() > MAX_WORK_ITEMS {
        let mut m = chars_of("work item count ");
        push_decimal(&mut m, snapshot.work.len());
        extend_str(&mut m, " exceeds maximum ");
        push_decimal(&mut m, MAX_WORK_ITEMS);
        return Err(EdgeError::new(m));
    }
    let ghost ws = works_view(snapshot.work@);
    let ghost check = |i: int| work_error(ws, i);
    let mut i: usize = 0;
    while i < snapshot.work.len()
        invariant
            i <= snapshot.work@.len(),
            ws == works_view(snapshot.work@),
            check == (|i: int| work_error(ws, i)),
            first_error(i as nat, check) is None,
            snapshot.schema_version == SNAPSHOT_SCHEMA_VERSION,
            bounded_error("snapshot source"@, snapshot.source@, MAX_SOURCE_BYTES as nat) is None,
            ws.len() <= MAX_WORK_ITEMS,
        decreases snapshot.work.len() - i,
    {
        let item = work_check(&snapshot.work, i);
        proof {
            lemma_first_error_step(i as nat, check);
            assert(msg(item) == check(i as int));
        }
        if let Some(m) = item {
            proof {
                lemma_first_error_stable((i + 1) as nat, ws.len(), check);
            }
            return Err(EdgeError::new(m));
        }
        i = i + 1;
    }
    Ok(())
}

// ---------------------------------------------------------------------------
// Lines, fences and clauses.

/// Trailing carriage returns removed.
pub open spec fn strip_cr(s: Seq<char>) -> Seq<char>
    decreases s.len(),
{
    if s.len() > 0 && s.last() == '\r' {
        strip_cr(s.drop_last())
    } else {
        s
    }
}

/// The lines of a body as `str::lines` yields them, each without trailing
/// carriage returns.
pub open spec fn body_lines(body: Seq<char>) -> Seq<Seq<char>> {
    header_lines(body).map_values(|l: Seq<char>| strip_cr(l))
}

/// How many characters at the start of `s` equal `c`.
pub open spec fn leading_run(s: Seq<char>, c: char) -> nat
    decreases s.len(),
{
    if s.len() > 0 && s[0] == c {
        1 + leading_run(s.drop_first(), c)
    } else {
        0
    }
}

/// How many ASCII digits start `s`.
pub open spec fn leading_digits(s: Seq<char>) -> nat
    decreases s.len(),
{
    if s.len() > 0 && is_ascii_digit(s[0]) {
        1 + leading_digits(s.drop_first())
    } else {
        0
    }
}

/// The line after at most three spaces of indentation.
pub open spec fn fence_content(line: Seq<char>) -> Option<Seq<char>> {
    let k = leading_run(line, ' ');
    if k > 3 {
        None
    } else {
        Some(line.skip(k as int))
    }
}

/// A line that opens a fence: three or more backticks or tildes.
pub open spec fn opens_fence(line: Seq<char>) -> Option<(char, nat)> {
    match fence_content(line) {
        None => None,
        Some(c) => if c.len() == 0 || (c[0] != '`' && c[0] != '~') {
            None
        } else if leading_run(c, c[0]) >= 3 {
            Some((c[0], leading_run(c, c[0])))
        } else {
            None
        },
    }
}

/// A line that closes a fence of `marker` at least `width` wide.
pub open spec fn closes_fence(line: Seq<char>, marker: char, width: nat) -> bool {
    match fence_content(line) {
        None => false,
        Some(c) => leading_run(c, marker) >= width && trim(c.skip(leading_run(c, marker) as int)).len()
            == 0,
    }
}

pub open spec fn hold_prefix() -> Seq<char> {
    "Do not merge while #"@
}

/// The work a top-level hold clause names: `Do not merge while #N` with a
/// positive number without leading zeros, then a space and more text.
pub open spec fn hold_target(line: Seq<char>) -> Option<Seq<char>> {
    let p = hold_prefix();
    if !p.is_prefix_of(line) {
        None
    } else {
        let rest = line.skip(p.len() as int);
        let d = leading_digits(rest);
        if d == 0 || rest[0] == '0' {
            None
        } else {
            let tail = rest.skip(d as int);
            if tail.len() > 0 && tail[0] == ' ' && trim(tail).len() > 0 {
                Some(seq!['#'] + rest.take(d as int))
            } else {
                None
            }
        }
    }
}

proof fn lemma_leading_run_bound(s: Seq<char>, c: char)
    ensures
        leading_run(s, c) <= s.len(),
        forall|j: int| 0 <= j < leading_run(s, c) ==> s[j] == c,
        leading_run(s, c) < s.len() ==> s[leading_run(s, c) as int] != c,
    decreases s.len(),
{
    if s.len() > 0 && s[0] == c {
        lemma_leading_run_bound(s.drop_first(), c);
        assert forall|j: int| 0 <= j < leading_run(s, c) implies s[j] == c by {
            if j > 0 {
                assert(s[j] == s.drop_first()[j - 1]);
            }
        }
    }
}

pub proof fn lemma_leading_digits_bound(s: Seq<char>)
    ensures
        leading_digits(s) <= s.len(),
        forall|j: int| 0 <= j < leading_digits(s) ==> is_ascii_digit(#[trigger] s[j]),
        leading_digits(s) < s.len() ==> !is_ascii_digit(s[leading_digits(s) as int]),
    decreases s.len(),
{
    if s.len() > 0 && is_ascii_digit(s[0]) {
        lemma_leading_digits_bound(s.drop_first());
        assert forall|j: int| 0 <= j < leading_digits(s) implies is_ascii_digit(#[trigger] s[j]) by {
            if j > 0 {
                assert(s[j] == s.drop_first()[j - 1]);
            }
        }
    }
}

proof fn lemma_leading_run_of(s: Seq<char>, c: char, k: int)
    requires
        0 <= k <= s.len(),
        forall|j: int| 0 <= j < k ==> s[j] == c,
        k < s.len() ==> s[k] != c,
    ensures
        leading_run(s, c) == k,
    decreases k,
{
    if k > 0 {
        lemma_leading_run_of(s.drop_first(), c, k - 1);
    }
}

proof fn lemma_leading_digits_of(s: Seq<char>, k: int)
    requires
        0 <= k <= s.len(),
        forall|j: int| 0 <= j < k ==> is_ascii_digit(#[trigger] s[j]),
        k < s.len() ==> !is_ascii_digit(s[k]),
    ensures
        leading_digits(s) == k,
    decreases k,
{
    if k > 0 {
        assert forall|j: int| 0 <= j < k - 1 implies is_ascii_digit(#[trigger] s.drop_first()[j]) by {
            assert(s.drop_first()[j] == s[j + 1]);
        }
        lemma_leading_digits_of(s.drop_first(), k - 1);
    }
}

fn leading_run_exec(s: &[char], c: char) -> (k: usize)
    ensures
        k == leading_run(s@, c),
{
    let mut k: usize = 0;
    while k < s.len() && s[k] == c
        invariant
            k <= s.len(),
            forall|j: int| 0 <= j < k ==> s@[j] == c,
        decreases s.len() - k,
    {
        k = k + 1;
    }
    proof {
        lemma_leading_run_of(s@, c, k as int);
    }
    k
}

pub(crate) fn leading_digits_exec(s: &[char]) -> (k: usize)
    ensures
        k == leading_digits(s@),
{
    let mut k: usize = 0;
    while k < s.len() && is_ascii_digit_exec(s[k])
        invariant
            k <= s.len(),
            forall|j: int| 0 <= j < k ==> is_ascii_digit(#[trigger] s@[j]),
        decreases s.len() - k,
    {
        k = k + 1;
    }
    proof {
        lemma_leading_digits_of(s@, k as int);
    }
    k
}

fn fence_content_exec(line: &[char]) -> (r: Option<Vec<char>>)
    ensures
        match r {
            Some(c) => fence_content(line@) == Some(c@),
            None => fence_content(line@) is None,
        },
{
    let k = leading_run_exec(line, ' ');
    proof {
        lemma_leading_run_bound(line@, ' ');
    }
    if k > 3 {
        return None;
    }
    let n = line.len();
    let c = crate::text::slice_chars(line, k, n);
    assert(c@ =~= line@.skip(k as int));
    Some(c)
}

fn opens_fence_exec(line: &[char]) -> (r: Option<(char, usize)>)
    ensures
        match r {
            Some((m, w)) => opens_fence(line@) == Some((m, w as nat)),
            None => opens_fence(line@) is None,
        },
{
    match fence_content_exec(line) {
        None => None,
        Some(c) => {
            if c.len() == 0 || (c[0] != '`' && c[0] != '~') {
                return None;
            }
            let w = leading_run_exec(c.as_slice(), c[0]);
            if w >= 3 {
                Some((c[0], w))
            } else {
                None
            }
        },
    }
}

fn closes_fence_exec(line: &[char], marker: char, width: usize) -> (r: bool)
    ensures
        r == closes_fence(line@, marker, width as nat),
{
    match fence_content_exec(line) {
        None => false,
        Some(c) => {
            let k = leading_run_exec(c.as_slice(), marker);
            proof {
                lemma_leading_run_bound(c@, marker);
            }
            if k < width {
                return false;
            }
            let n = c.len();
            let tail = crate::text::slice_chars(c.as_slice(), k, n);
            assert(tail@ =~= c@.skip(k as int));
            let t = crate::text::trimmed(tail.as_slice());
            t.len() == 0
        },
    }
}

fn hold_target_exec(line: &[char]) -> (r: Option<Vec<char>>)
    ensures
        match r {
            Some(t) => hold_target(line@) == Some(t@),
            None => hold_target(line@) is None,
        },
{
    let p = chars_of("Do not merge while #");
    if !crate::text::starts_with(line, p.as_slice()) {
        return None;
    }
    let n = line.len();
    let rest = crate::text::slice_chars(line, p.len(), n);
    assert(rest@ =~= line@.skip(hold_prefix().len() as int));
    let d = leading_digits_exec(rest.as_slice());
    proof {
        lemma_leading_digits_bound(rest@);
    }
    if d == 0 || rest[0] == '0' {
        return None;
    }
    let rn = rest.len();
    let tail = crate::text::slice_chars(rest.as_slice(), d, rn);
    assert(tail@ =~= rest@.skip(d as int));
    if tail.len() == 0 || tail[0] != ' ' {
        return None;
    }
    let t = crate::text::trimmed(tail.as_slice());
    if t.len() == 0 {
        return None;
    }
    let mut target = vec!['#'];
    let digits = crate::text::slice_chars(rest.as_slice(), 0, d);
    crate::text::extend_chars(&mut target, digits.as_slice());
    assert(digits@ =~= rest@.take(d as int));
    assert(target@ =~= seq!['#'] + rest@.take(d as int));
    Some(target)
}

fn strip_cr_exec(s: &[char]) -> (r: Vec<char>)
    ensures
        r@ == strip_cr(s@),
{
    let mut n = s.len();
    assert(s@.take(n as int) =~= s@);
    while n > 0 && s[n - 1] == '\r'
        invariant
            n <= s.len(),
            strip_cr(s@) == strip_cr(s@.take(n as int)),
        decreases n,
    {
        assert(s@.take(n as int).drop_last() =~= s@.take(n - 1));
        n = n - 1;
    }
    assert(s@.take(n as int) == s@.subrange(0, n as int));
    crate::text::slice_chars(s, 0, n)
}

/// The lines of a body.
pub fn body_line_list(body: &str) -> (r: Vec<Vec<char>>)
    ensures
        crate::text::seqs_view(r@) == body_lines(body@),
{
    let bc = chars_of(body);
    let mut parts = split_chars(bc.as_slice(), '\n');
    if parts[parts.len() - 1].len() == 0 {
        parts.pop();
    }
    let ghost hl = header_lines(body@);
    assert(crate::text::seqs_view(parts@) =~= hl);
    let mut out: Vec<Vec<char>> = Vec::new();
    let mut i: usize = 0;
    while i < parts.len()
        invariant
            i <= parts@.len(),
            crate::text::seqs_view(parts@) == hl,
            crate::text::seqs_view(out@) == hl.take(i as int).map_values(|l: Seq<char>| strip_cr(l)),
        decreases parts.len() - i,
    {
        let l = strip_cr_exec(parts[i].as_slice());
        let ghost before = out@;
        out.push(l);
        assert(hl[i as int] == parts@[i as int]@);
        assert(crate::text::seqs_view(out@) =~= crate::text::seqs_view(before).push(l@));
        assert(hl.take(i + 1) =~= hl.take(i as int).push(hl[i as int]));
        i = i + 1;
        assert(crate::text::seqs_view(out@) =~= hl.take(i as int).map_values(
            |l: Seq<char>| strip_cr(l),
        ));
    }
    assert(hl.take(i as int) =~= hl);
    out
}

// ---------------------------------------------------------------------------
// Ordered receipts.

pub struct ReceiptView {
    pub from: Seq<char>,
    pub to: Seq<char>,
    pub source: Seq<char>,
    pub head_sha: Seq<char>,
    pub updated_at: Seq<char>,
    pub clause: Seq<char>,
}

impl View for SourceReceipt {
    type V = ReceiptView;

    open spec fn view(&self) -> ReceiptView {
        ReceiptView {
            from: self.from@,
            to: self.to@,
            source: self.source@,
            head_sha: self.source_head_sha@,
            updated_at: self.source_updated_at@,
            clause: self.matched_clause@,
        }
    }
}

pub open spec fn receipts_view(v: Seq<SourceReceipt>) -> Seq<ReceiptView> {
    v.map_values(|r: SourceReceipt| r@)
}

/// The edge of a receipt: from, to and source.
pub open spec fn edge_fields(r: ReceiptView) -> Seq<Seq<char>> {
    seq![r.from, r.to, r.source]
}

/// All fields of a receipt, in declaration order.
pub open spec fn receipt_fields(r: ReceiptView) -> Seq<Seq<char>> {
    seq![r.from, r.to, r.source, r.head_sha, r.updated_at, r.clause]
}

/// Lexicographic order over equally long rows of strings (the derived
/// order of the edge and receipt types).
pub open spec fn lex_less(a: Seq<Seq<char>>, b: Seq<Seq<char>>) -> bool
    decreases a.len(),
{
    if a.len() == 0 || b.len() == 0 {
        false
    } else if a[0] != b[0] {
        seq_less(a[0], b[0])
    } else {
        lex_less(a.drop_first(), b.drop_first())
    }
}

pub proof fn lemma_lex_less_total(a: Seq<Seq<char>>, b: Seq<Seq<char>>)
    requires
        a.len() == b.len(),
    ensures
        a != b ==> (lex_less(a, b) || lex_less(b, a)),
        !(lex_less(a, b) && lex_less(b, a)),
        !lex_less(a, a),
    decreases a.len(),
{
    if a.len() > 0 {
        crate::text::lemma_seq_less_total(a[0], b[0]);
        crate::text::lemma_seq_less_irreflexive(a[0]);
        lemma_lex_less_total(a.drop_first(), b.drop_first());
        lemma_lex_less_total(a.drop_first(), a.drop_first());
        if a[0] == b[0] && a.drop_first() == b.drop_first() {
            assert(a =~= seq![a[0]] + a.drop_first());
            assert(b =~= seq![b[0]] + b.drop_first());
        }
    } else {
        assert(a =~= b);
    }
}

/// A sorted association from edges to their latest receipt: a receipt for
/// a known edge replaces it, a new one goes to its place.
pub open spec fn upsert(s: Seq<ReceiptView>, r: ReceiptView) -> Seq<ReceiptView>
    decreases s.len(),
{
    if s.len() == 0 {
        seq![r]
    } else if edge_fields(s[0]) == edge_fields(r) {
        seq![r] + s.drop_first()
    } else if lex_less(edge_fields(r), edge_fields(s[0])) {
        seq![r] + s
    } else {
        seq![s[0]] + upsert(s.drop_first(), r)
    }
}

/// A sorted set of receipts: a receipt already present changes nothing.
pub open spec fn add_unique(s: Seq<ReceiptView>, r: ReceiptView) -> Seq<ReceiptView>
    decreases s.len(),
{
    if s.len() == 0 {
        seq![r]
    } else if s[0] == r {
        s
    } else if lex_less(receipt_fields(r), receipt_fields(s[0])) {
        seq![r] + s
    } else {
        seq![s[0]] + add_unique(s.drop_first(), r)
    }
}

proof fn lemma_upsert_at(s: Seq<ReceiptView>, r: ReceiptView, i: int)
    requires
        0 <= i <= s.len(),
        forall|j: int| 0 <= j < i ==> lex_less(edge_fields(#[trigger] s[j]), edge_fields(r)),
        i < s.len() ==> !lex_less(edge_fields(s[i]), edge_fields(r)),
    ensures
        upsert(s, r) == if i < s.len() && edge_fields(s[i]) == edge_fields(r) {
            s.update(i, r)
        } else {
            s.insert(i, r)
        },
    decreases i,
{
    if i == 0 {
        if s.len() > 0 {
            lemma_lex_less_total(edge_fields(s[0]), edge_fields(r));
            if edge_fields(s[0]) == edge_fields(r) {
                assert(seq![r] + s.drop_first() =~= s.update(0, r));
            } else {
                assert(seq![r] + s =~= s.insert(0, r));
            }
        } else {
            assert(seq![r] =~= s.insert(0, r));
        }
    } else {
        lemma_lex_less_total(edge_fields(s[0]), edge_fields(r));
        assert(lex_less(edge_fields(s[0]), edge_fields(r)));
        assert forall|j: int| 0 <= j < i - 1 implies lex_less(
            edge_fields(#[trigger] s.drop_first()[j]),
            edge_fields(r),
        ) by {
            assert(s.drop_first()[j] == s[j + 1]);
        }
        lemma_upsert_at(s.drop_first(), r, i - 1);
        if i < s.len() && edge_fields(s[i]) == edge_fields(r) {
            assert(seq![s[0]] + s.drop_first().update(i - 1, r) =~= s.update(i, r));
        } else {
            assert(seq![s[0]] + s.drop_first().insert(i - 1, r) =~= s.insert(i, r));
        }
    }
}

proof fn lemma_fields_eq(a: ReceiptView, b: ReceiptView)
    requires
        receipt_fields(a) == receipt_fields(b),
    ensures
        a == b,
{
    assert(receipt_fields(a)[0] == receipt_fields(b)[0]);
    assert(receipt_fields(a)[1] == receipt_fields(b)[1]);
    assert(receipt_fields(a)[2] == receipt_fields(b)[2]);
    assert(receipt_fields(a)[3] == receipt_fields(b)[3]);
    assert(receipt_fields(a)[4] == receipt_fields(b)[4]);
    assert(receipt_fields(a)[5] == receipt_fields(b)[5]);
}

proof fn lemma_add_unique_at(s: Seq<ReceiptView>, r: ReceiptView, i: int)
    requires
        0 <= i <= s.len(),
        forall|j: int| 0 <= j < i ==> lex_less(receipt_fields(#[trigger] s[j]), receipt_fields(r)),
        i < s.len() ==> !lex_less(receipt_fields(s[i]), receipt_fields(r)),
    ensures
        add_unique(s, r) == if i < s.len() && s[i] == r {
            s
        } else {
            s.insert(i, r)
        },
    decreases i,
{
    if i == 0 {
        if s.len() > 0 {
            lemma_lex_less_total(receipt_fields(s[0]), receipt_fields(r));
            if s[0] != r {
                if receipt_fields(s[0]) == receipt_fields(r) {
                    lemma_fields_eq(s[0], r);
                }
                assert(seq![r] + s =~= s.insert(0, r));
            }
        } else {
            assert(seq![r] =~= s.insert(0, r));
        }
    } else {
        lemma_lex_less_total(receipt_fields(s[0]), receipt_fields(r));
        assert(lex_less(receipt_fields(s[0]), receipt_fields(r)));
        assert(s[0] != r);
        assert forall|j: int| 0 <= j < i - 1 implies lex_less(
            receipt_fields(#[trigger] s.drop_first()[j]),
            receipt_fields(r),
        ) by {
            assert(s.drop_first()[j] == s[j + 1]);
        }
        lemma_add_unique_at(s.drop_first(), r, i - 1);
        if i < s.len() && s[i] == r {
            assert(seq![s[0]] + s.drop_first() =~= s);
        } else {
            assert(seq![s[0]] + s.drop_first().insert(i - 1, r) =~= s.insert(i, r));
        }
    }
}

fn rows_less(a: &Vec<Vec<char>>, b: &Vec<Vec<char>>) -> (r: bool)
    requires
        a@.len() == b@.len(),
    ensures
        r == lex_less(crate::text::seqs_view(a@), crate::text::seqs_view(b@)),
{
    let ghost av = crate::text::seqs_view(a@);
    let ghost bv = crate::text::seqs_view(b@);
    let mut i: usize = 0;
    assert(av.skip(0) =~= av && bv.skip(0) =~= bv);
    while i < a.len()
        invariant
            i <= a@.len(),
            a@.len() == b@.len(),
            av == crate::text::seqs_view(a@),
            bv == crate::text::seqs_view(b@),
            lex_less(av, bv) == lex_less(av.skip(i as int), bv.skip(i as int)),
        decreases a.len() - i,
    {
        assert(av.skip(i as int)[0] == a@[i as int]@);
        assert(bv.skip(i as int)[0] == b@[i as int]@);
        if !chars_eq(a[i].as_slice(), b[i].as_slice()) {
            return chars_less(a[i].as_slice(), b[i].as_slice());
        }
        assert(av.skip(i as int).drop_first() =~= av.skip(i + 1));
        assert(bv.skip(i as int).drop_first() =~= bv.skip(i + 1));
        i = i + 1;
    }
    false
}

fn edge_row(r: &SourceReceipt) -> (v: Vec<Vec<char>>)
    ensures
        crate::text::seqs_view(v@) == edge_fields(r@),
        v@.len() == 3,
{
    let v = vec![chars_of(r.from.as_str()), chars_of(r.to.as_str()), chars_of(r.source.as_str())];
    assert(crate::text::seqs_view(v@) =~= edge_fields(r@));
    v
}

fn receipt_row(r: &SourceReceipt) -> (v: Vec<Vec<char>>)
    ensures
        crate::text::seqs_view(v@) == receipt_fields(r@),
        v@.len() == 6,
{
    let v = vec![
        chars_of(r.from.as_str()),
        chars_of(r.to.as_str()),
        chars_of(r.source.as_str()),
        chars_of(r.source_head_sha.as_str()),
        chars_of(r.source_updated_at.as_str()),
        chars_of(r.matched_clause.as_str()),
    ];
    assert(crate::text::seqs_view(v@) =~= receipt_fields(r@));
    v
}

proof fn lemma_receipts_view_insert(v: Seq<SourceReceipt>, i: int, r: SourceReceipt)
    requires
        0 <= i <= v.len(),
    ensures
        receipts_view(v.insert(i, r)) == receipts_view(v).insert(i, r@),
{
    assert(receipts_view(v.insert(i, r)) =~= receipts_view(v).insert(i, r@));
}

/// Records the receipt of an edge; says whether the edge was already known.
fn upsert_exec(v: &mut Vec<SourceReceipt>, r: SourceReceipt) -> (known: bool)
    ensures
        receipts_view(final(v)@) == upsert(receipts_view(old(v)@), r@),
        known == (upsert(receipts_view(old(v)@), r@).len() == old(v)@.len()),
{
    let ghost s = receipts_view(v@);
    let key = edge_row(&r);
    let mut i: usize = 0;
    let mut stop = false;
    while i < v.len() && !stop
        invariant
            i <= v@.len(),
            s == receipts_view(v@),
            crate::text::seqs_view(key@) == edge_fields(r@),
            key@.len() == edge_fields(r@).len(),
            forall|j: int| 0 <= j < i ==> lex_less(edge_fields(#[trigger] s[j]), edge_fields(r@)),
            stop ==> i < v@.len() && !lex_less(edge_fields(s[i as int]), edge_fields(r@)),
        decreases v.len() - i + if stop {
            0int
        } else {
            1int
        },
    {
        let row = edge_row(&v[i]);
        assert(s[i as int] == v@[i as int]@);
        if !rows_less(&row, &key) {
            stop = true;
        } else {
            i = i + 1;
        }
    }
    proof {
        lemma_upsert_at(s, r@, i as int);
    }
    if i < v.len() {
        let row = edge_row(&v[i]);
        if chars_eq(row[0].as_slice(), key[0].as_slice()) && chars_eq(row[1].as_slice(), key[1].as_slice())
            && chars_eq(row[2].as_slice(), key[2].as_slice()) {
            assert(edge_fields(s[i as int]) =~= edge_fields(r@));
            let ghost rv = r@;
            v.set(i, r);
            assert(receipts_view(v@) =~= s.update(i as int, rv));
            return true;
        }
        assert(edge_fields(s[i as int]) != edge_fields(r@)) by {
            if edge_fields(s[i as int]) == edge_fields(r@) {
                assert(edge_fields(s[i as int])[0] == row@[0]@);
                assert(edge_fields(s[i as int])[1] == row@[1]@);
                assert(edge_fields(s[i as int])[2] == row@[2]@);
            }
        }
    }
    let ghost old_v = v@;
    let ghost rv = r@;
    v.insert(i, r);
    proof {
        lemma_receipts_view_insert(old_v, i as int, r);
    }
    false
}

/// Adds a receipt to a sorted set of receipts.
fn add_unique_exec(v: &mut Vec<SourceReceipt>, r: SourceReceipt)
    ensures
        receipts_view(final(v)@) == add_unique(receipts_view(old(v)@), r@),
{
    let ghost s = receipts_view(v@);
    let key = receipt_row(&r);
    let mut i: usize = 0;
    let mut stop = false;
    while i < v.len() && !stop
        invariant
            i <= v@.len(),
            s == receipts_view(v@),
            crate::text::seqs_view(key@) == receipt_fields(r@),
            key@.len() == receipt_fields(r@).len(),
            forall|j: int| 0 <= j < i ==> lex_less(receipt_fields(#[trigger] s[j]), receipt_fields(r@)),
            stop ==> i < v@.len() && !lex_less(receipt_fields(s[i as int]), receipt_fields(r@)),
        decreases v.len() - i + if stop {
            0int
        } else {
            1int
        },
    {
        let row = receipt_row(&v[i]);
        assert(s[i as int] == v@[i as int]@);
        if !rows_less(&row, &key) {
            stop = true;
        } else {
            i = i + 1;
        }
    }
    proof {
        lemma_add_unique_at(s, r@, i as int);
    }
    if i < v.len() {
        let row = receipt_row(&v[i]);
        let mut same = true;
        let mut k: usize = 0;
        while k < 6
            invariant
                k <= 6,
                row@.len() == 6,
                key@.len() == 6,
                same == forall|j: int| 0 <= j < k ==> row@[j]@ == key@[j]@,
            decreases 6 - k,
        {
            if !chars_eq(row[k].as_slice(), key[k].as_slice()) {
                same = false;
            }
            k = k + 1;
        }
        if same {
            assert(receipt_fields(s[i as int]) =~= receipt_fields(r@)) by {
                assert(forall|j: int| 0 <= j < 6 ==> row@[j]@ == key@[j]@);
                assert forall|j: int| 0 <= j < 6 implies receipt_fields(s[i as int])[j]
                    == receipt_fields(r@)[j] by {
                    assert(crate::text::seqs_view(row@)[j] == row@[j]@);
                    assert(crate::text::seqs_view(key@)[j] == key@[j]@);
                }
            }
            proof {
                lemma_fields_eq(s[i as int], r@);
            }
            return;
        }
        assert(s[i as int] != r@) by {
            if s[i as int] == r@ {
                let j = choose|j: int| 0 <= j < 6 && row@[j]@ != key@[j]@;
                assert(crate::text::seqs_view(row@)[j] == row@[j]@);
                assert(crate::text::seqs_view(key@)[j] == key@[j]@);
            }
        }
    }
    let ghost old_v = v@;
    v.insert(i, r);
    proof {
        lemma_receipts_view_insert(old_v, i as int, r);
    }
}

// ---------------------------------------------------------------------------
// Extraction.

pub struct StatsView {
    pub work_items_examined: nat,
    pub operative_clauses_matched: nat,
    pub self_references_ignored: nat,
    pub unresolved_endpoints_ignored: nat,
    pub duplicate_edges_ignored: nat,
}

impl View for ExtractionStats {
    type V = StatsView;

    open spec fn view(&self) -> StatsView {
        StatsView {
            work_items_examined: self.work_items_examined as nat,
            operative_clauses_matched: self.operative_clauses_matched as nat,
            self_references_ignored: self.self_references_ignored as nat,
            unresolved_endpoints_ignored: self.unresolved_endpoints_ignored as nat,
            duplicate_edges_ignored: self.duplicate_edges_ignored as nat,
        }
    }
}

/// The edges with their latest receipts, the unresolved receipts, and the
/// counts, after some of the snapshot has been read.
pub struct ExtractState {
    pub edges: Seq<ReceiptView>,
    pub unresolved: Seq<ReceiptView>,
    pub stats: StatsView,
}

pub open spec fn clause_receipt(w: WorkView, target: Seq<char>, line: Seq<char>) -> ReceiptView {
    ReceiptView {
        from: w.id,
        to: target,
        source: w.source,
        head_sha: w.head_sha,
        updated_at: w.updated_at,
        clause: line,
    }
}

pub open spec fn unresolved_overflow() -> Seq<char> {
    "unresolved coordination endpoint receipt count exceeds maximum 512"@
}

pub open spec fn edge_overflow() -> Seq<char> {
    "coordination edge count exceeds maximum 512"@
}

/// One operative clause of `w` naming `target`: a self reference is only
/// counted, an unknown target is kept as an unresolved receipt, and a known
/// one records the edge (a repeated edge is counted as a duplicate).
pub open spec fn clause_step(
    st: ExtractState,
    w: WorkView,
    known: Seq<Seq<char>>,
    line: Seq<char>,
    target: Seq<char>,
) -> Result<ExtractState, Seq<char>> {
    let stats = StatsView { operative_clauses_matched: st.stats.operative_clauses_matched + 1, ..st.stats };
    let r = clause_receipt(w, target, line);
    if target == w.id {
        Ok(
            ExtractState {
                stats: StatsView { self_references_ignored: stats.self_references_ignored + 1, ..stats },
                ..st
            },
        )
    } else if !known.contains(target) {
        let u = add_unique(st.unresolved, r);
        if u.len() > MAX_EDGES {
            Err(unresolved_overflow())
        } else {
            Ok(
                ExtractState {
                    unresolved: u,
                    stats: StatsView {
                        unresolved_endpoints_ignored: stats.unresolved_endpoints_ignored + 1,
                        ..stats
                    },
                    ..st
                },
            )
        }
    } else {
        let e = upsert(st.edges, r);
        if e.len() > MAX_EDGES {
            Err(edge_overflow())
        } else if e.len() == st.edges.len() {
            Ok(
                ExtractState {
                    edges: e,
                    stats: StatsView { duplicate_edges_ignored: stats.duplicate_edges_ignored + 1, ..stats },
                    ..st
                },
            )
        } else {
            Ok(ExtractState { edges: e, stats, ..st })
        }
    }
}

pub open spec fn long_line(id: Seq<char>) -> Seq<char> {
    id + " body contains a line larger than "@ + decimal(MAX_BODY_LINE_BYTES as nat) + " bytes"@
}

/// The remaining lines of one body, inside the fence `fence` if any.
pub open spec fn scan_lines(
    st: ExtractState,
    fence: Option<(char, nat)>,
    w: WorkView,
    known: Seq<Seq<char>>,
    lines: Seq<Seq<char>>,
) -> Result<ExtractState, Seq<char>>
    decreases lines.len(),
{
    if lines.len() == 0 {
        Ok(st)
    } else {
        let line = lines[0];
        let rest = lines.drop_first();
        if byte_len(line) > MAX_BODY_LINE_BYTES {
            Err(long_line(w.id))
        } else {
            match fence {
                Some((m, width)) => scan_lines(
                    st,
                    if closes_fence(line, m, width) {
                        None
                    } else {
                        fence
                    },
                    w,
                    known,
                    rest,
                ),
                None => match opens_fence(line) {
                    Some(o) => scan_lines(st, Some(o), w, known, rest),
                    None => match hold_target(line) {
                        None => scan_lines(st, None, w, known, rest),
                        Some(t) => match clause_step(st, w, known, line, t) {
                            Err(e) => Err(e),
                            Ok(next) => scan_lines(next, None, w, known, rest),
                        },
                    },
                },
            }
        }
    }
}

/// The works from `i` on, each body from outside any fence.
pub open spec fn scan_works(st: ExtractState, ws: Seq<WorkView>, i: int) -> Result<
    ExtractState,
    Seq<char>,
>
    decreases ws.len() - i,
{
    if i < 0 || i >= ws.len() {
        Ok(st)
    } else {
        match scan_lines(st, None, ws[i], ids_of(ws), body_lines(ws[i].body)) {
            Err(e) => Err(e),
            Ok(next) => scan_works(next, ws, i + 1),
        }
    }
}

pub open spec fn initial_state(n: nat) -> ExtractState {
    ExtractState {
        edges: Seq::empty(),
        unresolved: Seq::empty(),
        stats: StatsView {
            work_items_examined: n,
            operative_clauses_matched: 0,
            self_references_ignored: 0,
            unresolved_endpoints_ignored: 0,
            duplicate_edges_ignored: 0,
        },
    }
}

/// What a snapshot yields: its first validation error, else the first
/// extraction error, else the final state.
pub open spec fn coordination_extraction(
    schema_version: u32,
    source: Seq<char>,
    ws: Seq<WorkView>,
) -> Result<ExtractState, Seq<char>> {
    match snapshot_error(schema_version, source, ws) {
        Some(e) => Err(e),
        None => scan_works(initial_state(ws.len()), ws, 0),
    }
}

pub open spec fn edge_triples(v: Seq<CoordinationEdge>) -> Seq<(Seq<char>, Seq<char>, Seq<char>)> {
    v.map_values(|e: CoordinationEdge| (e.from@, e.to@, e.source@))
}

pub open spec fn receipt_triples(v: Seq<ReceiptView>) -> Seq<(Seq<char>, Seq<char>, Seq<char>)> {
    v.map_values(|r: ReceiptView| (r.from, r.to, r.source))
}

pub open spec fn unknown_note() -> Seq<char> {
    "A body-derived edge proves only that the admitted source metadata contained the reviewed operative clause at the recorded head/update coordinates; implementation intent or continued applicability beyond that clause remains unknown without independent evidence."@
}

proof fn lemma_first_error_none(n: nat, check: spec_fn(int) -> Option<Seq<char>>, i: int)
    requires
        first_error(n, check) is None,
        0 <= i < n,
    ensures
        check(i) is None,
    decreases n,
{
    if i < n - 1 {
        lemma_first_error_none((n - 1) as nat, check, i);
    }
}

proof fn lemma_split_on_len(s: Seq<char>, sep: char)
    ensures
        crate::text::split_on(s, sep).len() <= s.len() + 1,
    decreases s.len(),
{
    if s.len() > 0 {
        lemma_split_on_len(s.drop_last(), sep);
        crate::text::lemma_split_on_nonempty(s.drop_last(), sep);
    }
}

pub const LINE_CAP: usize = 131073;

proof fn lemma_body_line_count(body: Seq<char>)
    requires
        byte_len(body) <= MAX_BODY_BYTES,
    ensures
        body_lines(body).len() <= LINE_CAP,
{
    lemma_split_on_len(body, '\n');
    crate::text::lemma_byte_len_at_least_len(body);
    let parts = crate::text::split_on(body, '\n');
    crate::text::lemma_split_on_nonempty(body, '\n');
    assert(header_lines(body).len() <= parts.len());
    assert(body_lines(body).len() == header_lines(body).len());
}

fn known_id(works: &Vec<WorkMetadata>, target: &[char]) -> (r: bool)
    ensures
        r == ids_of(works_view(works@)).contains(target@),
{
    let ghost ids = ids_of(works_view(works@));
    let mut j: usize = 0;
    while j < works.len()
        invariant
            j <= works@.len(),
            ids == ids_of(works_view(works@)),
            forall|k: int| 0 <= k < j ==> ids[k] != target@,
        decreases works.len() - j,
    {
        let other = chars_of(works[j].id.as_str());
        assert(ids[j as int] == works@[j as int].id@);
        if chars_eq(other.as_slice(), target) {
            assert(ids[j as int] == target@);
            return true;
        }
        j = j + 1;
    }
    false
}

spec fn stats_bounded(st: StatsView, bound: nat) -> bool {
    &&& st.operative_clauses_matched <= bound
    &&& st.self_references_ignored <= bound
    &&& st.unresolved_endpoints_ignored <= bound
    &&& st.duplicate_edges_ignored <= bound
}

spec fn state_of(edges: Seq<SourceReceipt>, unresolved: Seq<SourceReceipt>, stats: ExtractionStats) -> ExtractState {
    ExtractState { edges: receipts_view(edges), unresolved: receipts_view(unresolved), stats: stats@ }
}

/// Validates a snapshot and extracts its hold-merge edges: the edges in
/// order with their latest receipts, the receipts of unresolved targets in
/// order, and the counts.
pub fn extract_from_snapshot(snapshot: &WorkMetadataSnapshot) -> (r: Result<ExtractionReport, EdgeError>)
    ensures
        match coordination_extraction(
            snapshot.schema_version,
            snapshot.source@,
            works_view(snapshot.work@),
        ) {
            Err(m) => r matches Err(e) && e.spec_message() == m,
            Ok(st) => r matches Ok(rep) && {
                &&& rep.schema_version == SNAPSHOT_SCHEMA_VERSION
                &&& rep.analysis@ == "explicit-coordination-metadata"@
                &&& rep.source@ == snapshot.source@
                &&& receipts_view(rep.source_receipts@) == st.edges
                &&& edge_triples(rep.coordination_edges@) == receipt_triples(st.edges)
                &&& receipts_view(rep.unresolved_endpoint_receipts@) == st.unresolved
                &&& rep.stats@ == st.stats
                &&& crate::validate::strings_view(rep.unknowns@) == seq![unknown_note()]
            },
        },
{
    validate_snapshot(snapshot)?;
    let ghost ws = works_view(snapshot.work@);
    let ghost known = ids_of(ws);
    let ghost check = |i: int| work_error(ws, i);
    assert(snapshot_error(snapshot.schema_version, snapshot.source@, ws) is None);
    assert(first_error(ws.len(), check) is None);
    let works = &snapshot.work;
    let mut edges: Vec<SourceReceipt> = Vec::new();
    let mut unresolved: Vec<SourceReceipt> = Vec::new();
    let mut stats = ExtractionStats {
        work_items_examined: works.len(),
        operative_clauses_matched: 0,
        self_references_ignored: 0,
        unresolved_endpoints_ignored: 0,
        duplicate_edges_ignored: 0,
    };
    proof {
        assert(receipts_view(edges@) =~= Seq::<ReceiptView>::empty());
        assert(receipts_view(unresolved@) =~= Seq::<ReceiptView>::empty());
        assert(state_of(edges@, unresolved@, stats) == initial_state(ws.len()));
    }
    let mut i: usize = 0;
    while i < works.len()
        invariant
            i <= works@.len(),
            ws == works_view(works@),
            works@ == snapshot.work@,
            known == ids_of(ws),
            check == (|i: int| work_error(ws, i)),
            first_error(ws.len(), check) is None,
            ws.len() <= MAX_WORK_ITEMS,
            coordination_extraction(snapshot.schema_version, snapshot.source@, ws) == scan_works(
                state_of(edges@, unresolved@, stats),
                ws,
                i as int,
            ),
            stats.work_items_examined == ws.len(),
            stats_bounded(stats@, (i * LINE_CAP) as nat),
            edges@.len() <= MAX_EDGES,
            unresolved@.len() <= MAX_EDGES,
        decreases works.len() - i,
    {
        let work = &works[i];
        assert(ws[i as int] == work@);
        proof {
            lemma_first_error_none(ws.len(), check, i as int);
            assert(work_error(ws, i as int) is None);
            lemma_body_line_count(work@.body);
        }
        let lines = body_line_list(work.body.as_str());
        let ghost lv = crate::text::seqs_view(lines@);
        let ghost base = (i * LINE_CAP) as nat;
        let mut fence: Option<(char, usize)> = None;
        let mut k: usize = 0;
        assert(lv.skip(0) =~= lv);
        while k < lines.len()
            invariant
                k <= lines@.len(),
                lv == crate::text::seqs_view(lines@),
                lv == body_lines(work@.body),
                lv.len() <= LINE_CAP,
                i < works@.len(),
                ws == works_view(works@),
                works@ == snapshot.work@,
                ws[i as int] == work@,
                known == ids_of(ws),
                ws.len() <= MAX_WORK_ITEMS,
                base == i * LINE_CAP,
                coordination_extraction(snapshot.schema_version, snapshot.source@, ws) == match scan_lines(
                    state_of(edges@, unresolved@, stats),
                    match fence {
                        Some((m, w)) => Some((m, w as nat)),
                        None => None,
                    },
                    work@,
                    known,
                    lv.skip(k as int),
                ) {
                    Err(e) => Err(e),
                    Ok(next) => scan_works(next, ws, i + 1),
                },
                stats.work_items_examined == ws.len(),
                stats_bounded(stats@, (base + k) as nat),
                edges@.len() <= MAX_EDGES,
                unresolved@.len() <= MAX_EDGES,
            decreases lines.len() - k,
        {
            let line = &lines[k];
            let ghost rest = lv.skip(k + 1);
            assert(lv.skip(k as int)[0] == line@);
            assert(lv.skip(k as int).drop_first() =~= rest);
            if !crate::text::byte_len_at_most(line.as_slice(), MAX_BODY_LINE_BYTES) {
                let mut m = chars_of(work.id.as_str());
                extend_str(&mut m, " body contains a line larger than ");
                push_decimal(&mut m, MAX_BODY_LINE_BYTES);
                extend_str(&mut m, " bytes");
                assert(m@ == long_line(work@.id));
                assert(scan_lines(
                    state_of(edges@, unresolved@, stats),
                    match fence {
                        Some((mk, w)) => Some((mk, w as nat)),
                        None => None,
                    },
                    work@,
                    known,
                    lv.skip(k as int),
                ) == Err::<ExtractState, Seq<char>>(long_line(work@.id)));
                return Err(EdgeError::new(m));
            }
            match fence {
                Some((marker, width)) => {
                    if closes_fence_exec(line.as_slice(), marker, width) {
                        fence = None;
                    }
                },
                None => {
                    match opens_fence_exec(line.as_slice()) {
                        Some(opened) => {
                            fence = Some(opened);
                        },
                        None => {
                            match hold_target_exec(line.as_slice()) {
                                None => {},
                                Some(target) => {
                                    let ghost st0 = state_of(edges@, unresolved@, stats);
                                    let ghost expected = clause_step(
                                        st0,
                                        work@,
                                        known,
                                        line@,
                                        target@,
                                    );
                                    stats.operative_clauses_matched = stats.operative_clauses_matched
                                        + 1;
                                    let id = chars_of(work.id.as_str());
                                    if chars_eq(target.as_slice(), id.as_slice()) {
                                        stats.self_references_ignored = stats.self_references_ignored
                                            + 1;
                                        assert(expected == Ok::<ExtractState, Seq<char>>(
                                            state_of(edges@, unresolved@, stats),
                                        ));
                                    } else {
                                        let receipt = SourceReceipt {
                                            kind: CoordinationKind::HoldMergeWhile,
                                            from: crate::text::owned(work.id.as_str()),
                                            to: string_of(target.as_slice()),
                                            source: crate::text::owned(work.source.as_str()),
                                            source_head_sha: crate::text::owned(work.head_sha.as_str()),
                                            source_updated_at: crate::text::owned(
                                                work.updated_at.as_str(),
                                            ),
                                            matched_clause: string_of(line.as_slice()),
                                        };
                                        assert(receipt@ == clause_receipt(work@, target@, line@));
                                        if !known_id(works, target.as_slice()) {
                                            stats.unresolved_endpoints_ignored = stats.unresolved_endpoints_ignored
                                                + 1;
                                            add_unique_exec(&mut unresolved, receipt);
                                            if unresolved.len() > MAX_EDGES {
                                                let m = chars_of(
                                                    "unresolved coordination endpoint receipt count exceeds maximum 512",
                                                );
                                                assert(expected == Err::<ExtractState, Seq<char>>(
                                                    unresolved_overflow(),
                                                ));
                                                assert(scan_lines(st0, None, work@, known, lv.skip(k as int))
                                                    == Err::<ExtractState, Seq<char>>(unresolved_overflow()));
                                                return Err(EdgeError::new(m));
                                            }
                                            assert(expected == Ok::<ExtractState, Seq<char>>(
                                                state_of(edges@, unresolved@, stats),
                                            ));
                                        } else {
                                            let before_len = edges.len();
                                            let known_edge = upsert_exec(&mut edges, receipt);
                                            if edges.len() > MAX_EDGES {
                                                let m = chars_of(
                                                    "coordination edge count exceeds maximum 512",
                                                );
                                                assert(expected == Err::<ExtractState, Seq<char>>(
                                                    edge_overflow(),
                                                ));
                                                assert(scan_lines(st0, None, work@, known, lv.skip(k as int))
                                                    == Err::<ExtractState, Seq<char>>(edge_overflow()));
                                                return Err(EdgeError::new(m));
                                            }
                                            if known_edge {
                                                stats.duplicate_edges_ignored = stats.duplicate_edges_ignored
                                                    + 1;
                                            }
                                            assert(expected == Ok::<ExtractState, Seq<char>>(
                                                state_of(edges@, unresolved@, stats),
                                            ));
                                        }
                                    }
                                },
                            }
                        },
                    }
                },
            }
            k = k + 1;
        }
        proof {
            assert(lv.skip(k as int).len() == 0);
            assert(stats_bounded(stats@, ((i + 1) * LINE_CAP) as nat)) by (nonlinear_arith)
                requires
                    stats_bounded(stats@, (base + k) as nat),
                    base == i * LINE_CAP,
                    k <= LINE_CAP,
            ;
        }
        i = i + 1;
    }
    let mut coordination_edges: Vec<CoordinationEdge> = Vec::new();
    let mut j: usize = 0;
    while j < edges.len()
        invariant
            j <= edges@.len(),
            edge_triples(coordination_edges@) == receipt_triples(receipts_view(edges@)).take(j as int),
        decreases edges.len() - j,
    {
        let e = &edges[j];
        let ghost before = coordination_edges@;
        coordination_edges.push(
            CoordinationEdge {
                kind: e.kind,
                from: crate::text::owned(e.from.as_str()),
                to: crate::text::owned(e.to.as_str()),
                source: crate::text::owned(e.source.as_str()),
            },
        );
        assert(receipt_triples(receipts_view(edges@))[j as int] == (e.from@, e.to@, e.source@));
        assert(edge_triples(coordination_edges@) =~= edge_triples(before).push(
            (e.from@, e.to@, e.source@),
        ));
        j = j + 1;
        assert(edge_triples(coordination_edges@) =~= receipt_triples(receipts_view(edges@)).take(
            j as int,
        ));
    }
    assert(receipt_triples(receipts_view(edges@)).take(j as int) =~= receipt_triples(
        receipts_view(edges@),
    ));
    let unknowns = vec![
        crate::text::owned(
            "A body-derived edge proves only that the admitted source metadata contained the reviewed operative clause at the recorded head/update coordinates; implementation intent or continued applicability beyond that clause remains unknown without independent evidence.",
        ),
    ];
    assert(crate::validate::strings_view(unknowns@) =~= seq![unknown_note()]);
    Ok(
        ExtractionReport {
            schema_version: SNAPSHOT_SCHEMA_VERSION,
            analysis: crate::text::owned("explicit-coordination-metadata"),
            source: crate::text::owned(snapshot.source.as_str()),
            coordination_edges,
            source_receipts: edges,
            unresolved_endpoint_receipts: unresolved,
            stats,
            unknowns,
        },
    )
}

// ---------------------------------------------------------------------------
// The size gate and the order of what comes out.

pub open spec fn oversized_snapshot(n: nat) -> Seq<char> {
    "coordination metadata snapshot is "@ + decimal(n) + " bytes; maximum is "@ + decimal(
        MAX_SNAPSHOT_BYTES as nat,
    )
}

/// Refuses a snapshot text over `MAX_SNAPSHOT_BYTES` bytes before parsing.
pub fn check_snapshot_size(input: &str) -> (r: Result<(), EdgeError>)
    ensures
        byte_len(input@) <= MAX_SNAPSHOT_BYTES ==> r is Ok,
        byte_len(input@) > MAX_SNAPSHOT_BYTES ==> (r matches Err(e) && e.spec_message()
            == oversized_snapshot(byte_len(input@))),
{
    let n = input.as_bytes().len();
    proof {
        crate::text::lemma_str_len_is_byte_len(input@);
    }
    if n > MAX_SNAPSHOT_BYTES {
        let mut m = chars_of("coordination metadata snapshot is ");
        push_decimal(&mut m, n);
        extend_str(&mut m, " bytes; maximum is ");
        push_decimal(&mut m, MAX_SNAPSHOT_BYTES);
        return Err(EdgeError::new(m));
    }
    Ok(())
}

/// Strictly increasing by edge: every edge occurs once.
pub open spec fn edges_sorted(s: Seq<ReceiptView>) -> bool {
    forall|i: int, j: int|
        0 <= i < j < s.len() ==> lex_less(edge_fields(#[trigger] s[i]), edge_fields(#[trigger] s[j]))
}

/// Strictly increasing by receipt: every receipt occurs once.
pub open spec fn receipts_sorted(s: Seq<ReceiptView>) -> bool {
    forall|i: int, j: int|
        0 <= i < j < s.len() ==> lex_less(
            receipt_fields(#[trigger] s[i]),
            receipt_fields(#[trigger] s[j]),
        )
}

proof fn lemma_lex_less_transitive(a: Seq<Seq<char>>, b: Seq<Seq<char>>, c: Seq<Seq<char>>)
    requires
        a.len() == b.len(),
        b.len() == c.len(),
        lex_less(a, b),
        lex_less(b, c),
    ensures
        lex_less(a, c),
    decreases a.len(),
{
    if a.len() > 0 {
        if a[0] != b[0] && b[0] != c[0] {
            crate::text::lemma_seq_less_transitive(a[0], b[0], c[0]);
            crate::text::lemma_seq_less_irreflexive(a[0]);
        } else if a[0] == b[0] && b[0] == c[0] {
            lemma_lex_less_transitive(a.drop_first(), b.drop_first(), c.drop_first());
        }
    }
}

proof fn lemma_upsert_sorted(s: Seq<ReceiptView>, r: ReceiptView)
    requires
        edges_sorted(s),
    ensures
        edges_sorted(upsert(s, r)),
        forall|x: ReceiptView| #[trigger] upsert(s, r).contains(x) ==> x == r || s.contains(x),
    decreases s.len(),
{
    if s.len() == 0 {
    } else if edge_fields(s[0]) == edge_fields(r) {
        let t = upsert(s, r);
        assert forall|i: int, j: int| 0 <= i < j < t.len() implies lex_less(
            edge_fields(#[trigger] t[i]),
            edge_fields(#[trigger] t[j]),
        ) by {
            if i == 0 {
                assert(lex_less(edge_fields(s[0]), edge_fields(s[j])));
            } else {
                assert(t[i] == s[i] && t[j] == s[j]);
            }
        }
        assert forall|x: ReceiptView| #[trigger] t.contains(x) implies x == r || s.contains(x) by {
            let k = choose|k: int| 0 <= k < t.len() && t[k] == x;
            if k > 0 {
                assert(s[k] == x);
            }
        }
    } else if lex_less(edge_fields(r), edge_fields(s[0])) {
        let t = upsert(s, r);
        assert forall|i: int, j: int| 0 <= i < j < t.len() implies lex_less(
            edge_fields(#[trigger] t[i]),
            edge_fields(#[trigger] t[j]),
        ) by {
            if i == 0 {
                if j > 1 {
                    assert(lex_less(edge_fields(s[0]), edge_fields(s[j - 1])));
                    lemma_lex_less_transitive(edge_fields(r), edge_fields(s[0]), edge_fields(s[j - 1]));
                }
            } else {
                assert(t[i] == s[i - 1] && t[j] == s[j - 1]);
            }
        }
        assert forall|x: ReceiptView| #[trigger] t.contains(x) implies x == r || s.contains(x) by {
            let k = choose|k: int| 0 <= k < t.len() && t[k] == x;
            if k > 0 {
                assert(s[k - 1] == x);
            }
        }
    } else {
        let rest = s.drop_first();
        assert forall|i: int, j: int| 0 <= i < j < rest.len() implies lex_less(
            edge_fields(#[trigger] rest[i]),
            edge_fields(#[trigger] rest[j]),
        ) by {
            assert(rest[i] == s[i + 1] && rest[j] == s[j + 1]);
        }
        lemma_upsert_sorted(rest, r);
        lemma_lex_less_total(edge_fields(s[0]), edge_fields(r));
        let u = upsert(rest, r);
        let t = upsert(s, r);
        assert(t == seq![s[0]] + u);
        assert forall|i: int, j: int| 0 <= i < j < t.len() implies lex_less(
            edge_fields(#[trigger] t[i]),
            edge_fields(#[trigger] t[j]),
        ) by {
            if i == 0 {
                assert(u.contains(t[j]));
                if t[j] == r {
                } else {
                    let k = choose|k: int| 0 <= k < rest.len() && rest[k] == t[j];
                    assert(s[k + 1] == t[j]);
                }
            } else {
                assert(t[i] == u[i - 1] && t[j] == u[j - 1]);
            }
        }
        assert forall|x: ReceiptView| #[trigger] t.contains(x) implies x == r || s.contains(x) by {
            let k = choose|k: int| 0 <= k < t.len() && t[k] == x;
            if k > 0 {
                assert(u.contains(x));
                if x != r {
                    let q = choose|q: int| 0 <= q < rest.len() && rest[q] == x;
                    assert(s[q + 1] == x);
                }
            }
        }
    }
}

proof fn lemma_add_unique_sorted(s: Seq<ReceiptView>, r: ReceiptView)
    requires
        receipts_sorted(s),
    ensures
        receipts_sorted(add_unique(s, r)),
        forall|x: ReceiptView| #[trigger] add_unique(s, r).contains(x) ==> x == r || s.contains(x),
    decreases s.len(),
{
    if s.len() == 0 {
    } else if s[0] == r {
    } else if lex_less(receipt_fields(r), receipt_fields(s[0])) {
        let t = add_unique(s, r);
        assert forall|i: int, j: int| 0 <= i < j < t.len() implies lex_less(
            receipt_fields(#[trigger] t[i]),
            receipt_fields(#[trigger] t[j]),
        ) by {
            if i == 0 {
                if j > 1 {
                    assert(lex_less(receipt_fields(s[0]), receipt_fields(s[j - 1])));
                    lemma_lex_less_transitive(
                        receipt_fields(r),
                        receipt_fields(s[0]),
                        receipt_fields(s[j - 1]),
                    );
                }
            } else {
                assert(t[i] == s[i - 1] && t[j] == s[j - 1]);
            }
        }
        assert forall|x: ReceiptView| #[trigger] t.contains(x) implies x == r || s.contains(x) by {
            let k = choose|k: int| 0 <= k < t.len() && t[k] == x;
            if k > 0 {
                assert(s[k - 1] == x);
            }
        }
    } else {
        let rest = s.drop_first();
        assert forall|i: int, j: int| 0 <= i < j < rest.len() implies lex_less(
            receipt_fields(#[trigger] rest[i]),
            receipt_fields(#[trigger] rest[j]),
        ) by {
            assert(rest[i] == s[i + 1] && rest[j] == s[j + 1]);
        }
        lemma_add_unique_sorted(rest, r);
        lemma_lex_less_total(receipt_fields(s[0]), receipt_fields(r));
        if receipt_fields(s[0]) == receipt_fields(r) {
            lemma_fields_eq(s[0], r);
        }
        let u = add_unique(rest, r);
        let t = add_unique(s, r);
        assert(t == seq![s[0]] + u);
        assert forall|i: int, j: int| 0 <= i < j < t.len() implies lex_less(
            receipt_fields(#[trigger] t[i]),
            receipt_fields(#[trigger] t[j]),
        ) by {
            if i == 0 {
                assert(u.contains(t[j]));
                if t[j] == r {
                } else {
                    let k = choose|k: int| 0 <= k < rest.len() && rest[k] == t[j];
                    assert(s[k + 1] == t[j]);
                }
            } else {
                assert(t[i] == u[i - 1] && t[j] == u[j - 1]);
            }
        }
        assert forall|x: ReceiptView| #[trigger] t.contains(x) implies x == r || s.contains(x) by {
            let k = choose|k: int| 0 <= k < t.len() && t[k] == x;
            if k > 0 {
                assert(u.contains(x));
                if x != r {
                    let q = choose|q: int| 0 <= q < rest.len() && rest[q] == x;
                    assert(s[q + 1] == x);
                }
            }
        }
    }
}

spec fn state_sorted(st: ExtractState) -> bool {
    edges_sorted(st.edges) && receipts_sorted(st.unresolved)
}

proof fn lemma_scan_lines_sorted(
    st: ExtractState,
    fence: Option<(char, nat)>,
    w: WorkView,
    known: Seq<Seq<char>>,
    lines: Seq<Seq<char>>,
)
    requires
        state_sorted(st),
    ensures
        scan_lines(st, fence, w, known, lines) matches Ok(out) ==> state_sorted(out),
    decreases lines.len(),
{
    if lines.len() > 0 {
        let line = lines[0];
        let rest = lines.drop_first();
        match fence {
            Some((m, width)) => {
                lemma_scan_lines_sorted(
                    st,
                    if closes_fence(line, m, width) {
                        None
                    } else {
                        fence
                    },
                    w,
                    known,
                    rest,
                );
            },
            None => match opens_fence(line) {
                Some(o) => {
                    lemma_scan_lines_sorted(st, Some(o), w, known, rest);
                },
                None => match hold_target(line) {
                    None => {
                        lemma_scan_lines_sorted(st, None, w, known, rest);
                    },
                    Some(t) => {
                        let r = clause_receipt(w, t, line);
                        lemma_upsert_sorted(st.edges, r);
                        lemma_add_unique_sorted(st.unresolved, r);
                        match clause_step(st, w, known, line, t) {
                            Err(_) => {},
                            Ok(next) => {
                                lemma_scan_lines_sorted(next, None, w, known, rest);
                            },
                        }
                    },
                },
            },
        }
    }
}

proof fn lemma_scan_works_sorted(st: ExtractState, ws: Seq<WorkView>, i: int)
    requires
        state_sorted(st),
    ensures
        scan_works(st, ws, i) matches Ok(out) ==> state_sorted(out),
    decreases ws.len() - i,
{
    if 0 <= i < ws.len() {
        lemma_scan_lines_sorted(st, None, ws[i], ids_of(ws), body_lines(ws[i].body));
        match scan_lines(st, None, ws[i], ids_of(ws), body_lines(ws[i].body)) {
            Err(_) => {},
            Ok(next) => {
                lemma_scan_works_sorted(next, ws, i + 1);
            },
        }
    }
}

/// The extracted edges come out in the edge order with each edge once, and
/// the unresolved receipts in the receipt order with each receipt once.
pub proof fn lemma_extraction_is_sorted(schema_version: u32, source: Seq<char>, ws: Seq<WorkView>)
    ensures
        coordination_extraction(schema_version, source, ws) matches Ok(st) ==> (edges_sorted(st.edges)
            && receipts_sorted(st.unresolved)),
{
    lemma_scan_works_sorted(initial_state(ws.len()), ws, 0);
}

} // verus!
