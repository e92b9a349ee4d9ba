//! Review receipts produced by an adversarial review pass, and their
//! projection into the envelope a reader of the review reads: attention items, an
//! uncertainty frontier, and quiet (refuted or suppressed) items.
use vstd::prelude::*;

use crate::finding::ClaimKind;
use crate::text::{chars_of, decimal, extend_str, is_lower_hex, is_lower_hex_exec, is_trimmed, push_decimal, trim};
use crate::validate::{
    count_matching, either, first_error, lemma_count_matching_bound, lemma_count_matching_step,
    lemma_first_error_stable, lemma_first_error_step, msg, repeats_earlier, repeats_earlier_exec,
    strings_view,
};

verus! {

pub const CMUX_REVIEW_RECEIPT_SCHEMA_VERSION: u32 = 1;

pub const CMUX_REVIEW_ENVELOPE_SCHEMA_VERSION: u32 = 1;

pub const MAX_CMUX_REVIEW_RECEIPT_BYTES: usize = 1048576;

#[derive(Debug)]
pub struct CmuxReviewReceipt {
    pub schema_version: u32,
    pub policy_version: String,
    pub repository_root: String,
    pub source: CmuxReviewSource,
    pub brief: CmuxReviewBrief,
    pub summary: CmuxReviewSummary,
    pub findings: Vec<CmuxReviewFinding>,
    pub created_at: String,
}

#[derive(Debug)]
pub struct CmuxReviewSource {
    pub base_sha: String,
    pub head_sha: String,
    pub diff_sha256: String,
    pub working_tree_dirty: bool,
    pub ruleset_sha256: Option<String>,
}

#[derive(Debug)]
pub struct CmuxReviewBrief {
    pub intent: String,
    pub requirements: Vec<CmuxReviewRequirement>,
    pub out_of_scope_changes: Vec<String>,
    pub behavior_changed: Vec<String>,
    pub risk_areas: Vec<CmuxReviewRiskArea>,
    pub file_groups: Vec<CmuxReviewFileGroup>,
    pub reading_order: Vec<String>,
    pub safeguards: Vec<String>,
    pub coverage_gaps: Vec<String>,
}

#[derive(Debug)]
pub struct CmuxReviewRequirement {
    pub requirement: String,
    pub status: CmuxReviewRequirementStatus,
    pub evidence: Vec<String>,
}

#[derive(Debug, Clone, Copy, Eq, PartialEq, Structural)]
pub enum CmuxReviewRequirementStatus {
    Satisfied,
    Missing,
    Uncertain,
}

#[derive(Debug)]
pub struct CmuxReviewRiskArea {
    pub level: CmuxReviewRiskLevel,
    pub area: String,
    pub reason: Option<String>,
}

#[derive(Debug, Clone, Copy, Eq, PartialEq, Structural)]
pub enum CmuxReviewRiskLevel {
    High,
    Medium,
    Low,
}

#[derive(Debug)]
pub struct CmuxReviewFileGroup {
    pub label: String,
    pub paths: Vec<String>,
}

#[derive(Debug, Clone, Copy, Eq, PartialEq, Structural)]
pub struct CmuxReviewSummary {
    pub hypotheses_investigated: usize,
    pub suppressed: usize,
    pub refuted: usize,
    pub verified: usize,
    pub human_judgment: usize,
}

#[derive(Debug)]
pub struct CmuxReviewFinding {
    pub id: String,
    pub title: String,
    pub severity: CmuxReviewSeverity,
    pub claims: Vec<CmuxReviewClaim>,
    pub failure_mode: String,
    pub paths: Vec<String>,
    pub discovery_sources: Vec<String>,
    pub challenge: CmuxReviewChallenge,
    pub verification: CmuxReviewVerification,
    pub repair: Option<CmuxReviewRepair>,
    pub disposition: CmuxReviewDisposition,
}

#[derive(Debug, Clone, Copy, Eq, PartialEq, Structural)]
pub enum CmuxReviewSeverity {
    P0,
    P1,
    P2,
    P3,
}

#[derive(Debug)]
pub struct CmuxReviewClaim {
    pub kind: ClaimKind,
    pub message: String,
    pub evidence: Vec<CmuxReviewEvidence>,
}

#[derive(Debug)]
pub struct CmuxReviewEvidence {
    pub kind: CmuxReviewEvidenceKind,
    pub summary: String,
    pub command: Option<String>,
    pub path: Option<String>,
    pub line: Option<usize>,
}

#[derive(Debug, Clone, Copy, Eq, PartialEq, Structural)]
pub enum CmuxReviewEvidenceKind {
    CodePath,
    Guard,
    Test,
    Build,
    StaticAnalysis,
    Reproduction,
    RuntimeTrace,
    UiAutomation,
    Counterexample,
    Human,
}

#[derive(Debug)]
pub struct CmuxReviewChallenge {
    pub disposition: CmuxReviewChallengeDisposition,
    pub evidence: Vec<CmuxReviewEvidence>,
}

#[derive(Debug, Clone, Copy, Eq, PartialEq, Structural)]
pub enum CmuxReviewChallengeDisposition {
    Refuted,
    SurvivesChallenge,
    Uncertain,
}

#[derive(Debug)]
pub struct CmuxReviewVerification {
    pub result: CmuxReviewVerificationResult,
    pub evidence: Vec<CmuxReviewEvidence>,
}

#[derive(Debug, Clone, Copy, Eq, PartialEq, Structural)]
pub enum CmuxReviewVerificationResult {
    Reproduced,
    SupportedStatic,
    NotReproduced,
    Blocked,
    HumanJudgment,
}

#[derive(Debug)]
pub struct CmuxReviewRepair {
    pub attempted: bool,
    pub result: CmuxReviewRepairResult,
    pub after_source: Option<CmuxReviewSource>,
    pub verification: Option<CmuxReviewPostRepairVerification>,
    pub notes: Option<String>,
}

#[derive(Debug)]
pub struct CmuxReviewPostRepairVerification {
    pub result: CmuxReviewPostRepairVerificationResult,
    pub evidence: Vec<CmuxReviewEvidence>,
}

#[derive(Debug, Clone, Copy, Eq, PartialEq, Structural)]
pub enum CmuxReviewPostRepairVerificationResult {
    Passed,
    Failed,
    Blocked,
}

#[derive(Debug, Clone, Copy, Eq, PartialEq, Structural)]
pub enum CmuxReviewRepairResult {
    Fixed,
    Failed,
    Deferred,
    NotAttempted,
}

#[derive(Debug, Clone, Copy, Eq, PartialEq, Structural)]
pub enum CmuxReviewDisposition {
    Repaired,
    Refuted,
    AcceptedRisk,
    Superseded,
    HumanRequired,
    Unresolved,
    Suppressed,
}

#[derive(Debug)]
pub struct CmuxReviewEnvelope {
    pub schema_version: u32,
    pub policy_version: String,
    pub source: CmuxReviewSource,
    pub created_at: String,
    pub intent: String,
    pub requirements: CmuxReviewRequirementSummary,
    pub attention: Vec<CmuxReviewAttentionItem>,
    pub frontier: Vec<CmuxReviewFrontierItem>,
    pub quiet: Vec<CmuxReviewQuietItem>,
    pub coverage_gaps: Vec<String>,
}

#[derive(Debug, Clone, Copy, Eq, PartialEq, Structural)]
pub struct CmuxReviewRequirementSummary {
    pub satisfied: usize,
    pub missing: usize,
    pub uncertain: usize,
}

#[derive(Debug)]
pub struct CmuxReviewAttentionItem {
    pub id: String,
    pub title: String,
    pub severity: CmuxReviewSeverity,
    pub disposition: CmuxReviewDisposition,
    pub paths: Vec<String>,
    pub claims: Vec<CmuxReviewClaim>,
    pub challenge: CmuxReviewChallengeDisposition,
    pub verification: CmuxReviewVerificationResult,
    pub repair: Option<CmuxReviewRepair>,
}

#[derive(Debug)]
pub struct CmuxReviewFrontierItem {
    pub finding_id: String,
    pub kind: CmuxReviewFrontierKind,
    pub message: String,
}

#[derive(Debug, Clone, Copy, Eq, PartialEq, Structural)]
pub enum CmuxReviewFrontierKind {
    UnknownClaim,
    ChallengeUncertain,
    VerificationBlocked,
    HumanJudgment,
    HumanRequired,
    Unresolved,
}

#[derive(Debug)]
pub struct CmuxReviewQuietItem {
    pub id: String,
    pub title: String,
    pub disposition: CmuxReviewDisposition,
}

/// Why a receipt was refused.
#[derive(Debug)]
pub struct CmuxReviewError {
    message: String,
}

impl CmuxReviewError {
    pub closed spec fn spec_message(&self) -> Seq<char> {
        self.message@
    }

    fn new(message: Vec<char>) -> (e: CmuxReviewError)
        ensures
            e.spec_message() == message@,
    {
        CmuxReviewError { message: crate::text::string_of(message.as_slice()) }
    }

    /// The refusal's text.
    pub fn to_string(&self) -> (s: String)
        ensures
            s@ == self.spec_message(),
    {
        self.message.clone()
    }
}

// ---------------------------------------------------------------------------
// Mathematical forms of the receipt's reusable parts.

pub open spec fn opt_str(o: Option<String>) -> Option<Seq<char>> {
    match o {
        Some(s) => Some(s@),
        None => None,
    }
}

pub struct EvidenceView {
    pub kind: CmuxReviewEvidenceKind,
    pub summary: Seq<char>,
    pub command: Option<Seq<char>>,
    pub path: Option<Seq<char>>,
    pub line: Option<usize>,
}

pub struct ClaimView {
    pub kind: ClaimKind,
    pub message: Seq<char>,
    pub evidence: Seq<EvidenceView>,
}

pub struct SourceView {
    pub base_sha: Seq<char>,
    pub head_sha: Seq<char>,
    pub diff_sha256: Seq<char>,
    pub working_tree_dirty: bool,
    pub ruleset_sha256: Option<Seq<char>>,
}

pub struct PostRepairView {
    pub result: CmuxReviewPostRepairVerificationResult,
    pub evidence: Seq<EvidenceView>,
}

pub struct RepairView {
    pub attempted: bool,
    pub result: CmuxReviewRepairResult,
    pub after_source: Option<SourceView>,
    pub verification: Option<PostRepairView>,
    pub notes: Option<Seq<char>>,
}

impl View for CmuxReviewEvidence {
    type V = EvidenceView;

    open spec fn view(&self) -> EvidenceView {
        EvidenceView {
            kind: self.kind,
            summary: self.summary@,
            command: opt_str(self.command),
            path: opt_str(self.path),
            line: self.line,
        }
    }
}

pub open spec fn evidence_views(es: Seq<CmuxReviewEvidence>) -> Seq<EvidenceView> {
    es.map_values(|e: CmuxReviewEvidence| e@)
}

impl View for CmuxReviewClaim {
    type V = ClaimView;

    open spec fn view(&self) -> ClaimView {
        ClaimView { kind: self.kind, message: self.message@, evidence: evidence_views(self.evidence@) }
    }
}

pub open spec fn claim_views(cs: Seq<CmuxReviewClaim>) -> Seq<ClaimView> {
    cs.map_values(|c: CmuxReviewClaim| c@)
}

impl View for CmuxReviewSource {
    type V = SourceView;

    open spec fn view(&self) -> SourceView {
        SourceView {
            base_sha: self.base_sha@,
            head_sha: self.head_sha@,
            diff_sha256: self.diff_sha256@,
            working_tree_dirty: self.working_tree_dirty,
            ruleset_sha256: opt_str(self.ruleset_sha256),
        }
    }
}

pub open spec fn opt_source(o: Option<CmuxReviewSource>) -> Option<SourceView> {
    match o {
        Some(s) => Some(s@),
        None => None,
    }
}

impl View for CmuxReviewPostRepairVerification {
    type V = PostRepairView;

    open spec fn view(&self) -> PostRepairView {
        PostRepairView { result: self.result, evidence: evidence_views(self.evidence@) }
    }
}

impl View for CmuxReviewRepair {
    type V = RepairView;

    open spec fn view(&self) -> RepairView {
        RepairView {
            attempted: self.attempted,
            result: self.result,
            after_source: opt_source(self.after_source),
            verification: match self.verification {
                Some(v) => Some(v@),
                None => None,
            },
            notes: opt_str(self.notes),
        }
    }
}

pub open spec fn opt_repair(o: Option<CmuxReviewRepair>) -> Option<RepairView> {
    match o {
        Some(r) => Some(r@),
        None => None,
    }
}

// ---------------------------------------------------------------------------
// Copies that keep the values.

pub(crate) fn copy_opt_string(o: &Option<String>) -> (r: Option<String>)
    ensures
        r == *o,
{
    match o {
        Some(s) => Some(s.clone()),
        None => None,
    }
}

pub(crate) fn copy_strings(v: &Vec<String>) -> (r: Vec<String>)
    ensures
        strings_view(r@) == strings_view(v@),
{
    let mut r: Vec<String> = Vec::new();
    let mut i: usize = 0;
    while i < v.len()
        invariant
            i <= v@.len(),
            strings_view(r@) == strings_view(v@).take(i as int),
            r@.len() == i,
        decreases v.len() - i,
    {
        let ghost prev = r@;
        let s = v[i].clone();
        r.push(s);
        assert(r@ == prev.push(s));
        assert(strings_view(r@)[i as int] == strings_view(v@)[i as int]);
        i = i + 1;
        assert(strings_view(r@) =~= strings_view(v@).take(i as int));
    }
    assert(strings_view(v@).take(i as int) =~= strings_view(v@));
    r
}

impl CmuxReviewEvidence {
    fn copy(&self) -> (r: CmuxReviewEvidence)
        ensures
            r@ == self@,
    {
        CmuxReviewEvidence {
            kind: self.kind,
            summary: self.summary.clone(),
            command: copy_opt_string(&self.command),
            path: copy_opt_string(&self.path),
            line: self.line,
        }
    }
}

fn copy_evidence(v: &Vec<CmuxReviewEvidence>) -> (r: Vec<CmuxReviewEvidence>)
    ensures
        evidence_views(r@) == evidence_views(v@),
{
    let mut r: Vec<CmuxReviewEvidence> = Vec::new();
    let mut i: usize = 0;
    while i < v.len()
        invariant
            i <= v@.len(),
            evidence_views(r@) == evidence_views(v@).take(i as int),
            r@.len() == i,
        decreases v.len() - i,
    {
        let ghost prev = r@;
        let e = v[i].copy();
        r.push(e);
        assert(r@ == prev.push(e));
        assert(evidence_views(r@)[i as int] == evidence_views(v@)[i as int]);
        i = i + 1;
        assert(evidence_views(r@) =~= evidence_views(v@).take(i as int));
    }
    assert(evidence_views(v@).take(i as int) =~= evidence_views(v@));
    r
}

impl CmuxReviewClaim {
    fn copy(&self) -> (r: CmuxReviewClaim)
        ensures
            r@ == self@,
    {
        CmuxReviewClaim {
            kind: self.kind,
            message: self.message.clone(),
            evidence: copy_evidence(&self.evidence),
        }
    }
}

fn copy_claims(v: &Vec<CmuxReviewClaim>) -> (r: Vec<CmuxReviewClaim>)
    ensures
        claim_views(r@) == claim_views(v@),
{
    let mut r: Vec<CmuxReviewClaim> = Vec::new();
    let mut i: usize = 0;
    while i < v.len()
        invariant
            i <= v@.len(),
            claim_views(r@) == claim_views(v@).take(i as int),
            r@.len() == i,
        decreases v.len() - i,
    {
        let ghost prev = r@;
        let c = v[i].copy();
        r.push(c);
        assert(r@ == prev.push(c));
        assert(claim_views(r@)[i as int] == claim_views(v@)[i as int]);
        i = i + 1;
        assert(claim_views(r@) =~= claim_views(v@).take(i as int));
    }
    assert(claim_views(v@).take(i as int) =~= claim_views(v@));
    r
}

impl CmuxReviewSource {
    fn copy(&self) -> (r: CmuxReviewSource)
        ensures
            r@ == self@,
    {
        CmuxReviewSource {
            base_sha: self.base_sha.clone(),
            head_sha: self.head_sha.clone(),
            diff_sha256: self.diff_sha256.clone(),
            working_tree_dirty: self.working_tree_dirty,
            ruleset_sha256: copy_opt_string(&self.ruleset_sha256),
        }
    }
}

impl CmuxReviewRepair {
    fn copy(&self) -> (r: CmuxReviewRepair)
        ensures
            r@ == self@,
    {
        let after_source = match &self.after_source {
            Some(s) => Some(s.copy()),
            None => None,
        };
        let verification = match &self.verification {
            Some(v) => Some(
                CmuxReviewPostRepairVerification { result: v.result, evidence: copy_evidence(&v.evidence) },
            ),
            None => None,
        };
        CmuxReviewRepair {
            attempted: self.attempted,
            result: self.result,
            after_source,
            verification,
            notes: copy_opt_string(&self.notes),
        }
    }
}

// ---------------------------------------------------------------------------
// Field checks.

/// A canonical string: non-empty, trimmed, without NUL.
pub open spec fn nonempty_error(v: Seq<char>, field: Seq<char>) -> Option<Seq<char>> {
    if v.len() == 0 || trim(v) != v || v.contains('\0') {
        Some(field + " must be a non-empty canonical string"@)
    } else {
        None
    }
}

/// Lowercase hex throughout (these characters are one byte each, so the
/// character count is the byte count).
pub open spec fn all_lower_hex(v: Seq<char>) -> bool {
    forall|i: int| 0 <= i < v.len() ==> is_lower_hex(#[trigger] v[i])
}

pub open spec fn git_object_id_error(v: Seq<char>, field: Seq<char>) -> Option<Seq<char>> {
    if (v.len() == 40 || v.len() == 64) && all_lower_hex(v) {
        None
    } else {
        Some(field + " must be an exact 40- or 64-character lowercase Git object id"@)
    }
}

pub open spec fn sha256_error(v: Seq<char>, field: Seq<char>) -> Option<Seq<char>> {
    if v.len() == 64 && all_lower_hex(v) {
        None
    } else {
        Some(field + " must be an exact 64-character lowercase sha256"@)
    }
}

/// A source coordinate: two Git object ids, a diff digest and an optional
/// ruleset digest.
pub open spec fn source_error(s: CmuxReviewSource, field: Seq<char>) -> Option<Seq<char>> {
    either(
        git_object_id_error(s.base_sha@, field + ".base_sha"@),
        either(
            git_object_id_error(s.head_sha@, field + ".head_sha"@),
            either(
                sha256_error(s.diff_sha256@, field + ".diff_sha256"@),
                match s.ruleset_sha256 {
                    Some(r) => sha256_error(r@, field + ".ruleset_sha256"@),
                    None => None,
                },
            ),
        ),
    )
}

fn nonempty_check(v: &str, field: &str) -> (r: Option<Vec<char>>)
    ensures
        msg(r) == nonempty_error(v@, field@),
{
    let cs = chars_of(v);
    if cs.len() == 0 || !is_trimmed(cs.as_slice()) || crate::text::contains_char(cs.as_slice(), '\0') {
        let mut m = chars_of(field);
        extend_str(&mut m, " must be a non-empty canonical string");
        return Some(m);
    }
    None
}

pub fn all_lower_hex_exec(v: &str) -> (r: bool)
    ensures
        r == all_lower_hex(v@),
{
    let cs = chars_of(v);
    let mut i: usize = 0;
    while i < cs.len()
        invariant
            i <= cs@.len(),
            cs@ == v@,
            forall|k: int| 0 <= k < i ==> is_lower_hex(#[trigger] cs@[k]),
        decreases cs.len() - i,
    {
        if !is_lower_hex_exec(cs[i]) {
            return false;
        }
        i = i + 1;
    }
    true
}

fn with_suffix(field: &str, suffix: &str) -> (m: Vec<char>)
    ensures
        m@ == field@ + suffix@,
{
    let mut m = chars_of(field);
    extend_str(&mut m, suffix);
    m
}

fn git_object_id_check(v: &str, field: &[char]) -> (r: Option<Vec<char>>)
    ensures
        msg(r) == git_object_id_error(v@, field@),
{
    let n = chars_of(v).len();
    if (n == 40 || n == 64) && all_lower_hex_exec(v) {
        None
    } else {
        let mut m = crate::text::slice_chars(field, 0, field.len());
        assert(m@ == field@);
        extend_str(&mut m, " must be an exact 40- or 64-character lowercase Git object id");
        Some(m)
    }
}

fn sha256_check(v: &str, field: &[char]) -> (r: Option<Vec<char>>)
    ensures
        msg(r) == sha256_error(v@, field@),
{
    let n = chars_of(v).len();
    if n == 64 && all_lower_hex_exec(v) {
        None
    } else {
        let mut m = crate::text::slice_chars(field, 0, field.len());
        assert(m@ == field@);
        extend_str(&mut m, " must be an exact 64-character lowercase sha256");
        Some(m)
    }
}

fn source_check(s: &CmuxReviewSource, field: &str) -> (r: Option<Vec<char>>)
    ensures
        msg(r) == source_error(*s, field@),
{
    let f = with_suffix(field, ".base_sha");
    match git_object_id_check(s.base_sha.as_str(), f.as_slice()) {
        Some(m) => return Some(m),
        None => {},
    }
    let f = with_suffix(field, ".head_sha");
    match git_object_id_check(s.head_sha.as_str(), f.as_slice()) {
        Some(m) => return Some(m),
        None => {},
    }
    let f = with_suffix(field, ".diff_sha256");
    match sha256_check(s.diff_sha256.as_str(), f.as_slice()) {
        Some(m) => return Some(m),
        None => {},
    }
    match &s.ruleset_sha256 {
        Some(ruleset) => {
            let f = with_suffix(field, ".ruleset_sha256");
            sha256_check(ruleset.as_str(), f.as_slice())
        },
        None => None,
    }
}

/// Every evidence summary is a canonical string.
pub open spec fn evidence_error(es: Seq<CmuxReviewEvidence>, field: Seq<char>) -> Option<Seq<char>> {
    first_error(es.len(), |k: int| nonempty_error(es[k].summary@, field))
}

fn evidence_check(es: &Vec<CmuxReviewEvidence>, field: &str) -> (r: Option<Vec<char>>)
    ensures
        msg(r) == evidence_error(es@, field@),
{
    let ghost check = |k: int| nonempty_error(es@[k].summary@, field@);
    let mut k: usize = 0;
    while k < es.len()
        invariant
            k <= es@.len(),
            check == (|k: int| nonempty_error(es@[k].summary@, field@)),
            first_error(k as nat, check) is None,
        decreases es.len() - k,
    {
        let item = nonempty_check(es[k].summary.as_str(), field);
        proof {
            lemma_first_error_step(k as nat, check);
        }
        if let Some(m) = item {
            proof {
                lemma_first_error_stable((k + 1) as nat, es@.len(), check);
            }
            return Some(m);
        }
        k = k + 1;
    }
    None
}

// ---------------------------------------------------------------------------
// Findings.

/// The disposition's name as `Debug` writes it.
pub open spec fn disposition_name(d: CmuxReviewDisposition) -> Seq<char> {
    match d {
        CmuxReviewDisposition::Repaired => "Repaired"@,
        CmuxReviewDisposition::Refuted => "Refuted"@,
        CmuxReviewDisposition::AcceptedRisk => "AcceptedRisk"@,
        CmuxReviewDisposition::Superseded => "Superseded"@,
        CmuxReviewDisposition::HumanRequired => "HumanRequired"@,
        CmuxReviewDisposition::Unresolved => "Unresolved"@,
        CmuxReviewDisposition::Suppressed => "Suppressed"@,
    }
}

fn disposition_name_exec(d: CmuxReviewDisposition) -> (r: &'static str)
    ensures
        r@ == disposition_name(d),
{
    match d {
        CmuxReviewDisposition::Repaired => "Repaired",
        CmuxReviewDisposition::Refuted => "Refuted",
        CmuxReviewDisposition::AcceptedRisk => "AcceptedRisk",
        CmuxReviewDisposition::Superseded => "Superseded",
        CmuxReviewDisposition::HumanRequired => "HumanRequired",
        CmuxReviewDisposition::Unresolved => "Unresolved",
        CmuxReviewDisposition::Suppressed => "Suppressed",
    }
}

pub open spec fn evidence_supported(v: CmuxReviewVerificationResult) -> bool {
    v == CmuxReviewVerificationResult::Reproduced || v == CmuxReviewVerificationResult::SupportedStatic
}

pub open spec fn has_claim_kind(f: CmuxReviewFinding, a: ClaimKind, b: ClaimKind) -> bool {
    exists|i: int|
        0 <= i < f.claims@.len() && ((#[trigger] f.claims@[i]).kind == a || f.claims@[i].kind == b)
}

pub open spec fn claim_item_error(cs: Seq<CmuxReviewClaim>, i: int) -> Option<Seq<char>> {
    either(
        nonempty_error(cs[i].message@, "finding claim message"@),
        evidence_error(cs[i].evidence@, "finding claim evidence summary"@),
    )
}

/// `"finding " + id + suffix`.
pub open spec fn finding_message(f: CmuxReviewFinding, suffix: Seq<char>) -> Seq<char> {
    "finding "@ + f.id@ + suffix
}

/// Two sources name the same coordinate.
pub open spec fn same_source(a: CmuxReviewSource, b: CmuxReviewSource) -> bool {
    a@ == b@
}

/// What a `repaired` disposition demands: an attempted fixed repair with a
/// changed, valid resulting source and passed, evidence-bearing post-repair
/// verification, on top of pre-repair evidence support.
pub open spec fn repair_error(f: CmuxReviewFinding, source: CmuxReviewSource) -> Option<Seq<char>> {
    match f.repair {
        None => Some(finding_message(f, " is disposed repaired without a repair receipt"@)),
        Some(repair) => if !repair.attempted || repair.result != CmuxReviewRepairResult::Fixed {
            Some(finding_message(f, " is disposed repaired without an attempted fixed repair"@))
        } else {
            match repair.after_source {
                None => Some(
                    finding_message(f, " is disposed repaired without an exact resulting source"@),
                ),
                Some(after) => either(
                    source_error(after, "repair.after_source"@),
                    if same_source(after, source) {
                        Some(
                            finding_message(
                                f,
                                " is disposed repaired but the resulting source is unchanged"@,
                            ),
                        )
                    } else {
                        match repair.verification {
                            None => Some(
                                finding_message(
                                    f,
                                    " is disposed repaired without post-repair verification"@,
                                ),
                            ),
                            Some(post) => if post.result
                                != CmuxReviewPostRepairVerificationResult::Passed
                                || post.evidence@.len() == 0 {
                                Some(
                                    finding_message(
                                        f,
                                        " is disposed repaired without passed, evidence-bearing post-repair verification"@,
                                    ),
                                )
                            } else {
                                either(
                                    evidence_error(
                                        post.evidence@,
                                        "post-repair verification evidence summary"@,
                                    ),
                                    if !evidence_supported(f.verification.result) {
                                        Some(
                                            finding_message(
                                                f,
                                                " is disposed repaired without pre-repair evidence support"@,
                                            ),
                                        )
                                    } else {
                                        None
                                    },
                                )
                            },
                        }
                    },
                ),
            }
        },
    }
}

/// The consistency rules between a finding's disposition, its challenge,
/// its verification and its claims.
pub open spec fn finding_rules_error(f: CmuxReviewFinding, source: CmuxReviewSource) -> Option<
    Seq<char>,
> {
    if f.disposition == CmuxReviewDisposition::Refuted && f.challenge.disposition
        != CmuxReviewChallengeDisposition::Refuted {
        Some(finding_message(f, " is disposed refuted but the challenger did not refute it"@))
    } else if f.challenge.disposition == CmuxReviewChallengeDisposition::Refuted && f.disposition
        != CmuxReviewDisposition::Refuted && f.disposition != CmuxReviewDisposition::Suppressed {
        Some(
            finding_message(
                f,
                " survived as "@ + disposition_name(f.disposition)
                    + " after the challenger refuted it"@,
            ),
        )
    } else if evidence_supported(f.verification.result) && !has_claim_kind(
        f,
        ClaimKind::Proven,
        ClaimKind::Derived,
    ) {
        Some(
            finding_message(
                f,
                " reports evidence-supported verification without a proven or derived claim"@,
            ),
        )
    } else {
        either(
            if f.disposition == CmuxReviewDisposition::Repaired {
                repair_error(f, source)
            } else {
                None
            },
            if f.disposition == CmuxReviewDisposition::HumanRequired && !has_claim_kind(
                f,
                ClaimKind::Unknown,
                ClaimKind::Unknown,
            ) && f.challenge.disposition != CmuxReviewChallengeDisposition::Uncertain && !(
            f.verification.result == CmuxReviewVerificationResult::Blocked
                || f.verification.result == CmuxReviewVerificationResult::HumanJudgment) {
                Some(
                    finding_message(
                        f,
                        " requires a human but retains no explicit uncertainty or blocked/human verification state"@,
                    ),
                )
            } else {
                None
            },
        )
    }
}

/// The first reason to refuse a finding.
pub open spec fn finding_error(f: CmuxReviewFinding, source: CmuxReviewSource) -> Option<Seq<char>> {
    either(
        nonempty_error(f.id@, "finding.id"@),
        either(
            nonempty_error(f.title@, "finding.title"@),
            either(
                nonempty_error(f.failure_mode@, "finding.failure_mode"@),
                if f.claims@.len() == 0 {
                    Some(finding_message(f, " must retain at least one provenance-bearing claim"@))
                } else {
                    either(
                        first_error(f.claims@.len(), |i: int| claim_item_error(f.claims@, i)),
                        either(
                            evidence_error(f.challenge.evidence@, "challenge evidence summary"@),
                            either(
                                evidence_error(
                                    f.verification.evidence@,
                                    "verification evidence summary"@,
                                ),
                                finding_rules_error(f, source),
                            ),
                        ),
                    )
                },
            ),
        ),
    )
}

fn finding_text(f: &CmuxReviewFinding, suffix: &str) -> (m: Vec<char>)
    ensures
        m@ == finding_message(*f, suffix@),
{
    let mut m = chars_of("finding ");
    extend_str(&mut m, f.id.as_str());
    extend_str(&mut m, suffix);
    m
}

fn has_claim_kind_exec(f: &CmuxReviewFinding, a: ClaimKind, b: ClaimKind) -> (r: bool)
    ensures
        r == has_claim_kind(*f, a, b),
{
    let mut i: usize = 0;
    while i < f.claims.len()
        invariant
            i <= f.claims@.len(),
            forall|k: int|
                0 <= k < i ==> (#[trigger] f.claims@[k]).kind != a && f.claims@[k].kind != b,
        decreases f.claims.len() - i,
    {
        if f.claims[i].kind == a || f.claims[i].kind == b {
            return true;
        }
        i = i + 1;
    }
    false
}

fn same_source_exec(a: &CmuxReviewSource, b: &CmuxReviewSource) -> (r: bool)
    ensures
        r == same_source(*a, *b),
{
    let ab = chars_of(a.base_sha.as_str());
    let bb = chars_of(b.base_sha.as_str());
    let ah = chars_of(a.head_sha.as_str());
    let bh = chars_of(b.head_sha.as_str());
    let ad = chars_of(a.diff_sha256.as_str());
    let bd = chars_of(b.diff_sha256.as_str());
    let rules = match (&a.ruleset_sha256, &b.ruleset_sha256) {
        (Some(x), Some(y)) => {
            let xc = chars_of(x.as_str());
            let yc = chars_of(y.as_str());
            crate::text::chars_eq(xc.as_slice(), yc.as_slice())
        },
        (None, None) => true,
        _ => false,
    };
    crate::text::chars_eq(ab.as_slice(), bb.as_slice()) && crate::text::chars_eq(
        ah.as_slice(),
        bh.as_slice(),
    ) && crate::text::chars_eq(ad.as_slice(), bd.as_slice()) && a.working_tree_dirty
        == b.working_tree_dirty && rules
}

fn repair_check(f: &CmuxReviewFinding, source: &CmuxReviewSource) -> (r: Option<Vec<char>>)
    ensures
        msg(r) == repair_error(*f, *source),
{
    let repair = match &f.repair {
        None => return Some(finding_text(f, " is disposed repaired without a repair receipt")),
        Some(repair) => repair,
    };
    if !repair.attempted || repair.result != CmuxReviewRepairResult::Fixed {
        return Some(finding_text(f, " is disposed repaired without an attempted fixed repair"));
    }
    let after = match &repair.after_source {
        None => return Some(
            finding_text(f, " is disposed repaired without an exact resulting source"),
        ),
        Some(after) => after,
    };
    match source_check(after, "repair.after_source") {
        Some(m) => return Some(m),
        None => {},
    }
    if same_source_exec(after, source) {
        return Some(finding_text(f, " is disposed repaired but the resulting source is unchanged"));
    }
    let post = match &repair.verification {
        None => return Some(
            finding_text(f, " is disposed repaired without post-repair verification"),
        ),
        Some(post) => post,
    };
    if post.result != CmuxReviewPostRepairVerificationResult::Passed || post.evidence.len() == 0 {
        return Some(
            finding_text(
                f,
                " is disposed repaired without passed, evidence-bearing post-repair verification",
            ),
        );
    }
    match evidence_check(&post.evidence, "post-repair verification evidence summary") {
        Some(m) => return Some(m),
        None => {},
    }
    if !(f.verification.result == CmuxReviewVerificationResult::Reproduced || f.verification.result
        == CmuxReviewVerificationResult::SupportedStatic) {
        return Some(finding_text(f, " is disposed repaired without pre-repair evidence support"));
    }
    None
}

fn finding_rules_check(f: &CmuxReviewFinding, source: &CmuxReviewSource) -> (r: Option<Vec<char>>)
    ensures
        msg(r) == finding_rules_error(*f, *source),
{
    if f.disposition == CmuxReviewDisposition::Refuted && f.challenge.disposition
        != CmuxReviewChallengeDisposition::Refuted {
        return Some(finding_text(f, " is disposed refuted but the challenger did not refute it"));
    }
    if f.challenge.disposition == CmuxReviewChallengeDisposition::Refuted && f.disposition
        != CmuxReviewDisposition::Refuted && f.disposition != CmuxReviewDisposition::Suppressed {
        let mut m = chars_of("finding ");
        extend_str(&mut m, f.id.as_str());
        extend_str(&mut m, " survived as ");
        extend_str(&mut m, disposition_name_exec(f.disposition));
        extend_str(&mut m, " after the challenger refuted it");
        return Some(m);
    }
    let supported = f.verification.result == CmuxReviewVerificationResult::Reproduced
        || f.verification.result == CmuxReviewVerificationResult::SupportedStatic;
    if supported && !has_claim_kind_exec(f, ClaimKind::Proven, ClaimKind::Derived) {
        return Some(
            finding_text(
                f,
                " reports evidence-supported verification without a proven or derived claim",
            ),
        );
    }
    if f.disposition == CmuxReviewDisposition::Repaired {
        match repair_check(f, source) {
            Some(m) => return Some(m),
            None => {},
        }
    }
    if f.disposition == CmuxReviewDisposition::HumanRequired && !has_claim_kind_exec(
        f,
        ClaimKind::Unknown,
        ClaimKind::Unknown,
    ) && f.challenge.disposition != CmuxReviewChallengeDisposition::Uncertain && !(
    f.verification.result == CmuxReviewVerificationResult::Blocked || f.verification.result
        == CmuxReviewVerificationResult::HumanJudgment) {
        return Some(
            finding_text(
                f,
                " requires a human but retains no explicit uncertainty or blocked/human verification state",
            ),
        );
    }
    None
}

fn validate_finding(f: &CmuxReviewFinding, source: &CmuxReviewSource) -> (r: Option<Vec<char>>)
    ensures
        msg(r) == finding_error(*f, *source),
{
    match nonempty_check(f.id.as_str(), "finding.id") {
        Some(m) => return Some(m),
        None => {},
    }
    match nonempty_check(f.title.as_str(), "finding.title") {
        Some(m) => return Some(m),
        None => {},
    }
    match nonempty_check(f.failure_mode.as_str(), "finding.failure_mode") {
        Some(m) => return Some(m),
        None => {},
    }
    if f.claims.len() == 0 {
        return Some(finding_text(f, " must retain at least one provenance-bearing claim"));
    }
    let ghost check = |i: int| claim_item_error(f.claims@, i);
    let mut i: usize = 0;
    while i < f.claims.len()
        invariant
            i <= f.claims@.len(),
            check == (|i: int| claim_item_error(f.claims@, i)),
            first_error(i as nat, check) is None,
            nonempty_error(f.id@, "finding.id"@) is None,
            nonempty_error(f.title@, "finding.title"@) is None,
            nonempty_error(f.failure_mode@, "finding.failure_mode"@) is None,
            f.claims@.len() > 0,
        decreases f.claims.len() - i,
    {
        let item = match nonempty_check(f.claims[i].message.as_str(), "finding claim message") {
            Some(m) => Some(m),
            None => evidence_check(&f.claims[i].evidence, "finding claim evidence summary"),
        };
        proof {
            lemma_first_error_step(i as nat, check);
            assert(msg(item) == check(i as int));
        }
        if let Some(m) = item {
            proof {
                lemma_first_error_stable((i + 1) as nat, f.claims@.len(), check);
            }
            return Some(m);
        }
        i = i + 1;
    }
    match evidence_check(&f.challenge.evidence, "challenge evidence summary") {
        Some(m) => return Some(m),
        None => {},
    }
    match evidence_check(&f.verification.evidence, "verification evidence summary") {
        Some(m) => return Some(m),
        None => {},
    }
    finding_rules_check(f, source)
}

// ---------------------------------------------------------------------------
// Receipts.

pub open spec fn disposition_count(fs: Seq<CmuxReviewFinding>, d: CmuxReviewDisposition) -> nat {
    count_matching(fs, |f: CmuxReviewFinding| f.disposition == d)
}

pub open spec fn verified_count(fs: Seq<CmuxReviewFinding>) -> nat {
    count_matching(fs, |f: CmuxReviewFinding| evidence_supported(f.verification.result))
}

pub open spec fn finding_ids(fs: Seq<CmuxReviewFinding>) -> Seq<Seq<char>> {
    fs.map_values(|f: CmuxReviewFinding| f.id@)
}

/// `"summary.<field>=<stated> does not match <actual> <what>"`.
pub open spec fn summary_mismatch(field: Seq<char>, stated: nat, actual: nat, what: Seq<char>) -> Seq<char> {
    "summary."@ + field + "="@ + decimal(stated) + " does not match "@ + decimal(actual) + " "@ + what
}

pub open spec fn receipt_item_error(fs: Seq<CmuxReviewFinding>, source: CmuxReviewSource, i: int) -> Option<
    Seq<char>,
> {
    either(
        finding_error(fs[i], source),
        if repeats_earlier(finding_ids(fs), i) {
            Some("duplicate finding id "@ + fs[i].id@)
        } else {
            None
        },
    )
}

/// The summary's counts agree with the findings, then each finding is
/// valid and its id unique.
pub open spec fn receipt_findings_error(r: CmuxReviewReceipt) -> Option<Seq<char>> {
    let fs = r.findings@;
    if r.summary.hypotheses_investigated < fs.len() {
        Some(
            "summary.hypotheses_investigated cannot be smaller than the retained finding count"@,
        )
    } else if r.summary.refuted != disposition_count(fs, CmuxReviewDisposition::Refuted) {
        Some(
            summary_mismatch(
                "refuted"@,
                r.summary.refuted as nat,
                disposition_count(fs, CmuxReviewDisposition::Refuted),
                "refuted findings"@,
            ),
        )
    } else if r.summary.suppressed != disposition_count(fs, CmuxReviewDisposition::Suppressed) {
        Some(
            summary_mismatch(
                "suppressed"@,
                r.summary.suppressed as nat,
                disposition_count(fs, CmuxReviewDisposition::Suppressed),
                "suppressed findings"@,
            ),
        )
    } else if r.summary.human_judgment != disposition_count(
        fs,
        CmuxReviewDisposition::HumanRequired,
    ) {
        Some(
            summary_mismatch(
                "human_judgment"@,
                r.summary.human_judgment as nat,
                disposition_count(fs, CmuxReviewDisposition::HumanRequired),
                "human-required findings"@,
            ),
        )
    } else if r.summary.verified != verified_count(fs) {
        Some(
            summary_mismatch(
                "verified"@,
                r.summary.verified as nat,
                verified_count(fs),
                "evidence-supported findings"@,
            ),
        )
    } else {
        first_error(fs.len(), |i: int| receipt_item_error(fs, r.source, i))
    }
}

/// The first reason to refuse a receipt.
pub open spec fn receipt_error(r: CmuxReviewReceipt) -> Option<Seq<char>> {
    if r.schema_version != CMUX_REVIEW_RECEIPT_SCHEMA_VERSION {
        Some(
            "unsupported cmux review receipt schema "@ + decimal(r.schema_version as nat)
                + "; expected 1"@,
        )
    } else {
        either(
            nonempty_error(r.policy_version@, "policy_version"@),
            either(
                nonempty_error(r.repository_root@, "repository_root"@),
                either(
                    nonempty_error(r.created_at@, "created_at"@),
                    either(source_error(r.source, "source"@), receipt_findings_error(r)),
                ),
            ),
        )
    }
}

fn count_disposition(fs: &Vec<CmuxReviewFinding>, d: CmuxReviewDisposition) -> (n: usize)
    ensures
        n == disposition_count(fs@, d),
{
    let mut n: usize = 0;
    let mut i: usize = 0;
    while i < fs.len()
        invariant
            i <= fs@.len(),
            n == count_matching(fs@.take(i as int), |f: CmuxReviewFinding| f.disposition == d),
        decreases fs.len() - i,
    {
        proof {
            lemma_count_matching_step(fs@, i as int, |f: CmuxReviewFinding| f.disposition == d);
            lemma_count_matching_bound(
                fs@.take(i as int),
                |f: CmuxReviewFinding| f.disposition == d,
            );
        }
        if fs[i].disposition == d {
            n = n + 1;
        }
        i = i + 1;
    }
    assert(fs@.take(i as int) =~= fs@);
    n
}

fn count_verified(fs: &Vec<CmuxReviewFinding>) -> (n: usize)
    ensures
        n == verified_count(fs@),
{
    let mut n: usize = 0;
    let mut i: usize = 0;
    while i < fs.len()
        invariant
            i <= fs@.len(),
            n == count_matching(
                fs@.take(i as int),
                |f: CmuxReviewFinding| evidence_supported(f.verification.result),
            ),
        decreases fs.len() - i,
    {
        proof {
            lemma_count_matching_step(
                fs@,
                i as int,
                |f: CmuxReviewFinding| evidence_supported(f.verification.result),
            );
            lemma_count_matching_bound(
                fs@.take(i as int),
                |f: CmuxReviewFinding| evidence_supported(f.verification.result),
            );
        }
        if fs[i].verification.result == CmuxReviewVerificationResult::Reproduced
            || fs[i].verification.result == CmuxReviewVerificationResult::SupportedStatic {
            n = n + 1;
        }
        i = i + 1;
    }
    assert(fs@.take(i as int) =~= fs@);
    n
}

fn finding_id_list(fs: &Vec<CmuxReviewFinding>) -> (r: Vec<String>)
    ensures
        strings_view(r@) == finding_ids(fs@),
        r@.len() == fs@.len(),
{
    let mut r: Vec<String> = Vec::new();
    let mut i: usize = 0;
    while i < fs.len()
        invariant
            i <= fs@.len(),
            strings_view(r@) == finding_ids(fs@).take(i as int),
            r@.len() == i,
        decreases fs.len() - i,
    {
        let ghost prev = r@;
        let id = fs[i].id.clone();
        r.push(id);
        assert(r@ == prev.push(id));
        assert(strings_view(r@)[i as int] == finding_ids(fs@)[i as int]);
        i = i + 1;
        assert(strings_view(r@) =~= finding_ids(fs@).take(i as int));
    }
    assert(finding_ids(fs@).take(i as int) =~= finding_ids(fs@));
    r
}

fn mismatch_text(field: &str, stated: usize, actual: usize, what: &str) -> (m: Vec<char>)
    ensures
        m@ == summary_mismatch(field@, stated as nat, actual as nat, what@),
{
    let mut m = chars_of("summary.");
    extend_str(&mut m, field);
    extend_str(&mut m, "=");
    push_decimal(&mut m, stated);
    extend_str(&mut m, " does not match ");
    push_decimal(&mut m, actual);
    extend_str(&mut m, " ");
    extend_str(&mut m, what);
    m
}

fn receipt_findings_check(r: &CmuxReviewReceipt) -> (res: Option<Vec<char>>)
    ensures
        msg(res) == receipt_findings_error(*r),
{
    let fs = &r.findings;
    if r.summary.hypotheses_investigated < fs.len() {
        return Some(
            chars_of(
                "summary.hypotheses_investigated cannot be smaller than the retained finding count",
            ),
        );
    }
    let refuted = count_disposition(fs, CmuxReviewDisposition::Refuted);
    if r.summary.refuted != refuted {
        return Some(mismatch_text("refuted", r.summary.refuted, refuted, "refuted findings"));
    }
    let suppressed = count_disposition(fs, CmuxReviewDisposition::Suppressed);
    if r.summary.suppressed != suppressed {
        return Some(
            mismatch_text("suppressed", r.summary.suppressed, suppressed, "suppressed findings"),
        );
    }
    let human = count_disposition(fs, CmuxReviewDisposition::HumanRequired);
    if r.summary.human_judgment != human {
        return Some(
            mismatch_text(
                "human_judgment",
                r.summary.human_judgment,
                human,
                "human-required findings",
            ),
        );
    }
    let verified = count_verified(fs);
    if r.summary.verified != verified {
        return Some(
            mismatch_text("verified", r.summary.verified, verified, "evidence-supported findings"),
        );
    }
    let ids = finding_id_list(fs);
    let ghost check = |i: int| receipt_item_error(fs@, r.source, i);
    let mut i: usize = 0;
    while i < fs.len()
        invariant
            i <= fs@.len(),
            *fs == r.findings,
            strings_view(ids@) == finding_ids(fs@),
            ids@.len() == fs@.len(),
            check == (|i: int| receipt_item_error(fs@, r.source, i)),
            first_error(i as nat, check) is None,
            !(r.summary.hypotheses_investigated < fs@.len()),
            r.summary.refuted == disposition_count(fs@, CmuxReviewDisposition::Refuted),
            r.summary.suppressed == disposition_count(fs@, CmuxReviewDisposition::Suppressed),
            r.summary.human_judgment == disposition_count(fs@, CmuxReviewDisposition::HumanRequired),
            r.summary.verified == verified_count(fs@),
        decreases fs.len() - i,
    {
        let item = match validate_finding(&fs[i], &r.source) {
            Some(m) => Some(m),
            None => if repeats_earlier_exec(&ids, i) {
                let mut m = chars_of("duplicate finding id ");
                extend_str(&mut m, fs[i].id.as_str());
                Some(m)
            } else {
                None
            },
        };
        proof {
            lemma_first_error_step(i as nat, check);
            assert(msg(item) == check(i as int));
        }
        if let Some(m) = item {
            proof {
                lemma_first_error_stable((i + 1) as nat, fs@.len(), check);
            }
            return Some(m);
        }
        i = i + 1;
    }
    None
}

fn validate_receipt(r: &CmuxReviewReceipt) -> (res: Option<Vec<char>>)
    ensures
        msg(res) == receipt_error(*r),
{
    if r.schema_version != CMUX_REVIEW_RECEIPT_SCHEMA_VERSION {
        let mut m = chars_of("unsupported cmux review receipt schema ");
        push_decimal(&mut m, r.schema_version as usize);
        extend_str(&mut m, "; expected 1");
        return Some(m);
    }
    match nonempty_check(r.policy_version.as_str(), "policy_version") {
        Some(m) => return Some(m),
        None => {},
    }
    match nonempty_check(r.repository_root.as_str(), "repository_root") {
        Some(m) => return Some(m),
        None => {},
    }
    match nonempty_check(r.created_at.as_str(), "created_at") {
        Some(m) => return Some(m),
        None => {},
    }
    match source_check(&r.source, "source") {
        Some(m) => return Some(m),
        None => {},
    }
    receipt_findings_check(r)
}

// ---------------------------------------------------------------------------
// Projection.

pub struct AttentionView {
    pub id: Seq<char>,
    pub title: Seq<char>,
    pub severity: CmuxReviewSeverity,
    pub disposition: CmuxReviewDisposition,
    pub paths: Seq<Seq<char>>,
    pub claims: Seq<ClaimView>,
    pub challenge: CmuxReviewChallengeDisposition,
    pub verification: CmuxReviewVerificationResult,
    pub repair: Option<RepairView>,
}

pub struct FrontierView {
    pub finding_id: Seq<char>,
    pub kind: CmuxReviewFrontierKind,
    pub message: Seq<char>,
}

pub struct QuietView {
    pub id: Seq<char>,
    pub title: Seq<char>,
    pub disposition: CmuxReviewDisposition,
}

pub struct EnvelopeView {
    pub schema_version: u32,
    pub policy_version: Seq<char>,
    pub source: SourceView,
    pub created_at: Seq<char>,
    pub intent: Seq<char>,
    pub requirements: CmuxReviewRequirementSummary,
    pub attention: Seq<AttentionView>,
    pub frontier: Seq<FrontierView>,
    pub quiet: Seq<QuietView>,
    pub coverage_gaps: Seq<Seq<char>>,
}

impl View for CmuxReviewAttentionItem {
    type V = AttentionView;

    open spec fn view(&self) -> AttentionView {
        AttentionView {
            id: self.id@,
            title: self.title@,
            severity: self.severity,
            disposition: self.disposition,
            paths: strings_view(self.paths@),
            claims: claim_views(self.claims@),
            challenge: self.challenge,
            verification: self.verification,
            repair: opt_repair(self.repair),
        }
    }
}

impl View for CmuxReviewFrontierItem {
    type V = FrontierView;

    open spec fn view(&self) -> FrontierView {
        FrontierView { finding_id: self.finding_id@, kind: self.kind, message: self.message@ }
    }
}

impl View for CmuxReviewQuietItem {
    type V = QuietView;

    open spec fn view(&self) -> QuietView {
        QuietView { id: self.id@, title: self.title@, disposition: self.disposition }
    }
}

impl View for CmuxReviewEnvelope {
    type V = EnvelopeView;

    open spec fn view(&self) -> EnvelopeView {
        EnvelopeView {
            schema_version: self.schema_version,
            policy_version: self.policy_version@,
            source: self.source@,
            created_at: self.created_at@,
            intent: self.intent@,
            requirements: self.requirements,
            attention: attention_views(self.attention@),
            frontier: frontier_views(self.frontier@),
            quiet: quiet_views(self.quiet@),
            coverage_gaps: strings_view(self.coverage_gaps@),
        }
    }
}

pub open spec fn attention_views(v: Seq<CmuxReviewAttentionItem>) -> Seq<AttentionView> {
    v.map_values(|a: CmuxReviewAttentionItem| a@)
}

pub open spec fn frontier_views(v: Seq<CmuxReviewFrontierItem>) -> Seq<FrontierView> {
    v.map_values(|f: CmuxReviewFrontierItem| f@)
}

pub open spec fn quiet_views(v: Seq<CmuxReviewQuietItem>) -> Seq<QuietView> {
    v.map_values(|q: CmuxReviewQuietItem| q@)
}

/// Refuted and suppressed findings are quiet; the rest need attention.
pub open spec fn is_quiet(f: CmuxReviewFinding) -> bool {
    f.disposition == CmuxReviewDisposition::Refuted || f.disposition
        == CmuxReviewDisposition::Suppressed
}

pub open spec fn quiet_view(f: CmuxReviewFinding) -> QuietView {
    QuietView { id: f.id@, title: f.title@, disposition: f.disposition }
}

pub open spec fn attention_view(f: CmuxReviewFinding) -> AttentionView {
    AttentionView {
        id: f.id@,
        title: f.title@,
        severity: f.severity,
        disposition: f.disposition,
        paths: strings_view(f.paths@),
        claims: claim_views(f.claims@),
        challenge: f.challenge.disposition,
        verification: f.verification.result,
        repair: opt_repair(f.repair),
    }
}

/// The quiet findings, in order.
pub open spec fn quiet_items(fs: Seq<CmuxReviewFinding>) -> Seq<QuietView>
    decreases fs.len(),
{
    if fs.len() == 0 {
        Seq::empty()
    } else if is_quiet(fs.last()) {
        quiet_items(fs.drop_last()).push(quiet_view(fs.last()))
    } else {
        quiet_items(fs.drop_last())
    }
}

/// The findings that need attention, in order.
pub open spec fn attention_items(fs: Seq<CmuxReviewFinding>) -> Seq<AttentionView>
    decreases fs.len(),
{
    if fs.len() == 0 {
        Seq::empty()
    } else if is_quiet(fs.last()) {
        attention_items(fs.drop_last())
    } else {
        attention_items(fs.drop_last()).push(attention_view(fs.last()))
    }
}

pub open spec fn frontier_item(f: CmuxReviewFinding, kind: CmuxReviewFrontierKind, message: Seq<char>) -> FrontierView {
    FrontierView { finding_id: f.id@, kind, message }
}

/// One frontier entry per unknown claim, in claim order.
pub open spec fn unknown_claim_items(f: CmuxReviewFinding, n: nat) -> Seq<FrontierView>
    decreases n,
{
    if n == 0 {
        Seq::empty()
    } else {
        let rest = unknown_claim_items(f, (n - 1) as nat);
        let c = f.claims@[n - 1];
        if c.kind == ClaimKind::Unknown {
            rest.push(frontier_item(f, CmuxReviewFrontierKind::UnknownClaim, c.message@))
        } else {
            rest
        }
    }
}

pub open spec fn challenge_uncertain_message() -> Seq<char> {
    "Adversarial challenge left competing interpretations unresolved."@
}

pub open spec fn verification_blocked_message() -> Seq<char> {
    "Verification was blocked before a decisive discriminator could run."@
}

pub open spec fn human_judgment_message() -> Seq<char> {
    "Verification requires human judgment."@
}

pub open spec fn human_required_message() -> Seq<char> {
    "Finding disposition requires human review."@
}

pub open spec fn unresolved_message() -> Seq<char> {
    "Finding remains unresolved."@
}

/// The uncertainty a finding that needs attention leaves open: its unknown
/// claims, an uncertain challenge, blocked or human verification, and a
/// human-required or unresolved disposition.
pub open spec fn finding_frontier(f: CmuxReviewFinding) -> Seq<FrontierView> {
    unknown_claim_items(f, f.claims@.len()) + (if f.challenge.disposition
        == CmuxReviewChallengeDisposition::Uncertain {
        seq![
            frontier_item(
                f,
                CmuxReviewFrontierKind::ChallengeUncertain,
                challenge_uncertain_message(),
            ),
        ]
    } else {
        Seq::empty()
    }) + (if f.verification.result == CmuxReviewVerificationResult::Blocked {
        seq![
            frontier_item(
                f,
                CmuxReviewFrontierKind::VerificationBlocked,
                verification_blocked_message(),
            ),
        ]
    } else if f.verification.result == CmuxReviewVerificationResult::HumanJudgment {
        seq![frontier_item(f, CmuxReviewFrontierKind::HumanJudgment, human_judgment_message())]
    } else {
        Seq::empty()
    }) + (if f.disposition == CmuxReviewDisposition::HumanRequired {
        seq![frontier_item(f, CmuxReviewFrontierKind::HumanRequired, human_required_message())]
    } else if f.disposition == CmuxReviewDisposition::Unresolved {
        seq![frontier_item(f, CmuxReviewFrontierKind::Unresolved, unresolved_message())]
    } else {
        Seq::empty()
    })
}

/// Every frontier candidate, finding by finding.
pub open spec fn frontier_candidates(fs: Seq<CmuxReviewFinding>) -> Seq<FrontierView>
    decreases fs.len(),
{
    if fs.len() == 0 {
        Seq::empty()
    } else if is_quiet(fs.last()) {
        frontier_candidates(fs.drop_last())
    } else {
        frontier_candidates(fs.drop_last()) + finding_frontier(fs.last())
    }
}

/// Appends the items of `s` to `acc` in order, skipping any already present.
pub open spec fn dedupe_into(acc: Seq<FrontierView>, s: Seq<FrontierView>) -> Seq<FrontierView>
    decreases s.len(),
{
    if s.len() == 0 {
        acc
    } else {
        dedupe_into(
            if acc.contains(s[0]) {
                acc
            } else {
                acc.push(s[0])
            },
            s.drop_first(),
        )
    }
}

pub proof fn lemma_dedupe_into_append(acc: Seq<FrontierView>, a: Seq<FrontierView>, b: Seq<FrontierView>)
    ensures
        dedupe_into(acc, a + b) == dedupe_into(dedupe_into(acc, a), b),
    decreases a.len(),
{
    if a.len() > 0 {
        assert((a + b).drop_first() == a.drop_first() + b);
        assert((a + b)[0] == a[0]);
        let next = if acc.contains(a[0]) {
            acc
        } else {
            acc.push(a[0])
        };
        lemma_dedupe_into_append(next, a.drop_first(), b);
    } else {
        assert(a + b == b);
    }
}

pub proof fn lemma_dedupe_into_push(acc: Seq<FrontierView>, a: Seq<FrontierView>, x: FrontierView)
    ensures
        dedupe_into(acc, a.push(x)) == {
            let d = dedupe_into(acc, a);
            if d.contains(x) {
                d
            } else {
                d.push(x)
            }
        },
{
    lemma_dedupe_into_append(acc, a, seq![x]);
    assert(a.push(x) == a + seq![x]);
    let d = dedupe_into(acc, a);
    let next = if d.contains(x) {
        d
    } else {
        d.push(x)
    };
    assert(seq![x].drop_first() =~= Seq::<FrontierView>::empty());
    assert(seq![x][0] == x);
    assert(dedupe_into(d, seq![x]) == dedupe_into(next, seq![x].drop_first()));
    assert(dedupe_into(next, Seq::<FrontierView>::empty()) == next);
}

pub open spec fn requirement_count(rs: Seq<CmuxReviewRequirement>, st: CmuxReviewRequirementStatus) -> nat {
    count_matching(rs, |q: CmuxReviewRequirement| q.status == st)
}

/// The envelope a valid receipt projects to.
pub open spec fn projection(r: CmuxReviewReceipt) -> EnvelopeView {
    EnvelopeView {
        schema_version: CMUX_REVIEW_ENVELOPE_SCHEMA_VERSION,
        policy_version: r.policy_version@,
        source: r.source@,
        created_at: r.created_at@,
        intent: r.brief.intent@,
        requirements: CmuxReviewRequirementSummary {
            satisfied: requirement_count(
                r.brief.requirements@,
                CmuxReviewRequirementStatus::Satisfied,
            ) as usize,
            missing: requirement_count(r.brief.requirements@, CmuxReviewRequirementStatus::Missing) as usize,
            uncertain: requirement_count(
                r.brief.requirements@,
                CmuxReviewRequirementStatus::Uncertain,
            ) as usize,
        },
        attention: attention_items(r.findings@),
        frontier: dedupe_into(Seq::empty(), frontier_candidates(r.findings@)),
        quiet: quiet_items(r.findings@),
        coverage_gaps: strings_view(r.brief.coverage_gaps@),
    }
}

fn count_requirements(rs: &Vec<CmuxReviewRequirement>, st: CmuxReviewRequirementStatus) -> (n: usize)
    ensures
        n == requirement_count(rs@, st),
{
    let mut n: usize = 0;
    let mut i: usize = 0;
    while i < rs.len()
        invariant
            i <= rs@.len(),
            n == count_matching(rs@.take(i as int), |q: CmuxReviewRequirement| q.status == st),
        decreases rs.len() - i,
    {
        proof {
            lemma_count_matching_step(rs@, i as int, |q: CmuxReviewRequirement| q.status == st);
            lemma_count_matching_bound(
                rs@.take(i as int),
                |q: CmuxReviewRequirement| q.status == st,
            );
        }
        if rs[i].status == st {
            n = n + 1;
        }
        i = i + 1;
    }
    assert(rs@.take(i as int) =~= rs@);
    n
}

fn frontier_entry(f: &CmuxReviewFinding, kind: CmuxReviewFrontierKind, message: &str) -> (item:
    CmuxReviewFrontierItem)
    ensures
        item@ == frontier_item(*f, kind, message@),
{
    CmuxReviewFrontierItem { finding_id: f.id.clone(), kind, message: crate::text::owned(message) }
}

fn finding_frontier_exec(f: &CmuxReviewFinding) -> (out: Vec<CmuxReviewFrontierItem>)
    ensures
        frontier_views(out@) == finding_frontier(*f),
{
    let mut out: Vec<CmuxReviewFrontierItem> = Vec::new();
    let mut k: usize = 0;
    while k < f.claims.len()
        invariant
            k <= f.claims@.len(),
            frontier_views(out@) == unknown_claim_items(*f, k as nat),
        decreases f.claims.len() - k,
    {
        if f.claims[k].kind == ClaimKind::Unknown {
            let ghost prev = out@;
            let item = frontier_entry(f, CmuxReviewFrontierKind::UnknownClaim, f.claims[k].message.as_str());
            out.push(item);
            assert(out@ == prev.push(item));
            assert(frontier_views(out@) =~= frontier_views(prev).push(item@));
        }
        k = k + 1;
    }
    let ghost a = frontier_views(out@);
    let ghost b: Seq<FrontierView>;
    if f.challenge.disposition == CmuxReviewChallengeDisposition::Uncertain {
        let ghost prev = out@;
        let item = frontier_entry(
            f,
            CmuxReviewFrontierKind::ChallengeUncertain,
            "Adversarial challenge left competing interpretations unresolved.",
        );
        out.push(item);
        assert(out@ == prev.push(item));
        proof {
            b = seq![item@];
        }
        assert(frontier_views(out@) =~= a + b);
    } else {
        proof {
            b = Seq::empty();
        }
        assert(frontier_views(out@) =~= a + b);
    }
    let ghost c: Seq<FrontierView>;
    let ghost ab = frontier_views(out@);
    if f.verification.result == CmuxReviewVerificationResult::Blocked {
        let ghost prev = out@;
        let item = frontier_entry(
            f,
            CmuxReviewFrontierKind::VerificationBlocked,
            "Verification was blocked before a decisive discriminator could run.",
        );
        out.push(item);
        assert(out@ == prev.push(item));
        proof {
            c = seq![item@];
        }
        assert(frontier_views(out@) =~= ab + c);
    } else if f.verification.result == CmuxReviewVerificationResult::HumanJudgment {
        let ghost prev = out@;
        let item = frontier_entry(
            f,
            CmuxReviewFrontierKind::HumanJudgment,
            "Verification requires human judgment.",
        );
        out.push(item);
        assert(out@ == prev.push(item));
        proof {
            c = seq![item@];
        }
        assert(frontier_views(out@) =~= ab + c);
    } else {
        proof {
            c = Seq::empty();
        }
        assert(frontier_views(out@) =~= ab + c);
    }
    let ghost d: Seq<FrontierView>;
    let ghost abc = frontier_views(out@);
    if f.disposition == CmuxReviewDisposition::HumanRequired {
        let ghost prev = out@;
        let item = frontier_entry(
            f,
            CmuxReviewFrontierKind::HumanRequired,
            "Finding disposition requires human review.",
        );
        out.push(item);
        assert(out@ == prev.push(item));
        proof {
            d = seq![item@];
        }
        assert(frontier_views(out@) =~= abc + d);
    } else if f.disposition == CmuxReviewDisposition::Unresolved {
        let ghost prev = out@;
        let item = frontier_entry(f, CmuxReviewFrontierKind::Unresolved, "Finding remains unresolved.");
        out.push(item);
        assert(out@ == prev.push(item));
        proof {
            d = seq![item@];
        }
        assert(frontier_views(out@) =~= abc + d);
    } else {
        proof {
            d = Seq::empty();
        }
        assert(frontier_views(out@) =~= abc + d);
    }
    out
}

impl CmuxReviewFrontierItem {
    fn copy(&self) -> (r: CmuxReviewFrontierItem)
        ensures
            r@ == self@,
    {
        CmuxReviewFrontierItem {
            finding_id: self.finding_id.clone(),
            kind: self.kind,
            message: self.message.clone(),
        }
    }

    fn same_key(&self, other: &CmuxReviewFrontierItem) -> (r: bool)
        ensures
            r == (self@ == other@),
    {
        let a = chars_of(self.finding_id.as_str());
        let b = chars_of(other.finding_id.as_str());
        let c = chars_of(self.message.as_str());
        let d = chars_of(other.message.as_str());
        crate::text::chars_eq(a.as_slice(), b.as_slice()) && self.kind == other.kind
            && crate::text::chars_eq(c.as_slice(), d.as_slice())
    }
}

fn frontier_contains(frontier: &Vec<CmuxReviewFrontierItem>, item: &CmuxReviewFrontierItem) -> (r: bool)
    ensures
        r == frontier_views(frontier@).contains(item@),
{
    let mut i: usize = 0;
    while i < frontier.len()
        invariant
            i <= frontier@.len(),
            forall|k: int| 0 <= k < i ==> frontier_views(frontier@)[k] != item@,
        decreases frontier.len() - i,
    {
        if frontier[i].same_key(item) {
            assert(frontier_views(frontier@)[i as int] == item@);
            return true;
        }
        i = i + 1;
    }
    false
}

fn push_new_frontier(frontier: &mut Vec<CmuxReviewFrontierItem>, candidates: &Vec<CmuxReviewFrontierItem>)
    ensures
        frontier_views(final(frontier)@) == dedupe_into(
            frontier_views(old(frontier)@),
            frontier_views(candidates@),
        ),
{
    let ghost start = frontier_views(frontier@);
    let ghost cs = frontier_views(candidates@);
    let mut j: usize = 0;
    assert(cs.take(0) =~= Seq::<FrontierView>::empty());
    while j < candidates.len()
        invariant
            j <= candidates@.len(),
            cs == frontier_views(candidates@),
            frontier_views(frontier@) == dedupe_into(start, cs.take(j as int)),
        decreases candidates.len() - j,
    {
        proof {
            lemma_dedupe_into_push(start, cs.take(j as int), cs[j as int]);
            assert(cs.take(j + 1) == cs.take(j as int).push(cs[j as int]));
        }
        if !frontier_contains(frontier, &candidates[j]) {
            let ghost prev = frontier@;
            let item = candidates[j].copy();
            frontier.push(item);
            assert(frontier@ == prev.push(item));
            assert(frontier_views(frontier@) =~= frontier_views(prev).push(item@));
        }
        j = j + 1;
    }
    assert(cs.take(j as int) =~= cs);
}

fn attention_entry(f: &CmuxReviewFinding) -> (a: CmuxReviewAttentionItem)
    ensures
        a@ == attention_view(*f),
{
    CmuxReviewAttentionItem {
        id: f.id.clone(),
        title: f.title.clone(),
        severity: f.severity,
        disposition: f.disposition,
        paths: copy_strings(&f.paths),
        claims: copy_claims(&f.claims),
        challenge: f.challenge.disposition,
        verification: f.verification.result,
        repair: match &f.repair {
            Some(r) => Some(r.copy()),
            None => None,
        },
    }
}

/// Validates a receipt and projects it into the envelope a reader sees:
/// requirement counts, findings that need attention (with the uncertainty
/// they leave, each frontier entry once), and quiet findings.
pub fn project_cmux_review_receipt(receipt: &CmuxReviewReceipt) -> (r: Result<
    CmuxReviewEnvelope,
    CmuxReviewError,
>)
    ensures
        match r {
            Ok(env) => receipt_error(*receipt) is None && env@ == projection(*receipt),
            Err(e) => receipt_error(*receipt) == Some(e.spec_message()),
        },
{
    match validate_receipt(receipt) {
        Some(m) => return Err(CmuxReviewError::new(m)),
        None => {},
    }
    let requirements = CmuxReviewRequirementSummary {
        satisfied: count_requirements(
            &receipt.brief.requirements,
            CmuxReviewRequirementStatus::Satisfied,
        ),
        missing: count_requirements(&receipt.brief.requirements, CmuxReviewRequirementStatus::Missing),
        uncertain: count_requirements(
            &receipt.brief.requirements,
            CmuxReviewRequirementStatus::Uncertain,
        ),
    };
    let fs = &receipt.findings;
    let mut attention: Vec<CmuxReviewAttentionItem> = Vec::new();
    let mut quiet: Vec<CmuxReviewQuietItem> = Vec::new();
    let mut frontier: Vec<CmuxReviewFrontierItem> = Vec::new();
    let mut i: usize = 0;
    assert(fs@.take(0) =~= Seq::<CmuxReviewFinding>::empty());
    while i < fs.len()
        invariant
            i <= fs@.len(),
            attention_views(attention@) == attention_items(fs@.take(i as int)),
            quiet_views(quiet@) == quiet_items(fs@.take(i as int)),
            frontier_views(frontier@) == dedupe_into(
                Seq::empty(),
                frontier_candidates(fs@.take(i as int)),
            ),
        decreases fs.len() - i,
    {
        let f = &fs[i];
        proof {
            assert(fs@.take(i + 1).drop_last() =~= fs@.take(i as int));
            assert(fs@.take(i + 1).last() == fs@[i as int]);
        }
        if f.disposition == CmuxReviewDisposition::Refuted || f.disposition
            == CmuxReviewDisposition::Suppressed {
            let ghost prev = quiet@;
            let q = CmuxReviewQuietItem { id: f.id.clone(), title: f.title.clone(), disposition: f.disposition };
            quiet.push(q);
            assert(quiet@ == prev.push(q));
            assert(quiet_views(quiet@) =~= quiet_views(prev).push(q@));
        } else {
            let ghost prev = attention@;
            let a = attention_entry(f);
            attention.push(a);
            assert(attention@ == prev.push(a));
            assert(attention_views(attention@) =~= attention_views(prev).push(a@));
            let candidates = finding_frontier_exec(f);
            proof {
                lemma_dedupe_into_append(
                    Seq::empty(),
                    frontier_candidates(fs@.take(i as int)),
                    finding_frontier(*f),
                );
            }
            push_new_frontier(&mut frontier, &candidates);
        }
        i = i + 1;
    }
    assert(fs@.take(i as int) =~= fs@);
    let env = CmuxReviewEnvelope {
        schema_version: CMUX_REVIEW_ENVELOPE_SCHEMA_VERSION,
        policy_version: receipt.policy_version.clone(),
        source: receipt.source.copy(),
        created_at: receipt.created_at.clone(),
        intent: receipt.brief.intent.clone(),
        requirements,
        attention,
        frontier,
        quiet,
        coverage_gaps: copy_strings(&receipt.brief.coverage_gaps),
    };
    Ok(env)
}

proof fn lemma_dedupe_keeps(acc: Seq<FrontierView>, s: Seq<FrontierView>)
    ensures
        forall|x: FrontierView| acc.contains(x) || s.contains(x) ==> #[trigger] dedupe_into(acc, s).contains(x),
    decreases s.len(),
{
    if s.len() > 0 {
        let next = if acc.contains(s[0]) {
            acc
        } else {
            acc.push(s[0])
        };
        lemma_dedupe_keeps(next, s.drop_first());
        assert forall|x: FrontierView| acc.contains(x) || s.contains(x) implies #[trigger] dedupe_into(
            acc,
            s,
        ).contains(x) by {
            assert(dedupe_into(acc, s) == dedupe_into(next, s.drop_first()));
            if acc.contains(x) {
                let i = choose|i: int| 0 <= i < acc.len() && acc[i] == x;
                assert(next[i] == x);
                assert(next.contains(x));
            } else {
                let i = choose|i: int| 0 <= i < s.len() && s[i] == x;
                if i == 0 {
                    if !acc.contains(s[0]) {
                        assert(next[acc.len() as int] == x);
                    }
                    assert(next.contains(x));
                } else {
                    assert(s.drop_first()[i - 1] == x);
                    assert(s.drop_first().contains(x));
                }
            }
        }
    }
}

proof fn lemma_candidates_include(fs: Seq<CmuxReviewFinding>, k: int)
    requires
        0 <= k < fs.len(),
        !is_quiet(fs[k]),
    ensures
        forall|x: FrontierView| finding_frontier(fs[k]).contains(x) ==> #[trigger] frontier_candidates(
            fs,
        ).contains(x),
    decreases fs.len(),
{
    let init = fs.drop_last();
    if k < fs.len() - 1 {
        assert(init[k] == fs[k]);
        lemma_candidates_include(init, k);
        assert forall|x: FrontierView| finding_frontier(fs[k]).contains(x) implies #[trigger] frontier_candidates(
            fs,
        ).contains(x) by {
            assert(frontier_candidates(init).contains(x));
            let i = choose|i: int| 0 <= i < frontier_candidates(init).len() && frontier_candidates(init)[i] == x;
            if !is_quiet(fs.last()) {
                assert((frontier_candidates(init) + finding_frontier(fs.last()))[i] == x);
            }
        }
    } else {
        assert(fs.last() == fs[k]);
        assert forall|x: FrontierView| finding_frontier(fs[k]).contains(x) implies #[trigger] frontier_candidates(
            fs,
        ).contains(x) by {
            let i = choose|i: int| 0 <= i < finding_frontier(fs[k]).len() && finding_frontier(fs[k])[i] == x;
            let a = frontier_candidates(init);
            assert((a + finding_frontier(fs[k]))[a.len() + i] == x);
        }
    }
}

/// A finding left unresolved puts "Finding remains unresolved." on its
/// frontier.
pub proof fn lemma_unresolved_finding_frontier(f: CmuxReviewFinding)
    requires
        f.disposition == CmuxReviewDisposition::Unresolved,
    ensures
        finding_frontier(f).contains(
            FrontierView {
                finding_id: f.id@,
                kind: CmuxReviewFrontierKind::Unresolved,
                message: "Finding remains unresolved."@,
            },
        ),
{
    let ff = finding_frontier(f);
    let item = FrontierView {
        finding_id: f.id@,
        kind: CmuxReviewFrontierKind::Unresolved,
        message: "Finding remains unresolved."@,
    };
    assert(ff[ff.len() - 1] == item);
}

/// Every unresolved finding of a receipt stands on the projected envelope's
/// frontier, with the kind `Unresolved` and the message "Finding remains
/// unresolved.".
pub proof fn lemma_unresolved_findings_reach_frontier(r: CmuxReviewReceipt, k: int)
    requires
        0 <= k < r.findings@.len(),
        r.findings@[k].disposition == CmuxReviewDisposition::Unresolved,
    ensures
        projection(r).frontier.contains(
            FrontierView {
                finding_id: r.findings@[k].id@,
                kind: CmuxReviewFrontierKind::Unresolved,
                message: "Finding remains unresolved."@,
            },
        ),
{
    let f = r.findings@[k];
    lemma_unresolved_finding_frontier(f);
    lemma_candidates_include(r.findings@, k);
    lemma_dedupe_keeps(Seq::empty(), frontier_candidates(r.findings@));
}

proof fn lemma_unknown_items(f: CmuxReviewFinding, n: nat, m: int)
    requires
        0 <= m < n <= f.claims@.len(),
        f.claims@[m].kind == ClaimKind::Unknown,
    ensures
        unknown_claim_items(f, n).contains(
            FrontierView {
                finding_id: f.id@,
                kind: CmuxReviewFrontierKind::UnknownClaim,
                message: f.claims@[m].message@,
            },
        ),
    decreases n,
{
    let rest = unknown_claim_items(f, (n - 1) as nat);
    let item = FrontierView {
        finding_id: f.id@,
        kind: CmuxReviewFrontierKind::UnknownClaim,
        message: f.claims@[m].message@,
    };
    if m == n - 1 {
        assert(unknown_claim_items(f, n)[rest.len() as int] == item);
    } else {
        lemma_unknown_items(f, (n - 1) as nat, m);
        let i = choose|i: int| 0 <= i < rest.len() && rest[i] == item;
        assert(unknown_claim_items(f, n)[i] == item);
    }
}

/// The open questions a finding puts on its frontier: each unknown claim
/// with its message, an uncertain challenge, blocked or human-judged
/// verification, and a human-required or unresolved disposition, each with
/// its fixed message.
pub proof fn lemma_finding_frontier_items(f: CmuxReviewFinding)
    ensures
        forall|m: int|
            0 <= m < f.claims@.len() && (#[trigger] f.claims@[m]).kind == ClaimKind::Unknown ==> finding_frontier(
                f,
            ).contains(
                FrontierView {
                    finding_id: f.id@,
                    kind: CmuxReviewFrontierKind::UnknownClaim,
                    message: f.claims@[m].message@,
                },
            ),
        f.challenge.disposition == CmuxReviewChallengeDisposition::Uncertain ==> finding_frontier(f).contains(
            FrontierView {
                finding_id: f.id@,
                kind: CmuxReviewFrontierKind::ChallengeUncertain,
                message: "Adversarial challenge left competing interpretations unresolved."@,
            },
        ),
        f.verification.result == CmuxReviewVerificationResult::Blocked ==> finding_frontier(f).contains(
            FrontierView {
                finding_id: f.id@,
                kind: CmuxReviewFrontierKind::VerificationBlocked,
                message: "Verification was blocked before a decisive discriminator could run."@,
            },
        ),
        f.verification.result == CmuxReviewVerificationResult::HumanJudgment ==> finding_frontier(
            f,
        ).contains(
            FrontierView {
                finding_id: f.id@,
                kind: CmuxReviewFrontierKind::HumanJudgment,
                message: "Verification requires human judgment."@,
            },
        ),
        f.disposition == CmuxReviewDisposition::HumanRequired ==> finding_frontier(f).contains(
            FrontierView {
                finding_id: f.id@,
                kind: CmuxReviewFrontierKind::HumanRequired,
                message: "Finding disposition requires human review."@,
            },
        ),
        f.disposition == CmuxReviewDisposition::Unresolved ==> finding_frontier(f).contains(
            FrontierView {
                finding_id: f.id@,
                kind: CmuxReviewFrontierKind::Unresolved,
                message: "Finding remains unresolved."@,
            },
        ),
{
    let u = unknown_claim_items(f, f.claims@.len());
    let ch: Seq<FrontierView> = if f.challenge.disposition == CmuxReviewChallengeDisposition::Uncertain {
        seq![frontier_item(f, CmuxReviewFrontierKind::ChallengeUncertain, challenge_uncertain_message())]
    } else {
        Seq::empty()
    };
    let ve: Seq<FrontierView> = if f.verification.result == CmuxReviewVerificationResult::Blocked {
        seq![frontier_item(f, CmuxReviewFrontierKind::VerificationBlocked, verification_blocked_message())]
    } else if f.verification.result == CmuxReviewVerificationResult::HumanJudgment {
        seq![frontier_item(f, CmuxReviewFrontierKind::HumanJudgment, human_judgment_message())]
    } else {
        Seq::empty()
    };
    let di: Seq<FrontierView> = if f.disposition == CmuxReviewDisposition::HumanRequired {
        seq![frontier_item(f, CmuxReviewFrontierKind::HumanRequired, human_required_message())]
    } else if f.disposition == CmuxReviewDisposition::Unresolved {
        seq![frontier_item(f, CmuxReviewFrontierKind::Unresolved, unresolved_message())]
    } else {
        Seq::empty()
    };
    let ff = finding_frontier(f);
    assert(ff == u + ch + ve + di);
    assert forall|m: int|
        0 <= m < f.claims@.len() && (#[trigger] f.claims@[m]).kind == ClaimKind::Unknown implies ff.contains(
        FrontierView {
            finding_id: f.id@,
            kind: CmuxReviewFrontierKind::UnknownClaim,
            message: f.claims@[m].message@,
        },
    ) by {
        lemma_unknown_items(f, f.claims@.len(), m);
        let x = FrontierView {
            finding_id: f.id@,
            kind: CmuxReviewFrontierKind::UnknownClaim,
            message: f.claims@[m].message@,
        };
        let i = choose|i: int| 0 <= i < u.len() && u[i] == x;
        assert(ff[i] == x);
    }
    if ch.len() > 0 {
        assert(ff[u.len() as int] == ch[0]);
    }
    if ve.len() > 0 {
        assert(ff[(u.len() + ch.len()) as int] == ve[0]);
    }
    if di.len() > 0 {
        assert(ff[(u.len() + ch.len() + ve.len()) as int] == di[0]);
    }
}

/// Whatever a finding that needs attention puts on its frontier stands on
/// the projected envelope's frontier.
pub proof fn lemma_attention_frontier_reaches_envelope(r: CmuxReviewReceipt, k: int)
    requires
        0 <= k < r.findings@.len(),
        !is_quiet(r.findings@[k]),
    ensures
        forall|x: FrontierView| finding_frontier(r.findings@[k]).contains(x) ==> #[trigger] projection(
            r,
        ).frontier.contains(x),
{
    lemma_candidates_include(r.findings@, k);
    lemma_dedupe_keeps(Seq::empty(), frontier_candidates(r.findings@));
}

} // verus!
