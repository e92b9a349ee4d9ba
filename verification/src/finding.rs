//! The provenance-bearing report model shared by every analyzer: claims with
//! an explicit epistemic kind, evidence with optional locations, and findings.
use vstd::prelude::*;

use crate::text::owned;

verus! {

/// The claim vocabulary: exact facts, deterministic conclusions, empirical
/// observations, interpretations, and explicit gaps.
#[derive(Debug, Clone, Copy, Eq, PartialEq, Structural)]
pub enum ClaimKind {
    Proven,
    Derived,
    Observed,
    Inferred,
    Unknown,
}

#[derive(Debug, Clone, Eq, PartialEq)]
pub struct Location {
    pub path: String,
    pub line: Option<usize>,
}

#[derive(Debug, Clone, Eq, PartialEq)]
pub struct Evidence {
    pub message: String,
    pub location: Option<Location>,
}

#[derive(Debug, Clone, Eq, PartialEq)]
pub struct Claim {
    pub kind: ClaimKind,
    pub message: String,
    pub evidence: Vec<Evidence>,
}

#[derive(Debug, Clone, Eq, PartialEq)]
pub struct Finding {
    pub kind: String,
    pub title: String,
    pub location: Option<Location>,
    pub claims: Vec<Claim>,
    pub question: Option<String>,
}

#[derive(Debug, Clone, Eq, PartialEq)]
pub struct AnalysisReport {
    pub schema_version: u32,
    pub analysis: String,
    pub repository: String,
    pub claims: Vec<Claim>,
    pub findings: Vec<Finding>,
}

pub const REPORT_SCHEMA_VERSION: u32 = 1;

/// Mathematical forms of the report model.
pub struct LocationSpec {
    pub path: Seq<char>,
    pub line: Option<usize>,
}

pub struct EvidenceSpec {
    pub message: Seq<char>,
    pub location: Option<LocationSpec>,
}

pub struct ClaimSpec {
    pub kind: ClaimKind,
    pub message: Seq<char>,
    pub evidence: Seq<EvidenceSpec>,
}

pub struct FindingSpec {
    pub kind: Seq<char>,
    pub title: Seq<char>,
    pub location: Option<LocationSpec>,
    pub claims: Seq<ClaimSpec>,
    pub question: Option<Seq<char>>,
}

pub struct ReportSpec {
    pub schema_version: u32,
    pub analysis: Seq<char>,
    pub repository: Seq<char>,
    pub claims: Seq<ClaimSpec>,
    pub findings: Seq<FindingSpec>,
}

impl View for Location {
    type V = LocationSpec;

    open spec fn view(&self) -> LocationSpec {
        LocationSpec { path: self.path@, line: self.line }
    }
}

pub open spec fn opt_location(l: Option<Location>) -> Option<LocationSpec> {
    match l {
        Some(x) => Some(x@),
        None => None,
    }
}

pub open spec fn opt_string(s: Option<String>) -> Option<Seq<char>> {
    match s {
        Some(x) => Some(x@),
        None => None,
    }
}

impl View for Evidence {
    type V = EvidenceSpec;

    open spec fn view(&self) -> EvidenceSpec {
        EvidenceSpec { message: self.message@, location: opt_location(self.location) }
    }
}

impl View for Claim {
    type V = ClaimSpec;

    open spec fn view(&self) -> ClaimSpec {
        ClaimSpec {
            kind: self.kind,
            message: self.message@,
            evidence: self.evidence@.map_values(|e: Evidence| e@),
        }
    }
}

impl View for Finding {
    type V = FindingSpec;

    open spec fn view(&self) -> FindingSpec {
        FindingSpec {
            kind: self.kind@,
            title: self.title@,
            location: opt_location(self.location),
            claims: self.claims@.map_values(|c: Claim| c@),
            question: opt_string(self.question),
        }
    }
}

impl View for AnalysisReport {
    type V = ReportSpec;

    open spec fn view(&self) -> ReportSpec {
        ReportSpec {
            schema_version: self.schema_version,
            analysis: self.analysis@,
            repository: self.repository@,
            claims: self.claims@.map_values(|c: Claim| c@),
            findings: self.findings@.map_values(|f: Finding| f@),
        }
    }
}

impl Location {
    pub fn new(path: &str, line: Option<usize>) -> (l: Location)
        ensures
            l@ == (LocationSpec { path: path@, line }),
    {
        Location { path: owned(path), line }
    }
}

impl Evidence {
    /// Evidence without a location.
    pub fn new(message: &str) -> (e: Evidence)
        ensures
            e@ == (EvidenceSpec { message: message@, location: None }),
    {
        Evidence { message: owned(message), location: None }
    }

    /// Evidence at a location.
    pub fn at(message: &str, location: Location) -> (e: Evidence)
        ensures
            e@ == (EvidenceSpec { message: message@, location: Some(location@) }),
    {
        Evidence { message: owned(message), location: Some(location) }
    }
}

impl Claim {
    pub fn new(kind: ClaimKind, message: &str) -> (c: Claim)
        ensures
            c@ == (ClaimSpec { kind, message: message@, evidence: Seq::empty() }),
    {
        let c = Claim { kind, message: owned(message), evidence: Vec::new() };
        assert(c@.evidence =~= Seq::<EvidenceSpec>::empty());
        c
    }

    /// The same claim with one more piece of evidence.
    pub fn with_evidence(self, evidence: Evidence) -> (c: Claim)
        ensures
            c@ == (ClaimSpec { evidence: self@.evidence.push(evidence@), ..self@ }),
    {
        let mut c = self;
        c.evidence.push(evidence);
        assert(c@.evidence =~= self@.evidence.push(evidence@));
        c
    }
}

impl Finding {
    pub fn new(kind: &str, title: &str) -> (f: Finding)
        ensures
            f@ == (FindingSpec {
                kind: kind@,
                title: title@,
                location: None,
                claims: Seq::empty(),
                question: None,
            }),
    {
        let f = Finding {
            kind: owned(kind),
            title: owned(title),
            location: None,
            claims: Vec::new(),
            question: None,
        };
        assert(f@.claims =~= Seq::<ClaimSpec>::empty());
        f
    }

    /// The same finding located at `location`.
    pub fn at(self, location: Location) -> (f: Finding)
        ensures
            f@ == (FindingSpec { location: Some(location@), ..self@ }),
    {
        let mut f = self;
        f.location = Some(location);
        f
    }

    /// The same finding with one more claim.
    pub fn with_claim(self, claim: Claim) -> (f: Finding)
        ensures
            f@ == (FindingSpec { claims: self@.claims.push(claim@), ..self@ }),
    {
        let mut f = self;
        f.claims.push(claim);
        assert(f@.claims =~= self@.claims.push(claim@));
        f
    }

    /// The same finding with its open question.
    pub fn with_question(self, question: &str) -> (f: Finding)
        ensures
            f@ == (FindingSpec { question: Some(question@), ..self@ }),
    {
        let mut f = self;
        f.question = Some(owned(question));
        f
    }
}

impl AnalysisReport {
    pub fn new(analysis: &str, repository: &str) -> (r: AnalysisReport)
        ensures
            r@ == (ReportSpec {
                schema_version: REPORT_SCHEMA_VERSION,
                analysis: analysis@,
                repository: repository@,
                claims: Seq::empty(),
                findings: Seq::empty(),
            }),
    {
        let r = AnalysisReport {
            schema_version: REPORT_SCHEMA_VERSION,
            analysis: owned(analysis),
            repository: owned(repository),
            claims: Vec::new(),
            findings: Vec::new(),
        };
        assert(r@.claims =~= Seq::<ClaimSpec>::empty());
        assert(r@.findings =~= Seq::<FindingSpec>::empty());
        r
    }
}

} // verus!
