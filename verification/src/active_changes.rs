//! Active-work gating: the provider-current binding read from four optional
//! values, and the provider-snapshot gate that withholds frozen routing
//! findings when the provider population is not known to be current.
use vstd::prelude::*;

use crate::applicability::{exact_status, ApplicabilityStatus};
use crate::finding::{
    AnalysisReport, Claim, ClaimKind, ClaimSpec, Evidence, EvidenceSpec, Finding, FindingSpec,
    ReportSpec,
};
use crate::provider_snapshot_applicability::{evaluate_provider_snapshot, ProviderSnapshotIdentity};
use crate::text::{chars_eq, chars_of, extend_str, push_decimal, string_of};

verus! {

pub const REQUIRED_PROVIDER_REPOSITORY_ENV: &'static str = "CULTIST_REQUIRED_PROVIDER_REPOSITORY";

pub const CURRENT_PROVIDER_REPOSITORY_ENV: &'static str = "CULTIST_CURRENT_PROVIDER_REPOSITORY";

pub const CURRENT_PROVIDER_WORK_ENV: &'static str = "CULTIST_CURRENT_PROVIDER_WORK";

pub const CURRENT_PROVIDER_HEAD_ENV: &'static str = "CULTIST_CURRENT_PROVIDER_HEAD";

/// The provider's current view of one piece of work.
#[derive(Debug, Clone, Eq, PartialEq)]
pub struct ProviderCurrentWorkContext {
    pub repository: String,
    pub work_id: String,
    pub head_sha: Option<String>,
}

pub struct ContextView {
    pub repository: Seq<char>,
    pub work_id: Seq<char>,
    pub head_sha: Option<Seq<char>>,
}

impl View for ProviderCurrentWorkContext {
    type V = ContextView;

    open spec fn view(&self) -> ContextView {
        ContextView {
            repository: self.repository@,
            work_id: self.work_id@,
            head_sha: crate::finding::opt_string(self.head_sha),
        }
    }
}

pub open spec fn missing_value(name: Seq<char>) -> Seq<char> {
    "provider-current gating requires `"@ + name + "`"@
}

/// No value at all keeps the legacy path; otherwise the required
/// repository, the current repository and the work are all owed (the head
/// may be absent), and the first missing one is named.
pub open spec fn provider_current_binding(
    required_repository: Option<Seq<char>>,
    current_repository: Option<Seq<char>>,
    work_id: Option<Seq<char>>,
    head_sha: Option<Seq<char>>,
) -> Result<Option<(Seq<char>, ContextView)>, Seq<char>> {
    if required_repository is None && current_repository is None && work_id is None
        && head_sha is None {
        Ok(None)
    } else if required_repository is None {
        Err(missing_value(REQUIRED_PROVIDER_REPOSITORY_ENV@))
    } else if current_repository is None {
        Err(missing_value(CURRENT_PROVIDER_REPOSITORY_ENV@))
    } else if work_id is None {
        Err(missing_value(CURRENT_PROVIDER_WORK_ENV@))
    } else {
        Ok(
            Some(
                (
                    required_repository.unwrap(),
                    ContextView {
                        repository: current_repository.unwrap(),
                        work_id: work_id.unwrap(),
                        head_sha,
                    },
                ),
            ),
        )
    }
}

fn missing_message(name: &str) -> (s: String)
    ensures
        s@ == missing_value(name@),
{
    let mut m = chars_of("provider-current gating requires `");
    extend_str(&mut m, name);
    extend_str(&mut m, "`");
    string_of(m.as_slice())
}

/// Reads the provider-current binding from its four optional values.
pub fn provider_current_from_values(
    required_repository: Option<String>,
    current_repository: Option<String>,
    work_id: Option<String>,
    head_sha: Option<String>,
) -> (r: Result<Option<(String, ProviderCurrentWorkContext)>, String>)
    ensures
        match provider_current_binding(
            crate::finding::opt_string(required_repository),
            crate::finding::opt_string(current_repository),
            crate::finding::opt_string(work_id),
            crate::finding::opt_string(head_sha),
        ) {
            Ok(None) => r matches Ok(None),
            Ok(Some((req, ctx))) => r matches Ok(Some((q, c))) && q@ == req && c@ == ctx,
            Err(m) => r matches Err(e) && e@ == m,
        },
{
    if required_repository.is_none() && current_repository.is_none() && work_id.is_none()
        && head_sha.is_none() {
        return Ok(None);
    }
    let required_repository = match required_repository {
        Some(v) => v,
        None => return Err(missing_message(REQUIRED_PROVIDER_REPOSITORY_ENV)),
    };
    let current_repository = match current_repository {
        Some(v) => v,
        None => return Err(missing_message(CURRENT_PROVIDER_REPOSITORY_ENV)),
    };
    let work_id = match work_id {
        Some(v) => v,
        None => return Err(missing_message(CURRENT_PROVIDER_WORK_ENV)),
    };
    Ok(
        Some(
            (
                required_repository,
                ProviderCurrentWorkContext { repository: current_repository, work_id, head_sha },
            ),
        ),
    )
}

// ---------------------------------------------------------------------------
// The provider-snapshot gate.

pub open spec fn work_invalid_kind() -> Seq<char> {
    "preflight-inventory-current-work-applicability-invalid"@
}

pub open spec fn work_unknown_kind() -> Seq<char> {
    "preflight-inventory-current-work-applicability-unknown"@
}

/// The current-work applicability findings survive the snapshot gate.
pub open spec fn is_work_finding(f: FindingSpec) -> bool {
    f.kind == work_invalid_kind() || f.kind == work_unknown_kind()
}

pub fn is_work_applicability_finding(finding: &Finding) -> (r: bool)
    ensures
        r == is_work_finding(finding@),
{
    let k = chars_of(finding.kind.as_str());
    let a = chars_of("preflight-inventory-current-work-applicability-invalid");
    let b = chars_of("preflight-inventory-current-work-applicability-unknown");
    chars_eq(k.as_slice(), a.as_slice()) || chars_eq(k.as_slice(), b.as_slice())
}

pub open spec fn findings_view(fs: Seq<Finding>) -> Seq<FindingSpec> {
    fs.map_values(|f: Finding| f@)
}

/// Keeps the current-work applicability findings, in order.
fn keep_work_findings(findings: Vec<Finding>) -> (r: Vec<Finding>)
    ensures
        findings_view(r@) == findings_view(findings@).filter(|f: FindingSpec| is_work_finding(f)),
{
    let ghost all = findings_view(findings@);
    let ghost pred = |f: FindingSpec| is_work_finding(f);
    let mut rest = findings;
    let mut out: Vec<Finding> = Vec::new();
    let mut i: usize = 0;
    assert(all.take(0) =~= Seq::<FindingSpec>::empty());
    assert(all.skip(0) =~= all);
    let n = rest.len();
    assert(all.len() == n);
    while rest.len() > 0
        invariant
            i <= all.len(),
            findings_view(rest@) == all.skip(i as int),
            rest@.len() + i == all.len(),
            all.len() <= usize::MAX,
            pred == (|f: FindingSpec| is_work_finding(f)),
            findings_view(out@) == all.take(i as int).filter(pred),
        decreases rest.len(),
    {
        let ghost rest_before = rest@;
        let f = rest.remove(0);
        assert(f@ == findings_view(rest_before)[0]);
        assert(all.skip(i as int)[0] == all[i as int]);
        assert(findings_view(rest@) =~= all.skip(i + 1)) by {
            assert(rest@ =~= rest_before.remove(0));
            assert forall|k: int| 0 <= k < rest@.len() implies findings_view(rest@)[k] == all.skip(
                i + 1,
            )[k] by {
                assert(rest@[k] == rest_before[k + 1]);
                assert(findings_view(rest_before)[k + 1] == all.skip(i as int)[k + 1]);
            }
        }
        proof {
            reveal_with_fuel(Seq::filter, 1);
            assert(all.take(i + 1).drop_last() =~= all.take(i as int));
            assert(all.take(i + 1).last() == all[i as int]);
        }
        if is_work_applicability_finding(&f) {
            let ghost before = out@;
            out.push(f);
            assert(findings_view(out@) =~= findings_view(before).push(f@));
        }
        i = i + 1;
    }
    assert(all.skip(i as int).len() == 0);
    assert(all.take(i as int) =~= all);
    out
}

pub open spec fn matches_claim(required: Seq<char>) -> ClaimSpec {
    ClaimSpec {
        kind: ClaimKind::Derived,
        message: "Provider snapshot `"@ + required
            + "` matches the independently supplied current snapshot."@,
        evidence: Seq::empty(),
    }
}

pub open spec fn binds_claim(required: Seq<char>) -> ClaimSpec {
    ClaimSpec {
        kind: ClaimKind::Observed,
        message: "The frozen inventory binds provider snapshot `"@ + required + "`."@,
        evidence: Seq::empty(),
    }
}

pub open spec fn note(message: Seq<char>) -> EvidenceSpec {
    EvidenceSpec { message, location: None }
}

pub open spec fn required_note(required: Seq<char>) -> EvidenceSpec {
    note("Required provider snapshot: `"@ + required + "`."@)
}

/// The claim and finding of a snapshot that differs from the required one.
pub open spec fn invalid_claim(withheld: nat, actual: Seq<char>, required: Seq<char>) -> ClaimSpec {
    ClaimSpec {
        kind: ClaimKind::Derived,
        message: "Withheld "@ + crate::text::decimal(withheld)
            + " frozen routing finding(s) because current provider snapshot `"@ + actual
            + "` differs from required snapshot `"@ + required + "`."@,
        evidence: Seq::empty(),
    }
}

/// The finding of a changed snapshot; its claim has the kind `claim_kind`.
pub open spec fn invalid_finding(required: Seq<char>, actual: Seq<char>, claim_kind: ClaimKind) -> FindingSpec {
    FindingSpec {
        kind: "preflight-inventory-provider-snapshot-invalid"@,
        title: "Provider active-work snapshot changed"@,
        location: None,
        claims: seq![
            ClaimSpec {
                kind: claim_kind,
                message: "The independently supplied provider population identity differs from the frozen inventory requirement."@,
                evidence: seq![
                    required_note(required),
                    note("Current provider snapshot: `"@ + actual + "`."@),
                ],
            },
        ],
        question: Some(
            "Refresh the active-work inventory from the current provider population before routing on its collision evidence."@,
        ),
    }
}

/// The claim and finding of an unavailable current snapshot.
pub open spec fn unknown_claim(withheld: nat) -> ClaimSpec {
    ClaimSpec {
        kind: ClaimKind::Unknown,
        message: "Withheld "@ + crate::text::decimal(withheld)
            + " frozen routing finding(s) because the current provider snapshot identity is unavailable."@,
        evidence: Seq::empty(),
    }
}

pub open spec fn unknown_finding(required: Seq<char>) -> FindingSpec {
    FindingSpec {
        kind: "preflight-inventory-provider-snapshot-unknown"@,
        title: "Provider active-work snapshot currentness unknown"@,
        location: None,
        claims: seq![
            ClaimSpec {
                kind: ClaimKind::Unknown,
                message: "The current provider population identity was not supplied, so the frozen inventory cannot be treated as current routing evidence."@,
                evidence: seq![required_note(required)],
            },
        ],
        question: Some(
            "Supply an independently derived current provider snapshot or refresh the active-work inventory before routing on collision evidence."@,
        ),
    }
}

/// The report after the provider-snapshot gate: a current snapshot only adds
/// its matching claim; otherwise every finding but the current-work
/// applicability ones is withheld, the binding and the withheld count are
/// claimed, and the snapshot finding is added, the claim of a changed
/// snapshot having the kind `invalid_claim_kind`.
pub open spec fn gated_report_with(
    a: ReportSpec,
    required: Seq<char>,
    current: Option<Seq<char>>,
    invalid_claim_kind: ClaimKind,
) -> ReportSpec {
    let kept = a.findings.filter(|f: FindingSpec| is_work_finding(f));
    let withheld = (a.findings.len() - kept.len()) as nat;
    match current {
        Some(c) => if c == required {
            ReportSpec { claims: a.claims.push(matches_claim(required)), ..a }
        } else {
            ReportSpec {
                claims: a.claims.push(binds_claim(required)).push(
                    invalid_claim(withheld, c, required),
                ),
                findings: kept.push(invalid_finding(required, c, invalid_claim_kind)),
                ..a
            }
        },
        None => ReportSpec {
            claims: a.claims.push(binds_claim(required)).push(unknown_claim(withheld)),
            findings: kept.push(unknown_finding(required)),
            ..a
        },
    }
}

/// `gated_report_with`, a changed snapshot being claimed with
/// `ClaimKind::Derived`.
pub open spec fn gated_report(
    a: ReportSpec,
    required: Seq<char>,
    current: Option<Seq<char>>,
) -> ReportSpec {
    gated_report_with(a, required, current, ClaimKind::Derived)
}

fn push_claim(analysis: &mut AnalysisReport, claim: Claim)
    ensures
        final(analysis)@ == (ReportSpec { claims: old(analysis)@.claims.push(claim@), ..old(analysis)@ }),
{
    let ghost before = analysis.claims@;
    analysis.claims.push(claim);
    assert(analysis.claims@.map_values(|c: Claim| c@) =~= before.map_values(|c: Claim| c@).push(
        claim@,
    ));
}

fn push_finding(analysis: &mut AnalysisReport, finding: Finding)
    ensures
        final(analysis)@ == (ReportSpec {
            findings: old(analysis)@.findings.push(finding@),
            ..old(analysis)@
        }),
{
    let ghost before = analysis.findings@;
    analysis.findings.push(finding);
    assert(findings_view(analysis.findings@) =~= findings_view(before).push(finding@));
}

proof fn lemma_filter_len<A>(s: Seq<A>, p: spec_fn(A) -> bool)
    ensures
        s.filter(p).len() <= s.len(),
    decreases s.len(),
{
    reveal_with_fuel(Seq::filter, 1);
    if s.len() > 0 {
        lemma_filter_len(s.drop_last(), p);
    }
}

/// Applies the provider-snapshot gate to an active-inventory report.
pub fn apply_provider_snapshot_applicability(
    analysis: AnalysisReport,
    required: &ProviderSnapshotIdentity,
    current_provider_snapshot: Option<&ProviderSnapshotIdentity>,
) -> (r: AnalysisReport)
    ensures
        r@ == gated_report(
            analysis@,
            required@,
            match current_provider_snapshot {
                Some(c) => Some(c@),
                None => None,
            },
        ),
{
    apply_provider_snapshot_gate(analysis, required, current_provider_snapshot, ClaimKind::Derived)
}

/// Applies the provider-snapshot gate, the claim of a changed snapshot
/// having the kind `invalid_claim_kind`.
pub fn apply_provider_snapshot_gate(
    analysis: AnalysisReport,
    required: &ProviderSnapshotIdentity,
    current_provider_snapshot: Option<&ProviderSnapshotIdentity>,
    invalid_claim_kind: ClaimKind,
) -> (r: AnalysisReport)
    ensures
        r@ == gated_report_with(
            analysis@,
            required@,
            match current_provider_snapshot {
                Some(c) => Some(c@),
                None => None,
            },
            invalid_claim_kind,
        ),
{
    let applicability = evaluate_provider_snapshot(required, current_provider_snapshot);
    let req = required.as_str();
    let mut analysis = analysis;
    if applicability.status == ApplicabilityStatus::Applies {
        let mut m = chars_of("Provider snapshot `");
        extend_str(&mut m, req);
        extend_str(&mut m, "` matches the independently supplied current snapshot.");
        push_claim(&mut analysis, Claim::new(ClaimKind::Derived, string_of(m.as_slice()).as_str()));
        return analysis;
    }
    let ghost a0 = analysis@;
    let before = analysis.findings.len();
    let mut all: Vec<Finding> = Vec::new();
    std::mem::swap(&mut all, &mut analysis.findings);
    let kept = keep_work_findings(all);
    proof {
        lemma_filter_len(findings_view(all@), |f: FindingSpec| is_work_finding(f));
    }
    let withheld = before - kept.len();
    analysis.findings = kept;
    assert(analysis@.findings == a0.findings.filter(|f: FindingSpec| is_work_finding(f)));

    let mut b = chars_of("The frozen inventory binds provider snapshot `");
    extend_str(&mut b, req);
    extend_str(&mut b, "`.");
    push_claim(&mut analysis, Claim::new(ClaimKind::Observed, string_of(b.as_slice()).as_str()));

    let mut rq = chars_of("Required provider snapshot: `");
    extend_str(&mut rq, req);
    extend_str(&mut rq, "`.");
    let required_evidence = Evidence::new(string_of(rq.as_slice()).as_str());

    match &applicability.actual {
        Some(actual) => {
            let act = actual.as_str();
            let mut w = chars_of("Withheld ");
            push_decimal(&mut w, withheld);
            extend_str(&mut w, " frozen routing finding(s) because current provider snapshot `");
            extend_str(&mut w, act);
            extend_str(&mut w, "` differs from required snapshot `");
            extend_str(&mut w, req);
            extend_str(&mut w, "`.");
            push_claim(
                &mut analysis,
                Claim::new(ClaimKind::Derived, string_of(w.as_slice()).as_str()),
            );
            let mut cq = chars_of("Current provider snapshot: `");
            extend_str(&mut cq, act);
            extend_str(&mut cq, "`.");
            let claim = Claim::new(
                invalid_claim_kind,
                "The independently supplied provider population identity differs from the frozen inventory requirement.",
            ).with_evidence(required_evidence).with_evidence(
                Evidence::new(string_of(cq.as_slice()).as_str()),
            );
            assert(claim@.evidence =~= invalid_finding(req@, act@, invalid_claim_kind).claims[0].evidence);
            let finding = Finding::new(
                "preflight-inventory-provider-snapshot-invalid",
                "Provider active-work snapshot changed",
            ).with_claim(claim).with_question(
                "Refresh the active-work inventory from the current provider population before routing on its collision evidence.",
            );
            assert(finding@.claims =~= invalid_finding(req@, act@, invalid_claim_kind).claims);
            push_finding(&mut analysis, finding);
        },
        None => {
            let mut w = chars_of("Withheld ");
            push_decimal(&mut w, withheld);
            extend_str(
                &mut w,
                " frozen routing finding(s) because the current provider snapshot identity is unavailable.",
            );
            push_claim(
                &mut analysis,
                Claim::new(ClaimKind::Unknown, string_of(w.as_slice()).as_str()),
            );
            let claim = Claim::new(
                ClaimKind::Unknown,
                "The current provider population identity was not supplied, so the frozen inventory cannot be treated as current routing evidence.",
            ).with_evidence(required_evidence);
            let finding = Finding::new(
                "preflight-inventory-provider-snapshot-unknown",
                "Provider active-work snapshot currentness unknown",
            ).with_claim(claim).with_question(
                "Supply an independently derived current provider snapshot or refresh the active-work inventory before routing on collision evidence.",
            );
            assert(finding@.claims =~= unknown_finding(req@).claims);
            push_finding(&mut analysis, finding);
        },
    }
    analysis
}

} // verus!
