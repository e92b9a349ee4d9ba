use cultist::applicability::{ApplicabilityStatus, EvaluationContext};
use cultist::cmux_review::{
    project_cmux_review_receipt, CmuxReviewBrief, CmuxReviewChallenge,
    CmuxReviewChallengeDisposition, CmuxReviewClaim, CmuxReviewDisposition, CmuxReviewEvidence,
    CmuxReviewEvidenceKind, CmuxReviewFinding, CmuxReviewFrontierKind, CmuxReviewReceipt,
    CmuxReviewRequirement, CmuxReviewRequirementStatus, CmuxReviewSeverity, CmuxReviewSource,
    CmuxReviewSummary, CmuxReviewVerification, CmuxReviewVerificationResult,
};
use cultist::cmux_review_applicability::{
    project_cmux_review_for_context, CmuxReviewApplicabilityRequest,
    CmuxReviewContinuityDisposition,
};
use cultist::finding::ClaimKind;

const BASE: &str = "1111111111111111111111111111111111111111";
const HEAD: &str = "2222222222222222222222222222222222222222";
const DIFF: &str = "3333333333333333333333333333333333333333333333333333333333333333";

fn source() -> CmuxReviewSource {
    CmuxReviewSource {
        base_sha: BASE.to_string(),
        head_sha: HEAD.to_string(),
        diff_sha256: DIFF.to_string(),
        working_tree_dirty: false,
        ruleset_sha256: None,
    }
}

fn evidence(summary: &str) -> CmuxReviewEvidence {
    CmuxReviewEvidence {
        kind: CmuxReviewEvidenceKind::Test,
        summary: summary.to_string(),
        command: None,
        path: None,
        line: None,
    }
}

fn claim(kind: ClaimKind, message: &str) -> CmuxReviewClaim {
    CmuxReviewClaim { kind, message: message.to_string(), evidence: vec![evidence("ran it")] }
}

fn finding(
    id: &str,
    disposition: CmuxReviewDisposition,
    challenge: CmuxReviewChallengeDisposition,
    verification: CmuxReviewVerificationResult,
    claims: Vec<CmuxReviewClaim>,
) -> CmuxReviewFinding {
    CmuxReviewFinding {
        id: id.to_string(),
        title: format!("Finding {id}"),
        severity: CmuxReviewSeverity::P2,
        claims,
        failure_mode: "state drift".to_string(),
        paths: vec!["src/lib.rs".to_string()],
        discovery_sources: vec!["read".to_string()],
        challenge: CmuxReviewChallenge { disposition: challenge, evidence: Vec::new() },
        verification: CmuxReviewVerification { result: verification, evidence: Vec::new() },
        repair: None,
        disposition,
    }
}

fn receipt(findings: Vec<CmuxReviewFinding>, summary: CmuxReviewSummary) -> CmuxReviewReceipt {
    CmuxReviewReceipt {
        schema_version: 1,
        policy_version: "policy-1".to_string(),
        repository_root: "/repo".to_string(),
        source: source(),
        brief: CmuxReviewBrief {
            intent: "Harden parsing.".to_string(),
            requirements: vec![
                CmuxReviewRequirement {
                    requirement: "fail closed".to_string(),
                    status: CmuxReviewRequirementStatus::Satisfied,
                    evidence: Vec::new(),
                },
                CmuxReviewRequirement {
                    requirement: "bounded buffers".to_string(),
                    status: CmuxReviewRequirementStatus::Uncertain,
                    evidence: Vec::new(),
                },
            ],
            out_of_scope_changes: Vec::new(),
            behavior_changed: Vec::new(),
            risk_areas: Vec::new(),
            file_groups: Vec::new(),
            reading_order: Vec::new(),
            safeguards: Vec::new(),
            coverage_gaps: vec!["no fuzzing".to_string()],
        },
        summary,
        findings,
        created_at: "2026-08-19T00:00:00Z".to_string(),
    }
}

fn summary(hypotheses: usize, refuted: usize, human: usize, verified: usize) -> CmuxReviewSummary {
    CmuxReviewSummary {
        hypotheses_investigated: hypotheses,
        suppressed: 0,
        refuted,
        verified,
        human_judgment: human,
    }
}

fn mixed_receipt() -> CmuxReviewReceipt {
    receipt(
        vec![
            finding(
                "f1",
                CmuxReviewDisposition::HumanRequired,
                CmuxReviewChallengeDisposition::Uncertain,
                CmuxReviewVerificationResult::Blocked,
                vec![
                    claim(ClaimKind::Unknown, "Scope unclear."),
                    claim(ClaimKind::Unknown, "Scope unclear."),
                    claim(ClaimKind::Observed, "Seen in logs."),
                ],
            ),
            finding(
                "f2",
                CmuxReviewDisposition::Refuted,
                CmuxReviewChallengeDisposition::Refuted,
                CmuxReviewVerificationResult::NotReproduced,
                vec![claim(ClaimKind::Observed, "Looked odd.")],
            ),
        ],
        summary(3, 1, 1, 0),
    )
}

#[test]
fn projects_attention_frontier_and_quiet_items() {
    let envelope = project_cmux_review_receipt(&mixed_receipt()).unwrap();
    assert_eq!(envelope.schema_version, 1);
    assert_eq!(envelope.requirements.satisfied, 1);
    assert_eq!(envelope.requirements.missing, 0);
    assert_eq!(envelope.requirements.uncertain, 1);
    assert_eq!(envelope.attention.len(), 1);
    assert_eq!(envelope.attention[0].id, "f1");
    assert_eq!(envelope.attention[0].claims.len(), 3);
    assert_eq!(envelope.quiet.len(), 1);
    assert_eq!(envelope.quiet[0].id, "f2");
    let kinds: Vec<CmuxReviewFrontierKind> = envelope.frontier.iter().map(|item| item.kind).collect();
    assert_eq!(
        kinds,
        vec![
            CmuxReviewFrontierKind::UnknownClaim,
            CmuxReviewFrontierKind::ChallengeUncertain,
            CmuxReviewFrontierKind::VerificationBlocked,
            CmuxReviewFrontierKind::HumanRequired,
        ]
    );
    assert_eq!(envelope.frontier[0].message, "Scope unclear.");
    assert_eq!(envelope.coverage_gaps, vec!["no fuzzing".to_string()]);
}

#[test]
fn summary_counts_must_match_findings() {
    let mut r = mixed_receipt();
    r.summary.refuted = 0;
    assert_eq!(
        project_cmux_review_receipt(&r).unwrap_err().to_string(),
        "summary.refuted=0 does not match 1 refuted findings"
    );
    let mut r = mixed_receipt();
    r.summary.hypotheses_investigated = 1;
    assert_eq!(
        project_cmux_review_receipt(&r).unwrap_err().to_string(),
        "summary.hypotheses_investigated cannot be smaller than the retained finding count"
    );
}

#[test]
fn refuted_challenge_cannot_survive() {
    let r = receipt(
        vec![finding(
            "f1",
            CmuxReviewDisposition::AcceptedRisk,
            CmuxReviewChallengeDisposition::Refuted,
            CmuxReviewVerificationResult::NotReproduced,
            vec![claim(ClaimKind::Observed, "x")],
        )],
        summary(1, 0, 0, 0),
    );
    assert_eq!(
        project_cmux_review_receipt(&r).unwrap_err().to_string(),
        "finding f1 survived as AcceptedRisk after the challenger refuted it"
    );
}

#[test]
fn verified_findings_need_proven_or_derived_claims() {
    let r = receipt(
        vec![finding(
            "f1",
            CmuxReviewDisposition::AcceptedRisk,
            CmuxReviewChallengeDisposition::SurvivesChallenge,
            CmuxReviewVerificationResult::Reproduced,
            vec![claim(ClaimKind::Observed, "x")],
        )],
        summary(1, 0, 0, 1),
    );
    assert_eq!(
        project_cmux_review_receipt(&r).unwrap_err().to_string(),
        "finding f1 reports evidence-supported verification without a proven or derived claim"
    );
}

#[test]
fn repaired_findings_need_a_repair_receipt() {
    let r = receipt(
        vec![finding(
            "f1",
            CmuxReviewDisposition::Repaired,
            CmuxReviewChallengeDisposition::SurvivesChallenge,
            CmuxReviewVerificationResult::Reproduced,
            vec![claim(ClaimKind::Proven, "x")],
        )],
        summary(1, 0, 0, 1),
    );
    assert_eq!(
        project_cmux_review_receipt(&r).unwrap_err().to_string(),
        "finding f1 is disposed repaired without a repair receipt"
    );
}

#[test]
fn source_ids_must_be_lowercase_git_objects() {
    let mut r = mixed_receipt();
    r.source.head_sha = "ABC".to_string();
    assert_eq!(
        project_cmux_review_receipt(&r).unwrap_err().to_string(),
        "source.head_sha must be an exact 40- or 64-character lowercase Git object id"
    );
}

fn context(revision: Option<&str>) -> EvaluationContext {
    EvaluationContext {
        repository: None,
        revision: revision.map(|value| value.to_string()),
        work: None,
        path: None,
    }
}

#[test]
fn continuity_follows_the_current_revision() {
    let exact = project_cmux_review_for_context(&CmuxReviewApplicabilityRequest {
        receipt: mixed_receipt(),
        current: context(Some(HEAD)),
    })
    .unwrap();
    assert_eq!(exact.applicability.status, ApplicabilityStatus::Applies);
    assert_eq!(exact.disposition, CmuxReviewContinuityDisposition::ReuseExactReview);

    let moved = project_cmux_review_for_context(&CmuxReviewApplicabilityRequest {
        receipt: mixed_receipt(),
        current: context(Some(BASE)),
    })
    .unwrap();
    assert_eq!(moved.disposition, CmuxReviewContinuityDisposition::RefreshReview);

    let unknown = project_cmux_review_for_context(&CmuxReviewApplicabilityRequest {
        receipt: mixed_receipt(),
        current: context(None),
    })
    .unwrap();
    assert_eq!(unknown.disposition, CmuxReviewContinuityDisposition::NeedCurrentRevision);

    let refused = project_cmux_review_for_context(&CmuxReviewApplicabilityRequest {
        receipt: mixed_receipt(),
        current: context(Some("HEAD")),
    });
    assert_eq!(
        refused.err().unwrap().to_string(),
        "current revision must be an exact 40- or 64-character lowercase Git object id"
    );
}
