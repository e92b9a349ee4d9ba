use cultist::active_inventory_context::{
    apply_context, combine_statuses, evaluate_context, sha256_identity, validate_context,
    validate_sha256_identity, ActiveInventoryConsumptionContext, CurrentWorkApplicabilityInput,
    InventoryBinding, InventoryWorkBinding, ProviderSnapshotApplicabilityInput, WorkCoordinate,
};
use cultist::applicability::ApplicabilityStatus;
use cultist::finding::{AnalysisReport, ClaimKind, Finding};
use cultist::provider_snapshot_applicability::ProviderSnapshotIdentity;
use sha2::{Digest, Sha256};

const HEAD_A: &str = "aaaaaaaaaaaaaaaaaaaaaaaaaaaaaaaaaaaaaaaa";
const HEAD_B: &str = "bbbbbbbbbbbbbbbbbbbbbbbbbbbbbbbbbbbbbbbb";

fn snapshot(c: char) -> ProviderSnapshotIdentity {
    ProviderSnapshotIdentity::parse(format!("sha256:{}", c.to_string().repeat(64))).unwrap()
}

fn binding() -> InventoryBinding {
    InventoryBinding {
        current: InventoryWorkBinding {
            id: "pull/10".to_string(),
            head_sha: HEAD_A.to_string(),
        },
    }
}

fn context(
    inventory: &[u8],
    current_work: Option<Option<&str>>,
    provider_snapshot: Option<(char, Option<char>)>,
) -> ActiveInventoryConsumptionContext {
    ActiveInventoryConsumptionContext {
        schema_version: 1,
        inventory_sha256: sha256_identity(inventory),
        current_work: current_work.map(|head| CurrentWorkApplicabilityInput {
            current: head.map(|h| WorkCoordinate {
                id: "pull/10".to_string(),
                head_sha: h.to_string(),
            }),
        }),
        provider_snapshot: provider_snapshot.map(|(r, c)| ProviderSnapshotApplicabilityInput {
            required: snapshot(r),
            current: c.map(snapshot),
        }),
    }
}

fn report_with_overlap() -> AnalysisReport {
    let mut report = AnalysisReport::new("preflight-active-inventory", "/repo");
    report.findings.push(Finding::new(
        "preflight-inventory-path-overlap",
        "Active-change path overlap",
    ));
    report.findings.push(Finding::new(
        "preflight-explicit-coordination",
        "Explicit coordination",
    ));
    report
}

fn gated(ctx: &ActiveInventoryConsumptionContext) -> AnalysisReport {
    let evaluation = evaluate_context(&binding(), ctx).unwrap();
    let mut report = report_with_overlap();
    apply_context(&mut report, ctx, &evaluation);
    report
}

fn has_kind(report: &AnalysisReport, kind: &str) -> bool {
    report.findings.iter().any(|f| f.kind == kind)
}

fn has_claim(report: &AnalysisReport, text: &str) -> bool {
    report.claims.iter().any(|c| c.message.contains(text))
}

#[test]
fn identity_of_inventory_bytes_is_prefixed_sha256() {
    let bytes = b"{\"current\":{}}";
    let expected: String = Sha256::digest(bytes)
        .iter()
        .map(|b| format!("{b:02x}"))
        .collect();
    assert_eq!(sha256_identity(bytes), format!("sha256:{expected}"));
}

#[test]
fn sha256_identity_must_be_canonical() {
    assert!(validate_sha256_identity(&format!("sha256:{}", "a".repeat(64)), "x").is_ok());
    assert_eq!(
        validate_sha256_identity("md5:abc", "inventory_sha256").unwrap_err(),
        "inventory_sha256 must use `sha256:<digest>`"
    );
    assert_eq!(
        validate_sha256_identity(&format!("sha256:{}", "A".repeat(64)), "inventory_sha256")
            .unwrap_err(),
        "inventory_sha256 sha256 digest must contain exactly 64 lowercase hexadecimal characters"
    );
}

#[test]
fn inventory_binding_mismatch_is_refused() {
    let ctx = context(b"one", Some(Some(HEAD_A)), None);
    assert!(validate_context(&ctx, b"one").is_ok());
    let error = validate_context(&ctx, b"two").unwrap_err();
    assert!(error.starts_with("active-work consumption context is bound to inventory `sha256:"));
    let none = context(b"one", None, None);
    assert_eq!(
        validate_context(&none, b"one").unwrap_err(),
        "active-work consumption context must require current_work and/or provider_snapshot applicability"
    );
    let mut old = context(b"one", Some(None), None);
    old.schema_version = 3;
    assert_eq!(
        validate_context(&old, b"one").unwrap_err(),
        "unsupported active-work consumption context schema 3; expected 1"
    );
}

#[test]
fn statuses_combine_invalid_before_unknown() {
    let invalid = ApplicabilityStatus::Invalid;
    let unknown = ApplicabilityStatus::Unknown;
    let applies = ApplicabilityStatus::Applies;
    assert_eq!(combine_statuses(Some(invalid), Some(unknown)), invalid);
    assert_eq!(combine_statuses(Some(unknown), Some(invalid)), invalid);
    assert_eq!(combine_statuses(Some(unknown), Some(applies)), unknown);
    assert_eq!(combine_statuses(Some(applies), None), applies);
    assert_eq!(combine_statuses(None, None), applies);
}

#[test]
fn exact_current_work_applies_and_keeps_routing() {
    let ctx = context(b"inv", Some(Some(HEAD_A)), None);
    let report = gated(&ctx);
    assert!(has_kind(&report, "preflight-inventory-path-overlap"));
    assert!(has_claim(&report, "Provider-current work applicability is APPLIES"));
    assert!(has_claim(&report, "Every applicability axis required"));
    assert!(!has_kind(&report, "preflight-inventory-applicability-gated"));
}

#[test]
fn moved_current_work_head_gates_routing() {
    let ctx = context(b"inv", Some(Some(HEAD_B)), None);
    let report = gated(&ctx);
    assert!(!has_kind(&report, "preflight-inventory-path-overlap"));
    assert!(has_kind(&report, "preflight-inventory-path-overlap-applicability-gated"));
    assert!(has_kind(&report, "preflight-explicit-coordination-applicability-gated"));
    assert!(has_kind(&report, "preflight-inventory-applicability-gated"));
    assert!(has_claim(&report, "Provider-current work applicability is INVALID"));
    let work = report
        .claims
        .iter()
        .find(|c| c.message.starts_with("Provider-current work"))
        .unwrap();
    assert_eq!(
        work.evidence[0].message,
        format!("work applicability Revision: required `{HEAD_A}`, actual `{HEAD_B}`, status mismatched.")
    );
    assert_eq!(
        work.evidence[1].message,
        "work applicability Work: required `pull/10`, actual `pull/10`, status matched."
    );
}

#[test]
fn unavailable_current_work_is_unknown() {
    let ctx = context(b"inv", Some(None), None);
    let report = gated(&ctx);
    assert!(has_claim(&report, "Provider-current work applicability is UNKNOWN"));
    let gate = report.claims.last().unwrap();
    assert_eq!(gate.kind, ClaimKind::Unknown);
    assert_eq!(
        gate.message,
        "Current-routing interpretation is gated because explicit active-work consumption applicability is UNKNOWN."
    );
}

#[test]
fn provider_snapshot_axis_gates_and_applies() {
    let applies = gated(&context(b"inv", None, Some(('a', Some('a')))));
    assert!(has_claim(&applies, "Provider active-work population applicability is APPLIES"));
    assert!(has_kind(&applies, "preflight-inventory-path-overlap"));

    let moved = gated(&context(b"inv", None, Some(('a', Some('b')))));
    assert!(has_claim(&moved, "Provider active-work population applicability is INVALID"));
    assert!(has_kind(&moved, "preflight-inventory-path-overlap-applicability-gated"));

    let missing = gated(&context(b"inv", None, Some(('a', None))));
    let claim = missing
        .claims
        .iter()
        .find(|c| c.message.starts_with("Provider active-work population"))
        .unwrap();
    assert_eq!(
        claim.evidence[0].message,
        format!("required provider snapshot `sha256:{}`, actual UNAVAILABLE.", "a".repeat(64))
    );
}

#[test]
fn invalid_axis_wins_over_unknown_axis() {
    let report = gated(&context(b"inv", Some(None), Some(('a', Some('b')))));
    let gate = report.claims.last().unwrap();
    assert!(gate.message.ends_with("applicability is INVALID."));
    assert_eq!(gate.kind, ClaimKind::Derived);
}
