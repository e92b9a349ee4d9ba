use cultist::active_changes::{
    apply_provider_snapshot_applicability, provider_current_from_values,
    ProviderCurrentWorkContext,
};
use cultist::finding::{AnalysisReport, ClaimKind, Finding};
use cultist::provider_snapshot_applicability::ProviderSnapshotIdentity;

#[test]
fn absent_provider_current_environment_preserves_legacy_path() {
    assert_eq!(
        provider_current_from_values(None, None, None, None).unwrap(),
        None
    );
}

#[test]
fn work_without_head_represents_unknown_current_head() {
    assert_eq!(
        provider_current_from_values(
            Some("owner/repo".to_string()),
            Some("owner/repo".to_string()),
            Some("#10".to_string()),
            None,
        )
        .unwrap(),
        Some((
            "owner/repo".to_string(),
            ProviderCurrentWorkContext {
                repository: "owner/repo".to_string(),
                work_id: "#10".to_string(),
                head_sha: None,
            },
        ))
    );
}

#[test]
fn full_provider_current_binding_is_preserved() {
    assert_eq!(
        provider_current_from_values(
            Some("owner/repo".to_string()),
            Some("owner/repo".to_string()),
            Some("#10".to_string()),
            Some("abc".to_string()),
        )
        .unwrap(),
        Some((
            "owner/repo".to_string(),
            ProviderCurrentWorkContext {
                repository: "owner/repo".to_string(),
                work_id: "#10".to_string(),
                head_sha: Some("abc".to_string()),
            },
        ))
    );
}

#[test]
fn partial_provider_current_binding_fails_closed() {
    assert!(provider_current_from_values(
        Some("owner/repo".to_string()),
        None,
        Some("#10".to_string()),
        Some("abc".to_string()),
    )
    .is_err());
    assert!(provider_current_from_values(
        Some("owner/repo".to_string()),
        Some("owner/repo".to_string()),
        None,
        Some("abc".to_string()),
    )
    .is_err());
}

#[test]
fn missing_binding_names_the_first_absent_value() {
    assert_eq!(
        provider_current_from_values(None, None, None, Some("abc".to_string())).unwrap_err(),
        "provider-current gating requires `CULTIST_REQUIRED_PROVIDER_REPOSITORY`"
    );
    assert_eq!(
        provider_current_from_values(Some("r".to_string()), None, None, None).unwrap_err(),
        "provider-current gating requires `CULTIST_CURRENT_PROVIDER_REPOSITORY`"
    );
    assert_eq!(
        provider_current_from_values(Some("r".to_string()), Some("r".to_string()), None, None)
            .unwrap_err(),
        "provider-current gating requires `CULTIST_CURRENT_PROVIDER_WORK`"
    );
}

fn identity(byte: char) -> ProviderSnapshotIdentity {
    ProviderSnapshotIdentity::parse(format!("sha256:{}", byte.to_string().repeat(64))).unwrap()
}

fn report_with(findings: &[(&str, &str)]) -> AnalysisReport {
    let mut report = AnalysisReport::new("test-provider-applicability", "/repo");
    report
        .findings
        .extend(findings.iter().map(|(kind, title)| Finding::new(kind, title)));
    report
}

fn has_kind(report: &AnalysisReport, kind: &str) -> bool {
    report.findings.iter().any(|finding| finding.kind == kind)
}

#[test]
fn work_invalid_survives_population_unknown_and_routing_is_withheld() {
    let required = identity('a');
    let report = report_with(&[
        (
            "preflight-inventory-current-work-applicability-invalid",
            "Current work applicability changed",
        ),
        ("preflight-inventory-path-overlap", "Active-change path overlap"),
    ]);

    let result = apply_provider_snapshot_applicability(report, &required, None);

    assert!(has_kind(
        &result,
        "preflight-inventory-current-work-applicability-invalid"
    ));
    assert!(has_kind(&result, "preflight-inventory-provider-snapshot-unknown"));
    assert!(!has_kind(&result, "preflight-inventory-path-overlap"));
}

#[test]
fn work_unknown_survives_population_invalid_and_routing_is_withheld() {
    let required = identity('a');
    let current = identity('b');
    let report = report_with(&[
        (
            "preflight-inventory-current-work-applicability-unknown",
            "Current work applicability unknown",
        ),
        ("preflight-inventory-path-overlap", "Active-change path overlap"),
    ]);

    let result = apply_provider_snapshot_applicability(report, &required, Some(&current));

    assert!(has_kind(
        &result,
        "preflight-inventory-current-work-applicability-unknown"
    ));
    assert!(has_kind(&result, "preflight-inventory-provider-snapshot-invalid"));
    assert!(!has_kind(&result, "preflight-inventory-path-overlap"));
}

#[test]
fn population_applies_preserves_upstream_routing_when_work_gate_applies() {
    let required = identity('a');
    let report = report_with(&[("preflight-inventory-path-overlap", "Active-change path overlap")]);

    let result = apply_provider_snapshot_applicability(report, &required, Some(&required));

    assert!(has_kind(&result, "preflight-inventory-path-overlap"));
    assert!(!has_kind(&result, "preflight-inventory-provider-snapshot-invalid"));
    assert!(!has_kind(&result, "preflight-inventory-provider-snapshot-unknown"));
}

#[test]
fn snapshot_gate_counts_withheld_findings() {
    let required = identity('a');
    let current = identity('b');
    let report = report_with(&[
        ("preflight-inventory-path-overlap", "Active-change path overlap"),
        ("preflight-inventory-explicit-coordination", "Coordination"),
    ]);
    let result = apply_provider_snapshot_applicability(report, &required, Some(&current));
    let a = "a".repeat(64);
    let b = "b".repeat(64);
    assert_eq!(result.claims.len(), 2);
    assert_eq!(
        result.claims[0].message,
        format!("The frozen inventory binds provider snapshot `sha256:{a}`.")
    );
    assert_eq!(result.claims[1].kind, ClaimKind::Derived);
    assert_eq!(
        result.claims[1].message,
        format!("Withheld 2 frozen routing finding(s) because current provider snapshot `sha256:{b}` differs from required snapshot `sha256:{a}`.")
    );
    assert_eq!(result.findings.len(), 1);
    assert_eq!(
        result.findings[0].claims[0].evidence[1].message,
        format!("Current provider snapshot: `sha256:{b}`.")
    );

    let applies = apply_provider_snapshot_applicability(report_with(&[]), &required, Some(&required));
    assert_eq!(
        applies.claims[0].message,
        format!("Provider snapshot `sha256:{a}` matches the independently supplied current snapshot.")
    );
}

#[test]
fn changed_snapshot_claim_is_derived_in_the_active_changes_gate() {
    let required = identity('a');
    let current = identity('b');
    let report = report_with(&[("preflight-inventory-path-overlap", "Active-change path overlap")]);
    let result = apply_provider_snapshot_applicability(report, &required, Some(&current));
    let finding = result
        .findings
        .iter()
        .find(|f| f.kind == "preflight-inventory-provider-snapshot-invalid")
        .unwrap();
    assert_eq!(finding.claims[0].kind, ClaimKind::Derived);
}
