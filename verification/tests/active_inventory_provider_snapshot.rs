use cultist::active_inventory_provider_snapshot::{
    build_active_inventory_analysis_report_with_provider_snapshot, provider_snapshot_binding,
    required_provider_snapshot,
};
use cultist::finding::{AnalysisReport, ClaimKind, Finding};
use cultist::provider_snapshot_applicability::ProviderSnapshotIdentity;

const A: &str = "sha256:aaaaaaaaaaaaaaaaaaaaaaaaaaaaaaaaaaaaaaaaaaaaaaaaaaaaaaaaaaaaaaaa";
const B: &str = "sha256:bbbbbbbbbbbbbbbbbbbbbbbbbbbbbbbbbbbbbbbbbbbbbbbbbbbbbbbbbbbbbbbb";
const NOT_CANONICAL: &str =
    "`provider_snapshot_identity` must be a canonical `sha256:<64-lowercase-hex>` string";
const UNBOUND: &str = "current provider snapshot was supplied, but the inventory does not bind `provider_snapshot_identity`";

fn id(text: &str) -> ProviderSnapshotIdentity {
    ProviderSnapshotIdentity::parse(text.to_string()).unwrap()
}

fn bound(identity: &str) -> Vec<u8> {
    format!("{{\"schema\":1,\"provider_snapshot_identity\":\"{identity}\"}}").into_bytes()
}

fn report() -> AnalysisReport {
    let mut report = AnalysisReport::new("preflight-inventory", "/repo");
    report.findings.push(Finding::new(
        "preflight-inventory-path-overlap",
        "Active-change path overlap",
    ));
    report
}

#[test]
fn absent_member_binds_nothing() {
    assert!(required_provider_snapshot(b"{\"schema\":1}").unwrap().is_none());
    assert!(required_provider_snapshot(b"[1, 2]").unwrap().is_none());
}

#[test]
fn string_member_is_parsed_as_identity() {
    let required = required_provider_snapshot(&bound(A)).unwrap().unwrap();
    assert_eq!(required.as_str(), A);
}

#[test]
fn escaped_string_member_is_unescaped_before_parsing() {
    let bytes = format!("{{\"provider_snapshot_identity\":\"sha256\\u003a{}\"}}", "a".repeat(64))
        .into_bytes();
    let required = required_provider_snapshot(&bytes).unwrap().unwrap();
    assert_eq!(required.as_str(), A);
}

#[test]
fn non_canonical_string_is_refused_with_parse_error() {
    let err = required_provider_snapshot(&bound("md5:abc")).unwrap_err();
    assert_eq!(err, "provider snapshot identity must use `sha256:<digest>`");
}

#[test]
fn non_string_member_is_refused() {
    let err = required_provider_snapshot(b"{\"provider_snapshot_identity\":7}").unwrap_err();
    assert_eq!(err, NOT_CANONICAL);
    let err = required_provider_snapshot(b"{\"provider_snapshot_identity\":null}").unwrap_err();
    assert_eq!(err, NOT_CANONICAL);
}

#[test]
fn unparsable_inventory_is_refused() {
    let err = required_provider_snapshot(b"{\"provider_snapshot_identity\":").unwrap_err();
    assert!(!err.is_empty());
}

#[test]
fn current_snapshot_without_binding_is_refused() {
    let current = id(B);
    assert_eq!(provider_snapshot_binding(None, Some(&current)).unwrap_err(), UNBOUND);
    assert!(provider_snapshot_binding(None, None).unwrap().is_none());
    assert_eq!(
        provider_snapshot_binding(Some(id(A)), None).unwrap().unwrap().as_str(),
        A
    );
    assert_eq!(
        provider_snapshot_binding(Some(id(A)), Some(&current)).unwrap().unwrap().as_str(),
        A
    );
}

#[test]
fn unbound_inventory_report_passes_through() {
    let result =
        build_active_inventory_analysis_report_with_provider_snapshot(b"{}", None, Ok(report()))
            .unwrap();
    assert_eq!(result, report());
}

#[test]
fn unbound_inventory_with_current_snapshot_is_refused() {
    let current = id(A);
    let err = build_active_inventory_analysis_report_with_provider_snapshot(
        b"{}",
        Some(&current),
        Ok(report()),
    )
    .unwrap_err();
    assert_eq!(err, UNBOUND);
}

#[test]
fn bound_inventory_matching_snapshot_keeps_routing() {
    let current = id(A);
    let result = build_active_inventory_analysis_report_with_provider_snapshot(
        &bound(A),
        Some(&current),
        Ok(report()),
    )
    .unwrap();
    assert_eq!(result.findings.len(), 1);
    assert_eq!(result.findings[0].kind, "preflight-inventory-path-overlap");
    assert_eq!(
        result.claims.last().unwrap().message,
        format!("Provider snapshot `{A}` matches the independently supplied current snapshot.")
    );
}

#[test]
fn bound_inventory_changed_snapshot_withholds_routing() {
    let current = id(B);
    let result = build_active_inventory_analysis_report_with_provider_snapshot(
        &bound(A),
        Some(&current),
        Ok(report()),
    )
    .unwrap();
    let kinds: Vec<&str> = result.findings.iter().map(|f| f.kind.as_str()).collect();
    assert_eq!(kinds, vec!["preflight-inventory-provider-snapshot-invalid"]);
    assert_eq!(result.findings[0].claims[0].kind, ClaimKind::Observed);
}

#[test]
fn bound_inventory_without_current_snapshot_is_unknown() {
    let result = build_active_inventory_analysis_report_with_provider_snapshot(
        &bound(A),
        None,
        Ok(report()),
    )
    .unwrap();
    let kinds: Vec<&str> = result.findings.iter().map(|f| f.kind.as_str()).collect();
    assert_eq!(kinds, vec!["preflight-inventory-provider-snapshot-unknown"]);
}

#[test]
fn binding_refusal_comes_before_report_errors() {
    let err = build_active_inventory_analysis_report_with_provider_snapshot(
        b"{\"provider_snapshot_identity\":false}",
        None,
        Err("inventory is malformed".to_string()),
    )
    .unwrap_err();
    assert_eq!(err, NOT_CANONICAL);
    let err = build_active_inventory_analysis_report_with_provider_snapshot(
        &bound(A),
        None,
        Err("inventory is malformed".to_string()),
    )
    .unwrap_err();
    assert_eq!(err, "inventory is malformed");
}
