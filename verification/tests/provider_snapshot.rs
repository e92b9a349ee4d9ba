use cultist::applicability::ApplicabilityStatus;
use cultist::provider_snapshot_applicability::identity::{
    build_provider_snapshot_identity, Activity, CoordinationKind, DraftPolicy, OrderDirection,
    OrderField, ProviderCoordination, ProviderKind, ProviderSelection, ProviderSnapshotFacts,
    ProviderState, ProviderWorkFact, TieBreak, TieBreakField, TraversalMode, WorkKind,
};
use cultist::provider_snapshot_applicability::{
    check_recorded_applicability, evaluate_provider_snapshot, ProviderSnapshotIdentity,
};
use sha2::Digest;

fn hex(bytes: &[u8]) -> String {
    bytes.iter().map(|byte| format!("{byte:02x}")).collect()
}

fn sha_hex(text: &str) -> String {
    hex(&sha2::Sha256::digest(text.as_bytes()))
}

const A: &str = "sha256:aaaaaaaaaaaaaaaaaaaaaaaaaaaaaaaaaaaaaaaaaaaaaaaaaaaaaaaaaaaaaaaa";
const B: &str = "sha256:bbbbbbbbbbbbbbbbbbbbbbbbbbbbbbbbbbbbbbbbbbbbbbbbbbbbbbbbbbbbbbbb";

#[test]
fn parses_only_exact_sha256_identities() {
    let id = ProviderSnapshotIdentity::parse(A.to_string()).unwrap();
    assert_eq!(id.as_str(), A);
    assert_eq!(
        ProviderSnapshotIdentity::parse("md5:abc".to_string()).unwrap_err().to_string(),
        "provider snapshot identity must use `sha256:<digest>`"
    );
    assert_eq!(
        ProviderSnapshotIdentity::parse("sha256:ABC".to_string()).unwrap_err().to_string(),
        "provider snapshot sha256 digest must contain exactly 64 lowercase hexadecimal characters"
    );
}

#[test]
fn evaluates_snapshot_applicability() {
    let a = ProviderSnapshotIdentity::parse(A.to_string()).unwrap();
    let b = ProviderSnapshotIdentity::parse(B.to_string()).unwrap();
    assert_eq!(evaluate_provider_snapshot(&a, Some(&a)).status, ApplicabilityStatus::Applies);
    assert_eq!(evaluate_provider_snapshot(&a, Some(&b)).status, ApplicabilityStatus::Invalid);
    let unknown = evaluate_provider_snapshot(&a, None);
    assert_eq!(unknown.status, ApplicabilityStatus::Unknown);
    assert!(unknown.actual.is_none());
    assert_eq!(unknown.required.as_str(), A);
}

#[test]
fn recorded_status_must_match_identities() {
    let a = || ProviderSnapshotIdentity::parse(A.to_string()).unwrap();
    let b = || ProviderSnapshotIdentity::parse(B.to_string()).unwrap();
    assert!(check_recorded_applicability(1, ApplicabilityStatus::Invalid, a(), Some(b())).is_ok());
    assert_eq!(
        check_recorded_applicability(1, ApplicabilityStatus::Applies, a(), Some(b())).err().unwrap(),
        "provider snapshot applicability status is inconsistent with required/actual identities"
    );
    assert_eq!(
        check_recorded_applicability(2, ApplicabilityStatus::Unknown, a(), None).err().unwrap(),
        "unsupported provider snapshot applicability schema 2; expected 1"
    );
}

fn selection() -> ProviderSelection {
    ProviderSelection {
        provider_kind: ProviderKind::Github,
        provider_instance: "GitHub.com.".to_string(),
        collection: "Owner/Repo".to_string(),
        work_kind: WorkKind::PullRequest,
        states: vec![ProviderState::Closed, ProviderState::Open],
        draft_policy: DraftPolicy::Exclude,
        traversal_mode: TraversalMode::Exhaustive,
        page_size: 100,
        max_items: None,
        order_field: OrderField::UpdatedAt,
        order_direction: OrderDirection::Desc,
        tie_break: None,
    }
}

fn facts() -> ProviderSnapshotFacts {
    ProviderSnapshotFacts {
        selection: selection(),
        work: vec![
            ProviderWorkFact {
                id: "pull/12".to_string(),
                head_sha: "ABCDEF0123456789ABCDEF0123456789ABCDEF01".to_string(),
                activity: Activity::Preparation,
                changed_paths: vec!["src/b.rs".to_string(), "src/a.rs".to_string()],
            },
            ProviderWorkFact {
                id: "pull/3".to_string(),
                head_sha: "0000000000000000000000000000000000000003".to_string(),
                activity: Activity::ConfirmedActive,
                changed_paths: vec!["x \"q\".rs".to_string()],
            },
        ],
        coordination_edges: vec![
            ProviderCoordination {
                kind: CoordinationKind::Blocks,
                from: "pull/12".to_string(),
                to: "pull/3".to_string(),
                source: "s2".to_string(),
            },
            ProviderCoordination {
                kind: CoordinationKind::DependsOn,
                from: "pull/3".to_string(),
                to: "pull/12".to_string(),
                source: "s1".to_string(),
            },
            ProviderCoordination {
                kind: CoordinationKind::DependsOn,
                from: "pull/3".to_string(),
                to: "pull/12".to_string(),
                source: "s3".to_string(),
            },
        ],
    }
}

#[test]
fn identity_digests_canonical_documents() {
    let selection_doc = "{\"schema_version\":0,\"provider_kind\":\"github\",\"provider_instance\":\"github.com\",\"collection\":\"owner/repo\",\"work_kind\":\"pull_request\",\"states\":[\"open\",\"closed\"],\"draft_policy\":\"exclude\",\"coverage\":{\"mode\":\"exhaustive\"}}";
    let work_doc = "{\"schema_version\":0,\"work\":[{\"id\":\"pull/12\",\"head_sha\":\"abcdef0123456789abcdef0123456789abcdef01\",\"activity\":\"preparation\",\"changed_paths\":[\"src/a.rs\",\"src/b.rs\"]},{\"id\":\"pull/3\",\"head_sha\":\"0000000000000000000000000000000000000003\",\"activity\":\"confirmed_active\",\"changed_paths\":[\"x \\\"q\\\".rs\"]}],\"coordination_edges\":[{\"kind\":\"depends_on\",\"from\":\"pull/3\",\"to\":\"pull/12\"},{\"kind\":\"blocks\",\"from\":\"pull/12\",\"to\":\"pull/3\"}]}";
    let composition = format!(
        "{{\"schema_version\":0,\"selection_identity\":\"{}\",\"work_fact_identity\":\"{}\"}}",
        sha_hex(selection_doc),
        sha_hex(work_doc)
    );
    let expected = format!("sha256:{}", sha_hex(&composition));
    let identity = build_provider_snapshot_identity(&facts()).unwrap();
    assert_eq!(identity.as_str(), expected);
}

#[test]
fn identity_is_independent_of_input_order() {
    let mut reordered = facts();
    reordered.work.reverse();
    reordered.coordination_edges.reverse();
    reordered.selection.states.reverse();
    assert_eq!(
        build_provider_snapshot_identity(&facts()).unwrap().as_str(),
        build_provider_snapshot_identity(&reordered).unwrap().as_str()
    );
}

#[test]
fn bounded_traversal_needs_a_tie_break() {
    let mut f = facts();
    f.selection.traversal_mode = TraversalMode::Bounded;
    f.selection.max_items = Some(50);
    assert_eq!(
        build_provider_snapshot_identity(&f).unwrap_err().to_string(),
        "bounded traversal requires a deterministic tie-break"
    );
    f.selection.tie_break =
        Some(TieBreak { field: TieBreakField::LocalWorkNumber, direction: OrderDirection::Asc });
    assert!(build_provider_snapshot_identity(&f).is_ok());
}

#[test]
fn refuses_malformed_facts_with_the_first_reason() {
    let mut f = facts();
    f.selection.states.push(ProviderState::Open);
    assert_eq!(
        build_provider_snapshot_identity(&f).unwrap_err().to_string(),
        "duplicate provider state `Open`"
    );
    let mut f = facts();
    f.selection.provider_instance = "bad_host".to_string();
    assert_eq!(
        build_provider_snapshot_identity(&f).unwrap_err().to_string(),
        "provider instance must be a canonical host name"
    );
    let mut f = facts();
    f.work[1].id = "pull/03".to_string();
    assert_eq!(
        build_provider_snapshot_identity(&f).unwrap_err().to_string(),
        "work id `pull/03` must use a positive canonical decimal number"
    );
    let mut f = facts();
    f.work[0].changed_paths.push("src/../x.rs".to_string());
    assert_eq!(
        build_provider_snapshot_identity(&f).unwrap_err().to_string(),
        "changed path `src/../x.rs` must be a canonical relative path without traversal"
    );
    let mut f = facts();
    f.coordination_edges[0].to = "pull/99".to_string();
    assert_eq!(
        build_provider_snapshot_identity(&f).unwrap_err().to_string(),
        "coordination edge references missing work `pull/99`"
    );
    let mut f = facts();
    f.coordination_edges[2].source = "s1".to_string();
    assert_eq!(
        build_provider_snapshot_identity(&f).unwrap_err().to_string(),
        "duplicate coordination evidence for `pull/3` -> `pull/12`"
    );
}

#[test]
fn identity_ignores_path_order_and_head_sha_case() {
    let mut changed = facts();
    changed.work[0].changed_paths.reverse();
    changed.work[0].head_sha = changed.work[0].head_sha.to_lowercase();
    changed.selection.provider_instance = "GITHUB.COM".to_string();
    changed.selection.collection = "OWNER/REPO".to_string();
    assert_eq!(
        build_provider_snapshot_identity(&facts()).unwrap().as_str(),
        build_provider_snapshot_identity(&changed).unwrap().as_str()
    );
}

#[test]
fn identity_ignores_an_edge_repeated_from_another_source() {
    let mut repeated = facts();
    repeated.coordination_edges.push(ProviderCoordination {
        kind: CoordinationKind::Blocks,
        from: "pull/12".to_string(),
        to: "pull/3".to_string(),
        source: "s9".to_string(),
    });
    assert_eq!(
        build_provider_snapshot_identity(&facts()).unwrap().as_str(),
        build_provider_snapshot_identity(&repeated).unwrap().as_str()
    );
}

#[test]
fn identity_survives_combined_changes_and_reparses() {
    let original = build_provider_snapshot_identity(&facts()).unwrap();
    let mut changed = facts();
    changed.work.reverse();
    changed.work[1].changed_paths.reverse();
    changed.work[1].head_sha = changed.work[1].head_sha.to_lowercase();
    changed.selection.states.reverse();
    changed.selection.provider_instance = "github.com".to_string();
    changed.selection.collection = "OWNER/repo".to_string();
    changed.coordination_edges.reverse();
    changed.coordination_edges.push(ProviderCoordination {
        kind: CoordinationKind::Blocks,
        from: "pull/12".to_string(),
        to: "pull/3".to_string(),
        source: "s9".to_string(),
    });
    let identity = build_provider_snapshot_identity(&changed).unwrap();
    assert_eq!(identity.as_str(), original.as_str());
    let reparsed = ProviderSnapshotIdentity::parse(identity.as_str().to_string()).unwrap();
    assert_eq!(reparsed.as_str(), original.as_str());
}
