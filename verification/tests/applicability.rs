use cultist::applicability::{
    evaluate_exact_coordinate, evaluate_query, ApplicabilityDimension, ApplicabilityQuery,
    ApplicabilityStatus, DimensionStatus, EvaluationContext, EvidenceRequirements, PathScope,
    PathScopeMode, APPLICABILITY_SCHEMA_VERSION,
};

fn query(requirements: EvidenceRequirements, context: EvaluationContext) -> ApplicabilityQuery {
    ApplicabilityQuery {
        schema_version: APPLICABILITY_SCHEMA_VERSION,
        requirements,
        context,
    }
}

#[test]
fn exact_provider_coordinate_applies() {
    let evaluation = evaluate_query(&query(
        EvidenceRequirements {
            repository: Some("teamleaderleo/preflight".to_string()),
            revision: Some("a2e14c4265e3568d8f943906a53e3b0e16dca141".to_string()),
            work: Some("#748".to_string()),
            scope: None,
        },
        EvaluationContext {
            repository: Some("teamleaderleo/preflight".to_string()),
            revision: Some("a2e14c4265e3568d8f943906a53e3b0e16dca141".to_string()),
            work: Some("#748".to_string()),
            path: None,
        },
    ))
    .unwrap();

    assert_eq!(evaluation.status, ApplicabilityStatus::Applies);
    assert!(
        evaluation
            .dimensions
            .iter()
            .all(|dimension| dimension.status == DimensionStatus::Matched)
    );
}

#[test]
fn moved_provider_head_invalidates_exact_head_evidence() {
    let evaluation = evaluate_query(&query(
        EvidenceRequirements {
            revision: Some("old-head".to_string()),
            work: Some("#748".to_string()),
            ..EvidenceRequirements::default()
        },
        EvaluationContext {
            revision: Some("new-head".to_string()),
            work: Some("#748".to_string()),
            ..EvaluationContext::default()
        },
    ))
    .unwrap();

    assert_eq!(evaluation.status, ApplicabilityStatus::Invalid);
    assert_eq!(
        evaluation.dimensions[0].dimension,
        ApplicabilityDimension::Revision
    );
    assert_eq!(evaluation.dimensions[0].status, DimensionStatus::Mismatched);
}

#[test]
fn missing_required_head_remains_unknown() {
    let evaluation = evaluate_query(&query(
        EvidenceRequirements {
            revision: Some("exact-head".to_string()),
            work: Some("#748".to_string()),
            ..EvidenceRequirements::default()
        },
        EvaluationContext {
            work: Some("#748".to_string()),
            ..EvaluationContext::default()
        },
    ))
    .unwrap();

    assert_eq!(evaluation.status, ApplicabilityStatus::Unknown);
    assert_eq!(evaluation.dimensions[0].status, DimensionStatus::Missing);
    assert_eq!(evaluation.dimensions[1].status, DimensionStatus::Matched);
}

#[test]
fn known_mismatch_takes_precedence_over_missing_dimension() {
    let evaluation = evaluate_query(&query(
        EvidenceRequirements {
            repository: Some("owner/repo".to_string()),
            revision: Some("head-a".to_string()),
            ..EvidenceRequirements::default()
        },
        EvaluationContext {
            repository: Some("other/repo".to_string()),
            ..EvaluationContext::default()
        },
    ))
    .unwrap();

    assert_eq!(evaluation.status, ApplicabilityStatus::Invalid);
    assert_eq!(evaluation.dimensions[0].status, DimensionStatus::Mismatched);
    assert_eq!(evaluation.dimensions[1].status, DimensionStatus::Missing);
}

#[test]
fn exact_and_prefix_scope_have_distinct_semantics() {
    let exact = PathScope {
        mode: PathScopeMode::Exact,
        path: "src/history.rs".to_string(),
    };
    let prefix = PathScope {
        mode: PathScopeMode::Prefix,
        path: "src/history.rs".to_string(),
    };

    let exact_child = evaluate_query(&query(
        EvidenceRequirements {
            scope: Some(exact),
            ..EvidenceRequirements::default()
        },
        EvaluationContext {
            path: Some("src/history.rs/tests.rs".to_string()),
            ..EvaluationContext::default()
        },
    ))
    .unwrap();
    let prefix_child = evaluate_query(&query(
        EvidenceRequirements {
            scope: Some(prefix),
            ..EvidenceRequirements::default()
        },
        EvaluationContext {
            path: Some("src/history.rs/tests.rs".to_string()),
            ..EvaluationContext::default()
        },
    ))
    .unwrap();

    assert_eq!(exact_child.status, ApplicabilityStatus::Invalid);
    assert_eq!(prefix_child.status, ApplicabilityStatus::Applies);
}

#[test]
fn decision_scope_refuses_unrelated_target() {
    let evaluation = evaluate_query(&query(
        EvidenceRequirements {
            scope: Some(PathScope {
                mode: PathScopeMode::Exact,
                path: "src/history.rs".to_string(),
            }),
            ..EvidenceRequirements::default()
        },
        EvaluationContext {
            path: Some("src/main.rs".to_string()),
            ..EvaluationContext::default()
        },
    ))
    .unwrap();

    assert_eq!(evaluation.status, ApplicabilityStatus::Invalid);
}

#[test]
fn missing_delta_base_coordinate_is_unknown() {
    let evaluation = evaluate_query(&query(
        EvidenceRequirements {
            revision: Some("envelope:E41".to_string()),
            ..EvidenceRequirements::default()
        },
        EvaluationContext::default(),
    ))
    .unwrap();

    assert_eq!(evaluation.status, ApplicabilityStatus::Unknown);
}

#[test]
fn dimensions_are_evaluated_in_stable_order() {
    let evaluation = evaluate_query(&query(
        EvidenceRequirements {
            repository: Some("owner/repo".to_string()),
            revision: Some("head".to_string()),
            work: Some("#1".to_string()),
            scope: Some(PathScope {
                mode: PathScopeMode::Exact,
                path: "src/lib.rs".to_string(),
            }),
        },
        EvaluationContext::default(),
    ))
    .unwrap();

    assert_eq!(
        evaluation
            .dimensions
            .iter()
            .map(|dimension| dimension.dimension)
            .collect::<Vec<_>>(),
        vec![
            ApplicabilityDimension::Repository,
            ApplicabilityDimension::Revision,
            ApplicabilityDimension::Work,
            ApplicabilityDimension::Scope,
        ]
    );
}

#[test]
fn rejects_noncanonical_paths() {
    for path in [
        "/src/lib.rs",
        "src/../lib.rs",
        "src\\lib.rs",
        "src//lib.rs",
        "./src/lib.rs",
    ] {
        let error = evaluate_query(&query(
            EvidenceRequirements {
                scope: Some(PathScope {
                    mode: PathScopeMode::Exact,
                    path: path.to_string(),
                }),
                ..EvidenceRequirements::default()
            },
            EvaluationContext::default(),
        ))
        .unwrap_err();
        assert!(
            error
                .to_string()
                .contains("canonical repository-relative path")
        );
    }
}

#[test]
fn rejects_empty_requirements_instead_of_treating_them_as_global() {
    let error = evaluate_query(&query(
        EvidenceRequirements::default(),
        EvaluationContext::default(),
    ))
    .unwrap_err();
    assert!(
        error
            .to_string()
            .contains("at least one explicit applicability requirement")
    );
}

#[test]
fn exact_coordinate_statuses() {
    assert_eq!(evaluate_exact_coordinate("a", Some("a")), ApplicabilityStatus::Applies);
    assert_eq!(evaluate_exact_coordinate("a", Some("b")), ApplicabilityStatus::Invalid);
    assert_eq!(evaluate_exact_coordinate("a", None), ApplicabilityStatus::Unknown);
}

#[test]
fn unsupported_schema_message_names_both_versions() {
    let mut unsupported = query(
        EvidenceRequirements { work: Some("#1".to_string()), ..EvidenceRequirements::default() },
        EvaluationContext::default(),
    );
    unsupported.schema_version = 27;
    let error = evaluate_query(&unsupported).unwrap_err();
    assert_eq!(error.to_string(), "unsupported applicability schema 27; expected 1");
}

#[test]
fn noncanonical_coordinates_are_refused() {
    let error = evaluate_query(&query(
        EvidenceRequirements { work: Some(" #1".to_string()), ..EvidenceRequirements::default() },
        EvaluationContext::default(),
    ))
    .unwrap_err();
    assert_eq!(error.to_string(), "requirements.work must be a non-empty canonical coordinate");
    let error = evaluate_query(&query(
        EvidenceRequirements { work: Some("#1".to_string()), ..EvidenceRequirements::default() },
        EvaluationContext { work: Some("x".repeat(1025)), ..EvaluationContext::default() },
    ))
    .unwrap_err();
    assert_eq!(error.to_string(), "context.work exceeds the admitted coordinate boundary");
}

#[test]
fn scope_requirement_display_names_mode() {
    let evaluation = evaluate_query(&query(
        EvidenceRequirements {
            scope: Some(PathScope { mode: PathScopeMode::Prefix, path: "src".to_string() }),
            ..EvidenceRequirements::default()
        },
        EvaluationContext { path: Some("src/lib.rs".to_string()), ..EvaluationContext::default() },
    ))
    .unwrap();
    assert_eq!(evaluation.dimensions[0].required, "prefix:src");
    assert_eq!(evaluation.dimensions[0].actual.as_deref(), Some("src/lib.rs"));
    assert_eq!(evaluation.status, ApplicabilityStatus::Applies);
    assert_eq!(evaluation.schema_version, APPLICABILITY_SCHEMA_VERSION);
}
