use cultist::finding::{AnalysisReport, Claim, ClaimKind, Evidence, Finding, Location};
use cultist::render::{
    analysis_title, claim_kind_label, claim_kind_token, format_location, render_analysis_report,
    render_terse_analysis_report, write_analysis_report,
};

fn sample_report(claims: Vec<Claim>, findings: Vec<Finding>) -> AnalysisReport {
    AnalysisReport {
        schema_version: 1,
        analysis: "diff-precedent".to_string(),
        repository: "/r\u{e9}po".to_string(),
        claims,
        findings,
    }
}

#[test]
fn streamed_output_is_byte_identical_to_rendered_string() {
    let fixtures = vec![
        sample_report(Vec::new(), Vec::new()),
        sample_report(
            vec![
                Claim::new(ClaimKind::Derived, "First derived claim."),
                Claim::new(
                    ClaimKind::Unknown,
                    "Multi-line\nmessage with \u{00fc}n\u{ed}code and trailing spaces.  ",
                ),
            ],
            Vec::new(),
        ),
        sample_report(
            Vec::new(),
            vec![
                Finding::new("kind-a", "Finding without claims")
                    .at(Location::new("src/a.rs", Some(7))),
                Finding::new("kind-b", "Finding with evidence")
                    .at(Location::new("src/b.rs", None))
                    .with_claim(
                        Claim::new(ClaimKind::Observed, "Observed tension.").with_evidence(
                            Evidence::at(
                                "Local precedent.",
                                Location::new("src/b.rs", Some(3)),
                            ),
                        ),
                    )
                    .with_claim(Claim::new(ClaimKind::Inferred, "Inferred scope."))
                    .with_question("Which precedent governs?"),
            ],
        ),
    ];

    for report in &fixtures {
        let mut streamed = String::new();
        write_analysis_report(&mut streamed, report);
        assert_eq!(streamed, render_analysis_report(report));
    }
}

#[test]
fn preserves_historical_separators_after_trailing_newlines() {
    let report = sample_report(
        vec![
            Claim::new(ClaimKind::Proven, "First claim already ends a line.\n"),
            Claim::new(ClaimKind::Unknown, "Second claim.")
                .with_evidence(Evidence::new("Evidence already ends a line.\n")),
            Claim::new(ClaimKind::Derived, "Third claim."),
        ],
        Vec::new(),
    );

    let mut streamed = String::new();
    write_analysis_report(&mut streamed, &report);

    assert_eq!(
        streamed,
        "DIFF PRECEDENT\n\nPROVEN\n  First claim already ends a line.\n\nUNKNOWN\n  Second claim.\n  - Evidence already ends a line.\n\nDERIVED\n  Third claim.\n"
    );
}

#[test]
fn renders_provenance_and_evidence() {
    let report = AnalysisReport {
        schema_version: 1,
        analysis: "diff-precedent".to_string(),
        repository: "/repo".to_string(),
        claims: vec![Claim::new(
            ClaimKind::Derived,
            "The diff changes one Rust file.",
        )],
        findings: vec![
            Finding::new("example", "Example tension")
                .at(Location::new("src/lib.rs", Some(42)))
                .with_claim(
                    Claim::new(ClaimKind::Observed, "Two scopes disagree.").with_evidence(
                        Evidence::at(
                            "The file already uses `tests`.",
                            Location::new("src/lib.rs", Some(10)),
                        ),
                    ),
                )
                .with_claim(Claim::new(
                    ClaimKind::Unknown,
                    "The repository does not state which scope wins.",
                ))
                .with_question("Which scope is intentional here?"),
        ],
    };

    let rendered = render_analysis_report(&report);
    assert!(rendered.contains("DIFF PRECEDENT"));
    assert!(rendered.contains("DERIVED"));
    assert!(rendered.contains("OBSERVED"));
    assert!(rendered.contains("UNKNOWN"));
    assert!(rendered.contains("src/lib.rs:42"));
    assert!(rendered.contains("QUESTION"));
}

#[test]
fn terse_renders_clean_report_as_literal_no_findings() {
    let report = AnalysisReport {
        schema_version: 1,
        analysis: "diff-precedent".to_string(),
        repository: "/repo".to_string(),
        claims: vec![Claim::new(ClaimKind::Derived, "One file changed.")],
        findings: Vec::new(),
    };

    assert_eq!(render_terse_analysis_report(&report), "NO_FINDINGS\n");
}

#[test]
fn terse_does_not_turn_claim_only_report_into_ok_disposition() {
    let report = AnalysisReport {
        schema_version: 1,
        analysis: "example".to_string(),
        repository: "/repo".to_string(),
        claims: vec![Claim::new(
            ClaimKind::Inferred,
            "This may be routine, but the canonical report does not approve it.",
        )],
        findings: Vec::new(),
    };

    let rendered = render_terse_analysis_report(&report);
    assert_eq!(rendered, "NO_FINDINGS\n");
    assert!(!rendered.contains("OK"));
}

#[test]
fn terse_keeps_report_level_unknown_visible() {
    let report = AnalysisReport {
        schema_version: 1,
        analysis: "example".to_string(),
        repository: "/repo".to_string(),
        claims: vec![Claim::new(
            ClaimKind::Unknown,
            "Target-native execution has not run.",
        )],
        findings: Vec::new(),
    };

    assert_eq!(
        render_terse_analysis_report(&report),
        "U C1 Target-native execution has not run.\n"
    );
}

#[test]
fn terse_uses_report_local_refs_and_omits_evidence_prose() {
    let report = AnalysisReport {
        schema_version: 1,
        analysis: "diff-precedent".to_string(),
        repository: "/repo".to_string(),
        claims: Vec::new(),
        findings: vec![
            Finding::new("precedent-tension", "Example tension")
                .at(Location::new("src/lib.rs", Some(42)))
                .with_claim(
                    Claim::new(ClaimKind::Observed, "Two scopes disagree.").with_evidence(
                        Evidence::at(
                            "Verbose supporting evidence should stay expandable.",
                            Location::new("src/lib.rs", Some(10)),
                        ),
                    ),
                )
                .with_claim(Claim::new(
                    ClaimKind::Unknown,
                    "The repository does not state which scope wins.",
                ))
                .with_question("Which scope is intentional here?"),
        ],
    };

    let rendered = render_terse_analysis_report(&report);
    assert_eq!(
        rendered,
        "F1 precedent-tension @src/lib.rs:42\n  C1 O Two scopes disagree.\n  C2 ? The repository does not state which scope wins.\n  Q Which scope is intentional here?\n"
    );
    assert!(!rendered.contains("Verbose supporting evidence"));
}

#[test]
fn labels_every_claim_kind() {
    assert_eq!(claim_kind_label(ClaimKind::Proven), "PROVEN");
    assert_eq!(claim_kind_label(ClaimKind::Derived), "DERIVED");
    assert_eq!(claim_kind_label(ClaimKind::Observed), "OBSERVED");
    assert_eq!(claim_kind_label(ClaimKind::Inferred), "INFERRED");
    assert_eq!(claim_kind_label(ClaimKind::Unknown), "UNKNOWN");
}

#[test]
fn tokens_every_claim_kind() {
    assert_eq!(claim_kind_token(ClaimKind::Proven), "P");
    assert_eq!(claim_kind_token(ClaimKind::Derived), "D");
    assert_eq!(claim_kind_token(ClaimKind::Observed), "O");
    assert_eq!(claim_kind_token(ClaimKind::Inferred), "I");
    assert_eq!(claim_kind_token(ClaimKind::Unknown), "?");
}

#[test]
fn title_drops_empty_segments_and_uppercases() {
    assert_eq!(analysis_title("diff-precedent"), "DIFF PRECEDENT");
    assert_eq!(analysis_title("--historical__companions-"), "HISTORICAL COMPANIONS");
    assert_eq!(analysis_title(""), "");
}

#[test]
fn locations_render_with_optional_line() {
    assert_eq!(format_location(&Location::new("src/a.rs", Some(7))), "src/a.rs:7");
    assert_eq!(format_location(&Location::new("src/a.rs", None)), "src/a.rs");
}

#[test]
fn writing_appends_to_existing_output() {
    let report = sample_report(vec![Claim::new(ClaimKind::Derived, "x")], Vec::new());
    let mut out = String::from("prefix\n");
    write_analysis_report(&mut out, &report);
    assert_eq!(out, format!("prefix\n{}", render_analysis_report(&report)));
    assert_eq!(render_analysis_report(&report), "DIFF PRECEDENT\n\nDERIVED\n  x\n");
}
