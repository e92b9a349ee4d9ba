use cultist::finding::ClaimKind;
use cultist::generated_diff::{
    build_finding, build_syntax_cohort, classify_source_change, classify_source_commit,
    companion_candidate, companion_history_finding,
    considered_source_records, requires_companion, source_history_summary,
    stream_source_history_log, ClassifiedSourceCommit, GeneratorRelation, SourceChangeClass,
    SourceHistoryRecord, SyntaxCohort, MAX_PATHS_PER_COMMIT,
};
use cultist::git_stream::{StreamErrorKind, MAX_LOG_LINE_BYTES};
use cultist::history::{strong_generated_marker, GeneratedMarkerEvidence};

fn parse(output: &str, max_paths_per_commit: usize) -> Option<Vec<SourceHistoryRecord>> {
    stream_source_history_log(output.as_bytes(), max_paths_per_commit).unwrap()
}

#[test]
fn generated_marker_requires_strong_phrase() {
    assert!(strong_generated_marker(
        "// Auto-generated code, DO NOT EDIT DIRECTLY!"
    ));
    assert!(strong_generated_marker("// @generated"));
    assert!(!strong_generated_marker("// generated by parser at runtime"));
}

#[test]
fn semantic_cohort_requires_all_comparable_commits() {
    let cohort = SyntaxCohort {
        support: 9,
        opportunities: 10,
        ..SyntaxCohort::default()
    };
    assert_ne!(cohort.support, cohort.opportunities);
    assert!(!requires_companion(&cohort));
}

#[test]
fn parses_batched_source_history_records() {
    let output = "\x1eabc\x1fparent\x1ffeat: one\n\nsrc/input.rs\ngenerated/output.rs\n\x1edef\x1fabc\x1fdocs: two\n\nsrc/input.rs\n";
    let records = parse(output, MAX_PATHS_PER_COMMIT).unwrap();
    assert_eq!(records.len(), 2);
    assert_eq!(records[0].sha, "abc");
    assert_eq!(records[0].parent.as_deref(), Some("parent"));
    assert!(records[0]
        .paths
        .contains(&"generated/output.rs".to_string()));
    assert_eq!(records[0].changed_paths, 2);
    assert_eq!(records[1].subject, "docs: two");
    assert_eq!(records[1].changed_paths, 1);
}

#[test]
fn broad_source_commits_count_without_retaining_paths() {
    let mut output = String::from("\x1ebroad\x1fparent\x1fmass change\n\n");
    for index in 0..9 {
        output.push_str(&format!("src/generated_{index}.rs\n"));
    }
    output.push_str("\x1enarrow\x1fbroad\x1fsmall change\n\nsrc/input.rs\n");

    let records = parse(&output, 4).unwrap();
    assert_eq!(records.len(), 2);
    assert!(records[0].paths.is_empty());
    assert_eq!(records[0].changed_paths, 9);
    assert_eq!(records[1].changed_paths, 1);
    assert_eq!(records[1].paths.len(), 1);
}

#[test]
fn duplicate_overflow_lines_are_counted_not_retained() {
    let output = "\x1ea\x1fp\x1fs\nb.rs\na.rs\na.rs\nc.rs\nd.rs\n";
    let records = parse(output, 2).unwrap();
    assert!(records[0].paths.is_empty());
    assert_eq!(records[0].changed_paths, 4);
}

#[test]
fn malformed_source_history_fails_without_panicking() {
    for bad in [
        "garbage before any record\n",
        "\x1esha-only\x1fparent-only\n",
        "\x1esha\x1f",
        "\x1ea\x1fp\x1fs\np\n\x1eb\x1fp",
    ] {
        let parsed = parse(bad, MAX_PATHS_PER_COMMIT);
        assert!(parsed.is_none(), "{bad:?} must fail closed");
    }
}

#[test]
fn oversized_source_history_lines_fail_closed() {
    let long_path = format!("{}\n", "p".repeat(MAX_LOG_LINE_BYTES + 1));
    let input = format!("\x1ea\x1fp\x1fs\n{long_path}").into_bytes();
    let error = stream_source_history_log(&input, MAX_PATHS_PER_COMMIT).unwrap_err();
    assert_eq!(error.kind(), StreamErrorKind::InvalidData);
}

#[test]
fn source_summary_keeps_first_parent_and_trims() {
    let (sha, parent, subject) =
        source_history_summary(" abc \x1fp1 p2\x1f  subject \x1f tail\r\n").unwrap();
    assert_eq!(sha, "abc");
    assert_eq!(parent.as_deref(), Some("p1"));
    assert_eq!(subject, "subject \x1f tail");
    let (_, root_parent, _) = source_history_summary("abc\x1f \x1froot commit").unwrap();
    assert_eq!(root_parent, None);
    assert!(source_history_summary("abc\x1fonly").is_none());
}

#[test]
fn non_utf8_source_history_is_refused() {
    let input = b"\x1ea\x1fp\x1fs\n\xff\xfe\n";
    let error = stream_source_history_log(input, MAX_PATHS_PER_COMMIT).unwrap_err();
    assert_eq!(error.kind(), StreamErrorKind::InvalidData);
}

fn classified(sha: &str, paths: &[&str], class: SourceChangeClass) -> ClassifiedSourceCommit {
    ClassifiedSourceCommit {
        sha: sha.to_string(),
        subject: format!("subject {sha}"),
        paths: paths.iter().map(|p| p.to_string()).collect(),
        class,
    }
}

#[test]
fn cohort_counts_support_opportunities_and_exclusions() {
    let history = vec![
        classified("a", &["in.rs", "out.rs"], SourceChangeClass::SyntaxChanged),
        classified("b", &["in.rs"], SourceChangeClass::CommentsOrDocsOnly),
        classified("c", &["in.rs", "out.rs"], SourceChangeClass::SyntaxChanged),
        classified("d", &["in.rs"], SourceChangeClass::Unclassified),
        classified("e", &["in.rs", "out.rs"], SourceChangeClass::SyntaxChanged),
        classified("f", &["in.rs", "out.rs"], SourceChangeClass::SyntaxChanged),
        classified("g", &["in.rs"], SourceChangeClass::SyntaxChanged),
    ];
    let cohort = build_syntax_cohort(&history, "out.rs");
    assert_eq!(cohort.support, 4);
    assert_eq!(cohort.opportunities, 5);
    assert_eq!(cohort.comments_or_docs_only, 1);
    assert_eq!(cohort.unclassified, 1);
    let shas: Vec<&str> = cohort.examples.iter().map(|e| e.sha.as_str()).collect();
    assert_eq!(shas, vec!["a", "c", "e"]);
    assert!(!requires_companion(&cohort));

    let unanimous = build_syntax_cohort(&history[..6].to_vec(), "out.rs");
    assert_eq!(unanimous.support, 4);
    assert_eq!(unanimous.opportunities, 4);
    assert!(requires_companion(&unanimous));

    let small = build_syntax_cohort(&history[..3].to_vec(), "out.rs");
    assert_eq!(small.opportunities, 2);
    assert!(!requires_companion(&small));
}

#[test]
fn change_class_compares_fingerprints() {
    let a = Some("fn a ( ) { }".to_string());
    let b = Some("fn b ( ) { }".to_string());
    assert_eq!(classify_source_change(&a, &a.clone()), SourceChangeClass::CommentsOrDocsOnly);
    assert_eq!(classify_source_change(&a, &b), SourceChangeClass::SyntaxChanged);
    assert_eq!(classify_source_change(&None, &b), SourceChangeClass::Unclassified);
    assert_eq!(classify_source_change(&a, &None), SourceChangeClass::Unclassified);

    let record = SourceHistoryRecord {
        sha: "abc".to_string(),
        parent: Some("def".to_string()),
        subject: "edit".to_string(),
        paths: vec!["in.rs".to_string()],
        changed_paths: 1,
    };
    let commit = classify_source_commit(&record, &a, &b);
    assert_eq!(commit.sha, "abc");
    assert_eq!(commit.paths, vec!["in.rs".to_string()]);
    assert_eq!(commit.class, SourceChangeClass::SyntaxChanged);
}

#[test]
fn reverts_and_broad_source_commits_are_not_considered() {
    let record = |sha: &str, subject: &str, changed_paths: usize| SourceHistoryRecord {
        sha: sha.to_string(),
        parent: None,
        subject: subject.to_string(),
        paths: Vec::new(),
        changed_paths,
    };
    let records = vec![
        record("a", "feat: one", 3),
        record("b", "  Revert \"feat: one\"", 3),
        record("c", "mass rename", MAX_PATHS_PER_COMMIT + 1),
        record("d", "fix: two", MAX_PATHS_PER_COMMIT),
    ];
    let considered = considered_source_records(&records);
    let shas: Vec<&str> = considered.iter().map(|r| r.sha.as_str()).collect();
    assert_eq!(shas, vec!["a", "d"]);
}

#[test]
fn companion_finding_states_relation_marker_and_cohort() {
    let relation = GeneratorRelation {
        alias: "gen".to_string(),
        package: "xtask".to_string(),
        function: "generate".to_string(),
        generator_path: "xtask/src/main.rs".to_string(),
        input: "src/input.rs".to_string(),
        output: "src/output.rs".to_string(),
    };
    let marker = GeneratedMarkerEvidence {
        path: "src/output.rs".to_string(),
        line: 1,
        marker: "// @generated".to_string(),
    };
    let history = vec![
        classified("0123456789abcdef", &["src/input.rs", "src/output.rs"], SourceChangeClass::SyntaxChanged),
        classified("short", &["src/input.rs", "src/output.rs"], SourceChangeClass::SyntaxChanged),
        classified("c", &["src/input.rs"], SourceChangeClass::CommentsOrDocsOnly),
        classified("d", &["src/input.rs", "src/output.rs"], SourceChangeClass::SyntaxChanged),
    ];
    let cohort = build_syntax_cohort(&history, "src/output.rs");
    assert!(requires_companion(&cohort));
    let finding = build_finding(&relation, &marker, &cohort, "100.0");
    assert_eq!(finding.kind, "generated-companion-missing");
    assert_eq!(finding.location.as_ref().unwrap().path, "src/input.rs");
    assert_eq!(finding.claims.len(), 5);
    assert_eq!(
        finding.claims[1].message,
        "Cargo alias `cargo gen` invokes generator package `xtask`, and `generate` reads `src/input.rs` and writes `src/output.rs`."
    );
    assert_eq!(finding.claims[2].evidence[0].message, "// @generated");
    assert_eq!(finding.claims[2].evidence[0].location.as_ref().unwrap().line, Some(1));
    let historical = &finding.claims[3];
    assert_eq!(historical.kind, ClaimKind::Observed);
    assert_eq!(
        historical.message,
        "`src/output.rs` changed in 3/3 comparable Rust syntax-changing commits for `src/input.rs` (100.0%)."
    );
    assert_eq!(historical.evidence[0].message, "Example 01234567: subject 0123456789abcdef");
    assert_eq!(historical.evidence[1].message, "Example short: subject short");
    assert_eq!(
        historical.evidence[3].message,
        "1 comment/doc/whitespace-only source commit(s) were excluded from the syntax cohort."
    );
    assert_eq!(historical.evidence.len(), 4);
    assert_eq!(finding.claims[4].kind, ClaimKind::Unknown);
    assert_eq!(
        finding.question.as_deref(),
        Some("Was `cargo gen` intentionally deferred for this source change, or is `src/output.rs` stale?")
    );
}

fn relation(input: &str, output: &str) -> GeneratorRelation {
    GeneratorRelation {
        alias: "gen".to_string(),
        package: "xtask".to_string(),
        function: "generate".to_string(),
        generator_path: "xtask/src/main.rs".to_string(),
        input: input.to_string(),
        output: output.to_string(),
    }
}

#[test]
fn companion_candidate_needs_changed_rust_input_and_unchanged_output() {
    let changed = vec!["src/input.rs".to_string(), "README.md".to_string()];
    assert!(companion_candidate(&relation("src/input.rs", "src/output.rs"), &changed));
    assert!(companion_candidate(&relation("./src/input.rs", "src/output.rs"), &vec!["./src/input.rs".to_string()]));
    assert!(companion_candidate(&relation("src//input.rs", "src/output.rs"), &changed));
    assert!(!companion_candidate(&relation("src/other.rs", "src/output.rs"), &changed));
    assert!(!companion_candidate(&relation("README.md", "src/output.rs"), &changed));
    let both = vec!["src/input.rs".to_string(), "src/output.rs".to_string()];
    assert!(!companion_candidate(&relation("src/input.rs", "src/output.rs"), &both));
}

#[test]
fn companion_history_finding_needs_a_full_cohort() {
    let marker = GeneratedMarkerEvidence {
        path: "src/output.rs".to_string(),
        line: 2,
        marker: "// @generated".to_string(),
    };
    let r = relation("src/input.rs", "src/output.rs");
    let full = vec![
        classified("a", &["src/input.rs", "src/output.rs"], SourceChangeClass::SyntaxChanged),
        classified("b", &["src/input.rs", "src/output.rs"], SourceChangeClass::SyntaxChanged),
        classified("c", &["src/input.rs", "src/output.rs"], SourceChangeClass::SyntaxChanged),
    ];
    let finding = companion_history_finding(&r, &marker, &full).unwrap();
    assert_eq!(finding.kind, "generated-companion-missing");
    assert_eq!(
        finding.claims[3].message,
        "`src/output.rs` changed in 3/3 comparable Rust syntax-changing commits for `src/input.rs` (100.0%)."
    );
    let short = vec![full[0].clone(), full[1].clone()];
    assert!(companion_history_finding(&r, &marker, &short).is_none());
    let mut partial = full.clone();
    partial.push(classified("d", &["src/input.rs"], SourceChangeClass::SyntaxChanged));
    assert!(companion_history_finding(&r, &marker, &partial).is_none());
}
