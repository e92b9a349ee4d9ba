use cultist::history::{
    classify_commits, generated_marker_from_header, is_revert_subject, stream_history_log,
    CommitSummary, HistoricalCommit, DEFAULT_MAX_PATHS_PER_COMMIT, GENERATED_HEADER_LINES,
};

fn parse_log(output: &str, max_paths_per_commit: usize) -> Option<Vec<HistoricalCommit>> {
    stream_history_log(output.as_bytes(), max_paths_per_commit).unwrap()
}

fn paths(values: &[&str]) -> Vec<String> {
    values.iter().map(|value| value.to_string()).collect()
}

#[test]
fn parses_batched_git_log_records() {
    let output = "\x1eabcdef\x1f2026-08-18T12:00:00Z\x1ffeat: example\n\nsrc/a.rs\ntests/a.rs\n\x1e123456\x1f2026-08-17T12:00:00Z\x1ffix: another\n\nsrc/a.rs\n";
    let parsed = parse_log(output, DEFAULT_MAX_PATHS_PER_COMMIT).unwrap();
    assert_eq!(parsed.len(), 2);
    assert_eq!(parsed[0].summary.sha, "abcdef");
    assert_eq!(parsed[0].summary.subject, "feat: example");
    assert_eq!(parsed[0].paths, paths(&["src/a.rs", "tests/a.rs"]));
    assert_eq!(parsed[0].changed_paths, 2);
    assert_eq!(parsed[1].summary.sha, "123456");
    assert_eq!(parsed[1].paths, paths(&["src/a.rs"]));
    assert_eq!(parsed[1].changed_paths, 1);
}

#[test]
fn broad_commit_counts_every_path_without_retaining_them() {
    let mut output = String::from("\x1ebroad000\x1f2026-08-18T12:00:00Z\x1fmass change\n\n");
    for index in 0..12 {
        output.push_str(&format!("src/generated_{index}.rs\n"));
    }
    output.push_str("\x1enarrow00\x1f2026-08-17T12:00:00Z\x1fsmall change\n\nsrc/a.rs\n");

    let parsed = parse_log(&output, 4).unwrap();
    assert_eq!(parsed.len(), 2);
    assert!(parsed[0].paths.is_empty());
    assert_eq!(parsed[0].changed_paths, 12);
    assert_eq!(parsed[0].summary.sha, "broad000");
    assert_eq!(parsed[0].summary.subject, "mass change");
    assert_eq!(parsed[1].paths, paths(&["src/a.rs"]));
    assert_eq!(parsed[1].changed_paths, 1);
}

#[test]
fn commits_at_the_threshold_stay_fully_retained() {
    let at_threshold = "\x1ea\x1fd\x1fs\np1\np2\np3\np4\n";
    let parsed = parse_log(at_threshold, 4).unwrap();
    assert_eq!(parsed[0].changed_paths, 4);
    assert_eq!(parsed[0].paths, paths(&["p1", "p2", "p3", "p4"]));

    let over_threshold = "\x1eb\x1fd\x1ft\nq1\nq2\nq3\nq4\nq5\n";
    let parsed = parse_log(over_threshold, 4).unwrap();
    assert!(parsed[0].paths.is_empty());
    assert_eq!(parsed[0].changed_paths, 5);
}

#[test]
fn duplicate_paths_before_crossing_dedupe_exactly() {
    let output = "\x1ea\x1fd\x1fs\nb.rs\na.rs\na.rs\nb.rs\nc.rs\n";
    let parsed = parse_log(output, DEFAULT_MAX_PATHS_PER_COMMIT).unwrap();
    assert_eq!(parsed[0].paths, paths(&["a.rs", "b.rs", "c.rs"]));
    assert_eq!(parsed[0].changed_paths, 3);
}

#[test]
fn blank_lines_and_prelude_whitespace_are_ignored() {
    let output = "\n\n\x1ea\x1fd\x1fs\n\nsrc/a.rs\n\n\n\x1eb\x1fd\x1ft\n\n\n";
    let parsed = parse_log(output, DEFAULT_MAX_PATHS_PER_COMMIT).unwrap();
    assert_eq!(parsed.len(), 2);
    assert_eq!(parsed[0].paths, paths(&["src/a.rs"]));
    assert!(parsed[1].paths.is_empty());
    assert_eq!(parsed[1].changed_paths, 0);
}

#[test]
fn malformed_history_records_fail_without_panicking() {
    assert!(parse_log("garbage before any record\n", 4).is_none());
    assert!(parse_log("\x1esha-only\x1fdate-only\nsrc/a.rs\n", 4).is_none());
    assert!(parse_log("\x1esha\x1f", 4).is_none());
    assert!(parse_log("\x1ea\x1fd\x1fs\np\n\x1eb\x1fd", 4).is_none());
}

#[test]
fn complete_final_record_without_trailing_newline_parses() {
    let parsed = parse_log("\x1ea\x1fd\x1fsubject", 4).unwrap();
    assert_eq!(parsed.len(), 1);
    assert_eq!(parsed[0].summary.sha, "a");
    assert_eq!(parsed[0].summary.subject, "subject");
    assert!(parsed[0].paths.is_empty());
    assert_eq!(parsed[0].changed_paths, 0);
}

#[test]
fn recognizes_generated_marker_in_header() {
    let evidence = generated_marker_from_header(
        "generated/registry.rs",
        "// @generated by cargo xtask\n\npub enum Rule {}\n",
    )
    .unwrap();

    assert_eq!(evidence.path, "generated/registry.rs");
    assert_eq!(evidence.line, 1);
    assert_eq!(evidence.marker, "// @generated by cargo xtask");
}

#[test]
fn keeps_generic_generated_words_outside_marker_vocabulary() {
    assert!(generated_marker_from_header(
        "src/parser.rs",
        "// Parse generated values from the wire.\n"
    )
    .is_none());
    assert!(generated_marker_from_header(
        "src/report.rs",
        "// This value is generated by the parser at runtime.\n"
    )
    .is_none());
}

#[test]
fn generated_marker_scan_is_line_bounded() {
    let mut header = (0..GENERATED_HEADER_LINES)
        .map(|_| "// ordinary header line")
        .collect::<Vec<_>>()
        .join("\n");
    header.push_str("\n// @generated too late\n");

    assert!(generated_marker_from_header("late.rs", &header).is_none());
}

#[test]
fn recognizes_revert_subjects() {
    assert!(is_revert_subject("Revert \"feat: thing\""));
    assert!(is_revert_subject("revert: temporary change"));
    assert!(!is_revert_subject("feat: ordinary change"));
}

#[test]
fn invalid_utf8_lines_are_refused() {
    let error = stream_history_log(&[0x1e, b'a', 0x1f, b'd', 0x1f, 0xff, b'\n'], 4).unwrap_err();
    assert_eq!(error.to_string(), "streamed line is not valid UTF-8");
}

#[test]
fn paths_order_by_components() {
    let parsed = parse_log("\x1ea\x1fd\x1fs\na.b\na/b\n", 4).unwrap();
    assert_eq!(parsed[0].paths, paths(&["a/b", "a.b"]));
}

fn commit(sha: &str, subject: &str, changed: &[&str], changed_paths: usize) -> HistoricalCommit {
    HistoricalCommit {
        summary: CommitSummary {
            sha: sha.to_string(),
            date: "2026-08-18T12:00:00Z".to_string(),
            subject: subject.to_string(),
        },
        paths: paths(changed),
        changed_paths,
    }
}

#[test]
fn cohort_excludes_reverts_and_broad_commits() {
    let commits = vec![
        commit("1", "feat: one", &["a.rs"], 1),
        commit("2", "  Revert \"feat: one\"", &["a.rs"], 1),
        commit("3", "mass rename", &[], 150),
        commit("4", "fix: two", &["a.rs", "b.rs"], 2),
    ];
    let (considered, excluded) = classify_commits(&commits, 100);
    assert_eq!(considered.len(), 2);
    assert_eq!(considered[0].summary.sha, "1");
    assert_eq!(considered[1].summary.sha, "4");
    assert_eq!(excluded.len(), 2);
    assert_eq!(excluded[0].reason, "revert commit");
    assert_eq!(excluded[1].reason, "broad commit changed more than 100 paths");
    assert_eq!(excluded[1].changed_paths, 150);
}
