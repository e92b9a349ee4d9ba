use cultist::changed_lines::{ChangedLines, LineRange, PathRanges};
use cultist::diff::{changed_test_modules, precedent_finding, relative_path, strip_root};
use cultist::diff::add_diff_findings;
use cultist::diff_parse::{parse_changed_lines, parse_changed_lines_bounded};
use cultist::finding::{AnalysisReport, ClaimKind};
use cultist::git_stream::StreamErrorKind;
use cultist::precedent::{
    module_name_counts_excluding, precedent_tension, TestModuleOccurrence, TestModuleReport,
};

fn counts_from(pairs: &[(&str, usize)]) -> cultist::precedent::NameCounts {
    // Built through the counting function: one occurrence per count, plus
    // an excluded target that names nothing else.
    let mut occurrences = Vec::new();
    for (name, count) in pairs {
        for index in 0..*count {
            occurrences.push(TestModuleOccurrence {
                name: name.to_string(),
                path: format!("/repo/src/{name}_{index}.rs"),
                line: 1,
            });
        }
    }
    let target = TestModuleOccurrence {
        name: "excluded_target".to_string(),
        path: "/repo/src/target.rs".to_string(),
        line: 1,
    };
    occurrences.push(target.clone());
    let report = TestModuleReport { occurrences, parse_failures: Vec::new() };
    module_name_counts_excluding(&report, &target)
}

#[test]
fn detects_scope_tension_only_with_clear_precedent() {
    let counts = counts_from(&[("tests", 33), ("unit_tests", 88)]);
    let local_names = vec!["tests".to_string()];
    assert_eq!(
        precedent_tension(&counts, &local_names),
        Some(("unit_tests".to_string(), "tests".to_string()))
    );

    let mixed_local = vec!["special_tests".to_string(), "tests".to_string()];
    assert_eq!(precedent_tension(&counts, &mixed_local), None);

    let tied_counts = counts_from(&[("tests", 10), ("unit_tests", 10)]);
    assert_eq!(precedent_tension(&tied_counts, &local_names), None);
}

#[test]
fn excludes_changed_occurrence_from_precedent_counts() {
    let changed = TestModuleOccurrence {
        name: "unit_tests".to_string(),
        path: "/repo/src/lib.rs".to_string(),
        line: 40,
    };
    let report = TestModuleReport {
        occurrences: vec![
            TestModuleOccurrence {
                name: "tests".to_string(),
                path: "/repo/src/lib.rs".to_string(),
                line: 20,
            },
            changed.clone(),
        ],
        parse_failures: Vec::new(),
    };

    let counts = module_name_counts_excluding(&report, &changed);
    assert_eq!(counts.get("tests"), Some(1));
    assert_eq!(counts.get("unit_tests"), None);
}

#[test]
fn parses_added_lines_from_zero_context_diff() {
    let patch = r#"diff --git src/a.rs src/a.rs
--- src/a.rs
+++ src/a.rs
@@ -10,0 +11,2 @@
+#[cfg(test)]
+mod special_tests {}
@@ -30 +32 @@
-old
+new
"#;

    let changed = parse_changed_lines(patch.as_bytes()).unwrap();
    assert!(changed.contains("src/a.rs", 11));
    assert!(changed.contains("src/a.rs", 12));
    assert!(changed.contains("src/a.rs", 32));
    assert!(!changed.contains("src/a.rs", 31));
    assert_eq!(changed.range_count("src/a.rs"), 2);
}

#[test]
fn compacts_contiguous_added_lines_into_one_range() {
    let patch = r#"diff --git src/a.rs src/a.rs
--- src/a.rs
+++ src/a.rs
@@ -10,0 +11,4 @@
+one
+two
+three
+four
"#;

    let changed = parse_changed_lines(patch.as_bytes()).unwrap();
    assert_eq!(changed.range_count("src/a.rs"), 1);
    assert!(changed.contains("src/a.rs", 11));
    assert!(changed.contains("src/a.rs", 14));
    assert!(!changed.contains("src/a.rs", 15));
}

#[test]
fn selects_test_modules_whose_declaration_line_was_added() {
    let report = TestModuleReport {
        occurrences: vec![
            TestModuleOccurrence {
                name: "tests".to_string(),
                path: "/repo/src/lib.rs".to_string(),
                line: 20,
            },
            TestModuleOccurrence {
                name: "special_tests".to_string(),
                path: "/repo/src/lib.rs".to_string(),
                line: 40,
            },
        ],
        parse_failures: Vec::new(),
    };
    let mut changed = ChangedLines::new();
    changed.insert("src/lib.rs", 40);

    let selected = changed_test_modules("/repo", &report, &changed);
    assert_eq!(selected.len(), 1);
    assert_eq!(selected[0].name, "special_tests");
}

fn parse_bytes(bytes: &[u8]) -> ChangedLines {
    parse_changed_lines(bytes).unwrap()
}

/// Reassembles a stream one byte per read, as a trickling reader delivers it.
fn trickle(bytes: &[u8]) -> Vec<u8> {
    let mut out = Vec::new();
    for chunk in bytes.chunks(1) {
        out.extend_from_slice(chunk);
    }
    out
}

#[test]
fn fragmented_reads_parse_identically_to_whole_buffers() {
    let patch = b"diff --git src/a.rs src/a.rs\n\
                  --- src/a.rs\n\
                  +++ src/a.rs\r\n\
                  @@ -10,0 +11,2 @@\r\n\
                  +one\n\
                  +two\n\
                  @@ -30 +32 @@\n\
                  -old\n\
                  \\ No newline at end of file\n\
                  +new";
    let whole = parse_bytes(patch);
    let fragmented = parse_changed_lines(&trickle(patch)).unwrap();
    assert_eq!(whole, fragmented);
    assert!(whole.contains("src/a.rs", 11));
    assert!(whole.contains("src/a.rs", 12));
    assert!(whole.contains("src/a.rs", 32));
    assert!(!whole.contains("src/a.rs", 13));
}

#[test]
fn binary_file_markers_between_files_do_not_corrupt_ranges() {
    let patch = "diff --git src/a.rs src/a.rs\n--- src/a.rs\n+++ src/a.rs\n@@ -1,0 +2,1 @@\n+added\ndiff --git data.bin data.bin\nindex 111..222 100644\nBinary files data.bin and data.bin differ\ndiff --git src/b.rs src/b.rs\n--- src/b.rs\n+++ src/b.rs\n@@ -5,0 +6,2 @@\n+first\n+second\n";
    let changed = parse_bytes(patch.as_bytes());
    assert!(changed.contains("src/a.rs", 2));
    assert!(changed.contains("src/b.rs", 7));
    assert_eq!(changed.range_count("src/a.rs"), 1);
    assert_eq!(changed.range_count("src/b.rs"), 1);
    assert!(!changed.has_path("data.bin"));
}

#[test]
fn counted_hunks_stop_consuming_at_the_header_count() {
    let patch = "diff --git src/a.rs src/a.rs\n--- src/a.rs\n+++ src/a.rs\n@@ -1,0 +2,3 @@\n+first\n+++ looks like a header\n+third\n";
    let changed = parse_bytes(patch.as_bytes());
    assert_eq!(changed.range_count("src/a.rs"), 1);
    assert!(changed.contains("src/a.rs", 3));
    assert!(changed.contains("src/a.rs", 4));
    assert!(!changed.contains("looks like a header", 1));
}

#[test]
fn quoted_target_paths_decode_c_escapes() {
    let patch = "diff --git src/we\tird.rs src/we\tird.rs\n--- src/we\tird.rs\n+@@ header-shaped content\n+++ \"src/we\\tird.rs\"\n@@ -0,0 +1,1 @@\n+inside\n";
    let changed = parse_bytes(patch.as_bytes());
    assert!(changed.contains("src/we\tird.rs", 1));
}

#[test]
fn malformed_hunk_headers_fail_closed_instead_of_skipping() {
    for bad in [
        &b"+++ src/a.rs\n@@ garbage @@\n+x\n"[..],
        b"+++ src/a.rs\n@@ -1,0 +99999999999999999999,2 @@\n+x\n",
        b"+++ src/a.rs\n@@ -1,0 +18446744073709551616 @@\n+x\n",
    ] {
        let error = parse_changed_lines(bad).unwrap_err();
        assert_eq!(error.kind(), StreamErrorKind::InvalidData, "{}", error.to_string());
    }
}

#[test]
fn malformed_hunk_body_lines_fail_closed() {
    let patch = b"+++ src/a.rs\n@@ -1,0 +1,2 @@\n+ok\nunexpected body\n";
    let error = parse_changed_lines(patch).unwrap_err();
    assert_eq!(error.kind(), StreamErrorKind::InvalidData);
}

#[test]
fn oversized_lines_fail_closed_with_a_bounded_buffer() {
    let long_line = vec![b'a'; 128];
    let mut patch = b"+++ src/a.rs\n@@ -1,0 +1,2 @@\n".to_vec();
    patch.extend_from_slice(&long_line);

    let error = parse_changed_lines_bounded(&patch, 32).unwrap_err();
    assert_eq!(error.kind(), StreamErrorKind::InvalidData);
}

#[test]
fn saturating_hunk_starts_never_overflow() {
    let max = usize::MAX;
    let patch = format!("+++ src/a.rs\n@@ -1,0 +{max},2 @@\n+a\n+b\n");
    let changed = parse_bytes(patch.as_bytes());
    assert!(changed.contains("src/a.rs", max));
    assert!(changed.range_count("src/a.rs") <= 2);
}

#[test]
fn million_line_contiguous_addition_is_one_range_entry() {
    let started = std::time::Instant::now();
    const LINES: usize = 1_000_000;
    let mut patch = String::with_capacity(LINES * 8 + 64);
    patch.push_str("+++ src/generated.rs\n@@ -0,0 +1,");
    patch.push_str(&LINES.to_string());
    patch.push_str(" @@\n");
    for _ in 0..LINES {
        patch.push_str("+generated line\n");
    }

    let changed = parse_bytes(patch.as_bytes());
    let elapsed = started.elapsed();

    assert_eq!(changed.total_range_entries(), 1);
    assert_eq!(changed.range_count("src/generated.rs"), 1);
    assert!(changed.contains("src/generated.rs", 1));
    assert!(changed.contains("src/generated.rs", LINES));
    assert!(!changed.contains("src/generated.rs", LINES + 1));

    println!(
        "million-line contiguous addition: {} range entries in {elapsed:?}",
        changed.total_range_entries()
    );
    assert!(elapsed.as_secs() < 60);
}

#[test]
fn sparse_additions_keep_disjoint_ranges_and_boundary_membership() {
    const HUNKS: usize = 50_000;
    let mut patch = String::from("+++ src/sparse.rs\n");
    for hunk in 0..HUNKS {
        let start = hunk * 4 + 1;
        patch.push_str(&format!("@@ -{start},0 +{start},1 @@\n+sparse\n"));
    }
    let changed = parse_bytes(patch.as_bytes());

    assert_eq!(changed.range_count("src/sparse.rs"), HUNKS);
    assert_eq!(changed.total_range_entries(), HUNKS);
    for probe in [0_usize, 1, 2_000, 199_999, 200_000] {
        let expected = probe > 0 && (probe - 1) % 4 == 0 && probe <= HUNKS * 4;
        assert_eq!(changed.contains("src/sparse.rs", probe), expected, "probe {probe}");
    }
}

#[test]
fn overlapping_and_adjacent_ranges_merge_into_canonical_form() {
    let mut changed = ChangedLines::new();
    for line in [10_usize, 11, 12, 14, 15] {
        changed.insert("src/a.rs", line);
    }
    assert_eq!(changed.range_count("src/a.rs"), 2);
    assert!(changed.contains("src/a.rs", 12));
    assert!(!changed.contains("src/a.rs", 13));
    assert!(changed.contains("src/a.rs", 15));

    let later_file = ChangedLines {
        by_path: vec![PathRanges {
            path: "src/b.rs".to_string(),
            ranges: vec![
                LineRange { start: 5, end: 6 },
                LineRange { start: 9, end: 9 },
                LineRange { start: 100, end: 100 },
                LineRange { start: 4096, end: 8192 },
            ],
        }],
    };
    for line in [5_usize, 6, 8, 9, 100, 4095, 5000, 8192, 8193] {
        assert_eq!(
            later_file.contains("src/b.rs", line),
            [5, 6, 9, 100, 5000, 8192].contains(&line),
            "probe {line}"
        );
    }
}

#[test]
fn out_of_order_inserts_merge_to_the_same_ranges() {
    let mut forward = ChangedLines::new();
    let mut backward = ChangedLines::new();
    for line in [1_usize, 2, 3, 7, 8] {
        forward.insert("x.rs", line);
    }
    for line in [8_usize, 3, 7, 1, 2] {
        backward.insert("x.rs", line);
    }
    assert_eq!(forward, backward);
    assert_eq!(forward.range_count("x.rs"), 2);
    backward.insert("x.rs", 5);
    backward.insert("x.rs", 4);
    backward.insert("x.rs", 6);
    assert_eq!(backward.range_count("x.rs"), 1);
}

#[test]
fn strips_repository_root_from_paths() {
    assert_eq!(strip_root("/repo", "/repo/src/lib.rs"), Some("src/lib.rs".to_string()));
    assert_eq!(strip_root("/repo/", "/repo/src/lib.rs"), Some("src/lib.rs".to_string()));
    assert_eq!(strip_root("/repo", "/repo"), Some(String::new()));
    assert_eq!(strip_root("/repo", "/repository/src/lib.rs"), None);
    assert_eq!(relative_path("/repo", "/other/lib.rs"), "/other/lib.rs");
}

fn two_file_report() -> TestModuleReport {
    TestModuleReport {
        occurrences: vec![
            TestModuleOccurrence {
                name: "tests".to_string(),
                path: "/repo/src/a.rs".to_string(),
                line: 3,
            },
            TestModuleOccurrence {
                name: "tests".to_string(),
                path: "/repo/src/b.rs".to_string(),
                line: 5,
            },
            TestModuleOccurrence {
                name: "special_tests".to_string(),
                path: "/repo/src/a.rs".to_string(),
                line: 40,
            },
        ],
        parse_failures: Vec::new(),
    }
}

#[test]
fn departing_name_gets_a_precedent_finding() {
    let report = two_file_report();
    let finding = precedent_finding("/repo", &report, &report.occurrences[2]).unwrap();
    assert_eq!(finding.kind, "test-module-precedent");
    let location = finding.location.clone().unwrap();
    assert_eq!(location.path, "src/a.rs");
    assert_eq!(location.line, Some(40));
    assert_eq!(
        finding.claims[0].message,
        "`special_tests` appears 0 time(s) across 2 existing test-gated modules, excluding the changed declaration."
    );
    assert_eq!(finding.claims.last().unwrap().kind, ClaimKind::Unknown);
    assert_eq!(
        finding.question.as_deref(),
        Some("Is the distinct module name intentional, or should it follow nearby precedent?")
    );
}

#[test]
fn matching_name_gets_no_finding_and_clean_claim() {
    let report = TestModuleReport {
        occurrences: vec![
            TestModuleOccurrence { name: "tests".to_string(), path: "/repo/src/a.rs".to_string(), line: 3 },
            TestModuleOccurrence { name: "tests".to_string(), path: "/repo/src/b.rs".to_string(), line: 5 },
        ],
        parse_failures: Vec::new(),
    };
    assert!(precedent_finding("/repo", &report, &report.occurrences[1]).is_none());
    let mut changed = ChangedLines::new();
    changed.insert("src/b.rs", 5);
    let mut analysis = AnalysisReport::new("diff-precedent", "/repo");
    add_diff_findings("/repo", &report, &changed, &mut analysis);
    assert!(analysis.findings.is_empty());
    assert_eq!(analysis.claims.len(), 1);
    assert_eq!(
        analysis.claims[0].message,
        "The changed test-module names match existing repository precedent."
    );
}

#[test]
fn add_diff_findings_reports_only_added_declarations() {
    let report = two_file_report();
    let mut changed = ChangedLines::new();
    changed.insert("src/a.rs", 40);
    let mut analysis = AnalysisReport::new("diff-precedent", "/repo");
    add_diff_findings("/repo", &report, &changed, &mut analysis);
    assert_eq!(analysis.findings.len(), 1);
    assert!(analysis.claims.is_empty());
    assert!(analysis.findings[0]
        .claims
        .iter()
        .any(|claim| claim.message == "The same file already uses: `tests`."));
}

#[test]
fn add_diff_findings_reports_each_departing_added_declaration() {
    let report = TestModuleReport {
        occurrences: vec![
            TestModuleOccurrence { name: "tests".to_string(), path: "/repo/src/lib.rs".to_string(), line: 20 },
            TestModuleOccurrence {
                name: "unit_tests".to_string(),
                path: "/repo/src/lib.rs".to_string(),
                line: 40,
            },
        ],
        parse_failures: Vec::new(),
    };
    let changed = ChangedLines {
        by_path: vec![PathRanges {
            path: "src/lib.rs".to_string(),
            ranges: vec![LineRange { start: 40, end: 40 }],
        }],
    };
    let mut analysis = AnalysisReport::new("diff-precedent", "/repo");
    let claims_before = analysis.claims.clone();
    add_diff_findings("/repo", &report, &changed, &mut analysis);
    assert_eq!(analysis.claims, claims_before);
    assert_eq!(analysis.findings.len(), 1);
    let f = &analysis.findings[0];
    assert_eq!(f.kind, "test-module-precedent");
    assert_eq!(f.location, Some(cultist::finding::Location::new("src/lib.rs", Some(40))));
    assert_eq!(f.claims.len(), 4);
    assert_eq!(
        f.claims[0].message,
        "`unit_tests` appears 0 time(s) across 1 existing test-gated modules, excluding the changed declaration."
    );
    assert_eq!(f.claims[1].message, "The same file already uses: `tests`.");
    assert_eq!(f.claims[3].kind, ClaimKind::Unknown);
}

#[test]
fn insert_adds_at_most_one_range_per_ascending_line() {
    let mut changed = ChangedLines::new();
    changed.insert("src/a.rs", 3);
    assert_eq!(changed.range_count("src/a.rs"), 1);
    changed.insert("src/a.rs", 3);
    changed.insert("src/a.rs", 4);
    assert_eq!(changed.range_count("src/a.rs"), 1);
    changed.insert("src/a.rs", 6);
    assert_eq!(changed.range_count("src/a.rs"), 2);
    changed.insert("src/a.rs", 7);
    assert_eq!(changed.range_count("src/a.rs"), 2);
    changed.insert("src/b.rs", 1);
    assert_eq!(changed.range_count("src/a.rs"), 2);
    assert_eq!(changed.range_count("src/b.rs"), 1);
    assert!(changed.contains("src/a.rs", 4));
    assert!(!changed.contains("src/a.rs", 5));
    assert!(changed.contains("src/a.rs", 7));
}
