use cultist::coordination_edges::{
    check_snapshot_size, extract_from_snapshot, ExtractionReport, WorkMetadata,
    WorkMetadataSnapshot, MAX_SNAPSHOT_BYTES,
};

fn sha(byte: char) -> String {
    std::iter::repeat(byte).take(40).collect()
}

fn work(id: &str, body: &str) -> WorkMetadata {
    WorkMetadata {
        id: id.to_string(),
        kind: "pull_request".to_string(),
        source: format!("github:pull/{}", &id[1..]),
        head_sha: sha('a'),
        updated_at: "2026-08-19T00:00:00Z".to_string(),
        body: body.to_string(),
    }
}

fn snapshot(work: Vec<WorkMetadata>) -> WorkMetadataSnapshot {
    WorkMetadataSnapshot {
        schema_version: 1,
        source: "test".to_string(),
        work,
    }
}

fn extract(work: Vec<WorkMetadata>) -> ExtractionReport {
    extract_from_snapshot(&snapshot(work)).unwrap()
}

#[test]
fn extracts_only_reviewed_top_level_hold_clause() {
    let report = extract(vec![
        work(
            "#748",
            "Refs #703.\nDo not merge while #703 is using current-main package evidence; keep the baseline still.\n",
        ),
        work("#703", ""),
    ]);
    assert_eq!(report.coordination_edges.len(), 1);
    assert_eq!(report.coordination_edges[0].from, "#748");
    assert_eq!(report.coordination_edges[0].to, "#703");
    assert_eq!(report.coordination_edges[0].source, "github:pull/748");
    assert_eq!(report.source_receipts[0].source_head_sha, sha('a'));
}

#[test]
fn ordinary_reference_language_stays_quiet() {
    let report = extract(vec![
        work(
            "#748",
            "Refs #703\nRelated: #703\nParent: #703\nsee #703\nafter discussing #703\nthis may conflict with #703\nCompeting replacement experiment for #703\n",
        ),
        work("#703", ""),
    ]);
    assert!(report.coordination_edges.is_empty());
}

#[test]
fn quoted_fenced_indented_and_list_examples_stay_quiet() {
    let report = extract(vec![
        work(
            "#748",
            "> Do not merge while #703 is active\n```text\nDo not merge while #703 is active\n```\n   ~~~text\nDo not merge while #703 is active\n   ~~~\n    Do not merge while #703 is active\n- Do not merge while #703 is active\n",
        ),
        work("#703", ""),
    ]);
    assert!(report.coordination_edges.is_empty());
}

#[test]
fn self_and_unresolved_endpoints_are_not_promoted() {
    let report = extract(vec![work(
        "#748",
        "Do not merge while #748 is active\nDo not merge while #999 is active\n",
    )]);
    assert!(report.coordination_edges.is_empty());
    assert_eq!(report.stats.self_references_ignored, 1);
    assert_eq!(report.stats.unresolved_endpoints_ignored, 1);
    assert_eq!(report.unresolved_endpoint_receipts.len(), 1);
    let unresolved = &report.unresolved_endpoint_receipts[0];
    assert_eq!(unresolved.from, "#748");
    assert_eq!(unresolved.to, "#999");
    assert_eq!(unresolved.source, "github:pull/748");
    assert_eq!(unresolved.source_head_sha, sha('a'));
    assert_eq!(unresolved.source_updated_at, "2026-08-19T00:00:00Z");
    assert_eq!(unresolved.matched_clause, "Do not merge while #999 is active");
}

#[test]
fn duplicate_exact_edges_collapse() {
    let report = extract(vec![
        work(
            "#748",
            "Do not merge while #703 is active\nDo not merge while #703 is active\n",
        ),
        work("#703", ""),
    ]);
    assert_eq!(report.coordination_edges.len(), 1);
    assert_eq!(report.stats.duplicate_edges_ignored, 1);
}

#[test]
fn source_receipt_keeps_applicability_coordinate_without_strengthening_claim() {
    let report = extract(vec![
        work("#748", "Do not merge while #703 is active\n"),
        work("#703", ""),
    ]);
    assert_eq!(
        report.source_receipts[0].source_updated_at,
        "2026-08-19T00:00:00Z"
    );
    assert!(report.unknowns[0].contains("continued applicability"));
}

#[test]
fn rejects_duplicate_work_ids_and_noncanonical_sources() {
    let duplicate = snapshot(vec![work("#748", ""), work("#748", "")]);
    assert_eq!(
        extract_from_snapshot(&duplicate).unwrap_err().to_string(),
        "duplicate work id `#748`"
    );

    let mut wrong = work("#748", "");
    wrong.source = "github:pull/999".to_string();
    assert_eq!(
        extract_from_snapshot(&snapshot(vec![wrong])).unwrap_err().to_string(),
        "work source `github:pull/999` does not match canonical source `github:pull/748` for #748"
    );
}

#[test]
fn rejects_oversized_snapshot_before_parsing() {
    let input = "x".repeat(MAX_SNAPSHOT_BYTES + 1);
    assert_eq!(
        check_snapshot_size(&input).unwrap_err().to_string(),
        format!("coordination metadata snapshot is {} bytes; maximum is 1048576", MAX_SNAPSHOT_BYTES + 1)
    );
    assert!(check_snapshot_size("{}").is_ok());
}

#[test]
fn edges_come_out_sorted_and_keep_the_latest_receipt() {
    let report = extract(vec![
        work(
            "#9",
            "Do not merge while #10 is first\nDo not merge while #2 is second\nDo not merge while #10 is again\n",
        ),
        work("#10", ""),
        work("#2", ""),
    ]);
    let targets: Vec<&str> = report.coordination_edges.iter().map(|e| e.to.as_str()).collect();
    assert_eq!(targets, vec!["#10", "#2"]);
    assert_eq!(report.source_receipts[0].matched_clause, "Do not merge while #10 is again");
    assert_eq!(report.stats.operative_clauses_matched, 3);
    assert_eq!(report.stats.duplicate_edges_ignored, 1);
    assert_eq!(report.stats.work_items_examined, 3);
}

#[test]
fn fences_close_only_with_a_wide_enough_marker() {
    let report = extract(vec![
        work(
            "#5",
            "````\n```\nDo not merge while #6 is hidden\n````\nDo not merge while #6 is visible\r\n",
        ),
        work("#6", ""),
    ]);
    assert_eq!(report.source_receipts.len(), 1);
    assert_eq!(report.source_receipts[0].matched_clause, "Do not merge while #6 is visible");
}

#[test]
fn hold_clause_needs_canonical_number_and_text() {
    let report = extract(vec![
        work(
            "#5",
            "Do not merge while #06 is x\nDo not merge while #6\nDo not merge while #6   \nDo not merge while #6x y\n",
        ),
        work("#6", ""),
    ]);
    assert_eq!(report.stats.operative_clauses_matched, 0);
}

#[test]
fn validation_errors_are_specific() {
    let mut bad = snapshot(vec![work("#1", "")]);
    bad.schema_version = 2;
    assert_eq!(
        extract_from_snapshot(&bad).unwrap_err().to_string(),
        "unsupported coordination metadata schema 2; expected 1"
    );
    let mut sha_bad = work("#1", "");
    sha_bad.head_sha = "xyz".to_string();
    assert_eq!(
        extract_from_snapshot(&snapshot(vec![sha_bad])).unwrap_err().to_string(),
        "#1 head_sha must be exactly 40 hexadecimal characters"
    );
    assert_eq!(
        extract_from_snapshot(&snapshot(vec![work("#01", "")])).unwrap_err().to_string(),
        "invalid work id `#01`; expected canonical positive decimal form"
    );
    let long = format!("{}\n", "y".repeat(32769));
    assert_eq!(
        extract_from_snapshot(&snapshot(vec![work("#1", &long)])).unwrap_err().to_string(),
        "#1 body contains a line larger than 32768 bytes"
    );
}
