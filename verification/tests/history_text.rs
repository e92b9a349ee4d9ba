use cultist::companions::{history_cohort, HistoricalCompanion, HistoryCohort};
use cultist::history::{
    CommitSummary, ExcludedCommit, GeneratedMarkerEvidence, HistoricalCommit, HistoryOptions,
};
use cultist::history_text::{history_limitations, render_history_text};

fn summary(sha: &str, subject: &str) -> CommitSummary {
    CommitSummary { sha: sha.to_string(), date: "2026-08-18".to_string(), subject: subject.to_string() }
}

fn commit(sha: &str, subject: &str, paths: &[&str]) -> HistoricalCommit {
    HistoricalCommit {
        summary: summary(sha, subject),
        paths: paths.iter().map(|path| path.to_string()).collect(),
        changed_paths: paths.len(),
    }
}

fn limitations_text() -> String {
    let mut text = String::from("\nLIMITATIONS\n");
    for limitation in history_limitations() {
        text.push_str(&format!("  - {limitation}\n"));
    }
    text
}

#[test]
fn empty_cohort_reports_that_no_history_remained() {
    let cohort = HistoryCohort {
        discovered_commits: 1,
        considered_commits: 0,
        excluded_commits: vec![ExcludedCommit {
            commit: summary("0123456789ab", "Revert \"x\""),
            reason: "revert commit".to_string(),
            changed_paths: 2,
        }],
        companions: Vec::new(),
    };
    let text = render_history_text("src/a.rs", &cohort, 100, &Vec::new());
    let expected = format!(
        "HISTORICAL COMPANIONS\n  anchor: src/a.rs\n  cohort: 0 considered commit(s) from 1 discovered non-merge commit(s)\n  broad-commit threshold: 100 changed paths\n\nOBSERVATION\n  No history remained after the current cohort filters.\n\nEXCLUDED COMMITS\n  01234567  2 path(s)  revert commit  Revert \"x\"\n{}",
        limitations_text()
    );
    assert_eq!(text, expected);
}

#[test]
fn companions_are_listed_with_share_marker_examples_and_counterexamples() {
    let commits = vec![
        commit("aaaaaaaaaa", "one", &["src/a.rs", "tests/a.rs", "gen/a.rs"]),
        commit("bbbbbbbbbb", "two", &["src/a.rs", "tests/a.rs"]),
        commit("cccccccccc", "three", &["src/a.rs", "tests/a.rs", "gen/a.rs"]),
    ];
    let mut cohort =
        history_cohort("src/a.rs", &commits, HistoryOptions { max_commits: 100, max_paths_per_commit: 100 });
    cohort.companions[1].generated_marker = Some(GeneratedMarkerEvidence {
        path: "gen/a.rs".to_string(),
        line: 1,
        marker: "// @generated".to_string(),
    });
    let text = render_history_text("src/a.rs", &cohort, 100, &vec![1000, 667]);
    let tests_line = format!("  {:<56} {:>3}/{:<3} {:>5.1}%\n", "tests/a.rs", 3, 3, 100.0);
    let gen_line = format!("  {:<56} {:>3}/{:<3} {:>5.1}%\n", "gen/a.rs", 2, 3, 66.7);
    assert!(text.contains(&tests_line));
    assert!(text.contains(&gen_line));
    assert!(text.contains("    generated marker gen/a.rs:1  // @generated\n"));
    assert!(text.contains("    example aaaaaaaa  2026-08-18  one\n"));
    assert!(text.contains("\nCOUNTEREXAMPLE SAMPLE\n  gen/a.rs\n    absent bbbbbbbb  2026-08-18  two\n"));
    assert!(text.contains("\nQUESTION\n"));
    assert!(text.ends_with(&limitations_text()));
    assert!(!text.contains("EXCLUDED COMMITS"));
}

#[test]
fn only_the_first_ten_excluded_commits_are_listed() {
    let excluded: Vec<ExcludedCommit> = (0..12)
        .map(|index| ExcludedCommit {
            commit: summary(&format!("sha{index}"), "mass"),
            reason: "broad commit changed more than 100 paths".to_string(),
            changed_paths: 101,
        })
        .collect();
    let cohort = HistoryCohort {
        discovered_commits: 13,
        considered_commits: 1,
        excluded_commits: excluded,
        companions: Vec::new(),
    };
    let text = render_history_text("a.rs", &cohort, 100, &Vec::new());
    assert!(text.contains("The considered commits contain no recurring companion paths."));
    assert!(text.contains("  sha9  101 path(s)  broad commit changed more than 100 paths  mass\n"));
    assert!(!text.contains("  sha10  "));
    assert!(text.contains("  ... 2 more excluded commit(s)\n"));
}

#[test]
fn long_paths_are_not_truncated() {
    let long = "x".repeat(60);
    let companion = HistoricalCompanion {
        path: long.clone(),
        support: 1000,
        opportunities: 1000,
        examples: Vec::new(),
        counterexamples: Vec::new(),
        generated_marker: None,
    };
    let cohort = HistoryCohort {
        discovered_commits: 1000,
        considered_commits: 1000,
        excluded_commits: Vec::new(),
        companions: vec![companion],
    };
    let text = render_history_text("a.rs", &cohort, 100, &vec![1000]);
    assert!(text.contains(&format!("  {long} 1000/1000 100.0%\n")));
}
