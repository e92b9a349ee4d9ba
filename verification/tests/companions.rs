use cultist::companions::{
    build_companions, check_history_request, history_cohort, HistoricalCompanion,
};
use cultist::history::{CommitSummary, HistoricalCommit, HistoryOptions};

fn commit(sha: &str, subject: &str, paths: &[&str]) -> HistoricalCommit {
    HistoricalCommit {
        summary: CommitSummary {
            sha: sha.to_string(),
            date: "2026-08-18T12:00:00Z".to_string(),
            subject: subject.to_string(),
        },
        paths: paths.iter().map(|path| path.to_string()).collect(),
        changed_paths: paths.len(),
    }
}

/// The rounded percentage that reports print beside a companion.
fn support_percent(companion: &HistoricalCompanion) -> f64 {
    if companion.opportunities == 0 {
        0.0
    } else {
        (companion.support as f64 / companion.opportunities as f64 * 1000.0).round() / 10.0
    }
}

#[test]
fn counts_companions_and_retains_counterexamples() {
    let commits = vec![
        commit("a", "one", &["src/a.rs", "tests/a.rs", "generated/a.rs"]),
        commit("b", "two", &["src/a.rs", "tests/a.rs"]),
        commit("c", "three", &["src/a.rs", "tests/a.rs", "generated/a.rs"]),
    ];

    let companions = build_companions("src/a.rs", &commits);
    assert_eq!(companions[0].path, "tests/a.rs");
    assert_eq!(companions[0].support, 3);
    assert_eq!(support_percent(&companions[0]), 100.0);
    assert!(companions[0].counterexamples.is_empty());
    assert!(companions[0].generated_marker.is_none());

    assert_eq!(companions[1].path, "generated/a.rs");
    assert_eq!(companions[1].support, 2);
    assert_eq!(support_percent(&companions[1]), 66.7);
    assert_eq!(companions[1].counterexamples.len(), 1);
    assert_eq!(companions[1].counterexamples[0].sha, "b");
    assert!(companions[1].generated_marker.is_none());
}

#[test]
fn sorts_equal_support_by_path() {
    let commits = vec![commit("a", "one", &["src/a.rs", "z.rs", "b.rs"])];
    let companions = build_companions("src/a.rs", &commits);
    assert_eq!(companions[0].path, "b.rs");
    assert_eq!(companions[1].path, "z.rs");
}

#[test]
fn companions_keep_the_first_three_examples_and_counterexamples() {
    let commits = vec![
        commit("1", "one", &["anchor.rs", "x.rs"]),
        commit("2", "two", &["anchor.rs"]),
        commit("3", "three", &["anchor.rs", "x.rs"]),
        commit("4", "four", &["anchor.rs"]),
        commit("5", "five", &["anchor.rs", "x.rs"]),
        commit("6", "six", &["anchor.rs"]),
        commit("7", "seven", &["anchor.rs", "x.rs"]),
        commit("8", "eight", &["anchor.rs"]),
    ];
    let companions = build_companions("anchor.rs", &commits);
    assert_eq!(companions.len(), 1);
    assert_eq!(companions[0].support, 4);
    assert_eq!(companions[0].opportunities, 8);
    let examples: Vec<&str> = companions[0].examples.iter().map(|c| c.sha.as_str()).collect();
    assert_eq!(examples, vec!["1", "3", "5"]);
    let counter: Vec<&str> =
        companions[0].counterexamples.iter().map(|c| c.sha.as_str()).collect();
    assert_eq!(counter, vec!["2", "4", "6"]);
}

#[test]
fn anchor_alone_has_no_companions() {
    let commits = vec![commit("a", "one", &["src/a.rs"]), commit("b", "two", &["src/a.rs"])];
    assert!(build_companions("src/a.rs", &commits).is_empty());
    assert!(build_companions("src/a.rs", &Vec::new()).is_empty());
}

#[test]
fn cohort_drops_reverts_and_broad_commits_before_counting() {
    let commits = vec![
        commit("a", "feat: one", &["src/a.rs", "tests/a.rs"]),
        commit("b", "Revert \"feat: one\"", &["src/a.rs", "tests/a.rs"]),
        commit("c", "mass change", &["src/a.rs", "x.rs", "y.rs"]),
        commit("d", "fix: two", &["src/a.rs"]),
    ];
    let options = HistoryOptions { max_commits: 10, max_paths_per_commit: 2 };
    let cohort = history_cohort("src/a.rs", &commits, options);
    assert_eq!(cohort.discovered_commits, 4);
    assert_eq!(cohort.considered_commits, 2);
    assert_eq!(cohort.excluded_commits.len(), 2);
    assert_eq!(cohort.excluded_commits[0].reason, "revert commit");
    assert_eq!(cohort.excluded_commits[1].reason, "broad commit changed more than 2 paths");
    assert_eq!(cohort.excluded_commits[1].changed_paths, 3);
    assert_eq!(cohort.companions.len(), 1);
    assert_eq!(cohort.companions[0].path, "tests/a.rs");
    assert_eq!(cohort.companions[0].support, 1);
    assert_eq!(cohort.companions[0].opportunities, 2);
    assert_eq!(cohort.companions[0].counterexamples[0].sha, "d");
}

#[test]
fn history_request_refuses_absolute_anchors_and_zero_limits() {
    let ok = HistoryOptions { max_commits: 100, max_paths_per_commit: 100 };
    assert!(check_history_request(false, ok).is_ok());
    assert_eq!(
        check_history_request(true, ok).unwrap_err(),
        "history anchor must be repository-relative"
    );
    assert_eq!(
        check_history_request(false, HistoryOptions { max_commits: 0, max_paths_per_commit: 1 })
            .unwrap_err(),
        "history max commit count must be greater than zero"
    );
    assert_eq!(
        check_history_request(false, HistoryOptions { max_commits: 1, max_paths_per_commit: 0 })
            .unwrap_err(),
        "history broad-commit threshold must be greater than zero"
    );
}
