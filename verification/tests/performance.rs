use cultist::performance::{
    capture, record_baseline_scopes, record_git_subprocess, record_rust_prefiltered,
    record_rust_scan, PerfRecorder,
};

#[test]
fn disabled_counters_are_inert() {
    let mut recorder = PerfRecorder::disabled();
    record_git_subprocess(&mut recorder);
    record_rust_scan(&mut recorder, 3, 4);
    record_rust_prefiltered(&mut recorder, 5);
    assert_eq!(recorder.finish(), None);
}

#[test]
fn capture_counts_work_units() {
    let (_, counters) = capture(|recorder: &mut PerfRecorder| {
        record_git_subprocess(recorder);
        record_git_subprocess(recorder);
        record_rust_scan(recorder, 3, 7);
        record_rust_prefiltered(recorder, 5);
    });
    assert_eq!(counters.git_subprocesses, 2);
    assert_eq!(counters.rust_files_parsed, 3);
    assert_eq!(counters.rust_files_prefiltered, 5);
    assert_eq!(counters.rust_cache_hits, 7);
}

#[test]
fn baseline_scopes_accumulate_and_finish_disables() {
    let mut recorder = PerfRecorder::begin();
    record_baseline_scopes(&mut recorder, 2, 1);
    record_baseline_scopes(&mut recorder, 1, 4);
    let counters = recorder.finish().unwrap();
    assert_eq!(counters.baseline_scope_hits, 3);
    assert_eq!(counters.baseline_scope_computed, 5);
    assert_eq!(counters.git_subprocesses, 0);
    assert_eq!(recorder.finish(), None);
}
