use executor::engine::ProcessOutcome;
use executor::orchestrator::finish_run;
use executor::tracker::Snapshot;

#[test]
fn quiet_successful_run_reports_clean_result() {
    // A script that only prints: stdout captured, exit code zero, and the
    // workspace fingerprints identical on both sides, so no file changes.
    let mut before = Snapshot::new();
    before.record("notes.txt".to_string(), "h1".to_string());
    let mut after = Snapshot::new();
    after.record("notes.txt".to_string(), "h1".to_string());
    let r = finish_run(
        ProcessOutcome::Exited(0),
        "4\n".to_string(),
        "".to_string(),
        &before,
        &after,
    );
    assert_eq!(r.stdout, "4\n");
    assert_eq!(r.stderr, "");
    assert_eq!(r.exit_code, 0);
    assert!(r.files.is_empty());
}

#[test]
fn timed_out_run_reports_synthetic_result() {
    // A script that overruns its timeout: whatever was buffered is dropped
    // and the synthetic timeout result is reported.
    let before = Snapshot::new();
    let after = Snapshot::new();
    let r = finish_run(
        ProcessOutcome::TimedOut,
        "buffered before the kill".to_string(),
        "half a traceback".to_string(),
        &before,
        &after,
    );
    assert_eq!(r.stdout, "");
    assert_eq!(r.stderr, "Execution timed out");
    assert_eq!(r.exit_code, -1);
    assert!(r.files.is_empty());
}

#[test]
fn run_side_effects_appear_in_change_list() {
    let mut before = Snapshot::new();
    before.record("kept.txt".to_string(), "k".to_string());
    let mut after = Snapshot::new();
    after.record("kept.txt".to_string(), "k".to_string());
    after.record("made.txt".to_string(), "m".to_string());
    let r = finish_run(
        ProcessOutcome::Exited(0),
        "".to_string(),
        "".to_string(),
        &before,
        &after,
    );
    assert_eq!(r.files.len(), 1);
    assert_eq!(r.files[0].path, "made.txt");
    assert_eq!(r.files[0].prior, None);
    assert_eq!(r.files[0].updated, Some("m".to_string()));
}
