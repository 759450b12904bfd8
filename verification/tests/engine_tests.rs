use executor::engine::{
    collect_result, effective_timeout_secs, exit_code_of, ProcessOutcome, ABNORMAL_EXIT_CODE,
    DEFAULT_TIMEOUT_SECS,
};

#[test]
fn timeout_result_is_exact() {
    // Output buffered before the kill is discarded in full.
    let r = collect_result(
        ProcessOutcome::TimedOut,
        "partial stdout".to_string(),
        "partial stderr".to_string(),
        Vec::new(),
    );
    assert_eq!(r.stdout, "");
    assert_eq!(r.stderr, "Execution timed out");
    assert_eq!(r.exit_code, -1);
    assert!(r.files.is_empty());
}

#[test]
fn normal_exit_passes_streams_through() {
    let r = collect_result(
        ProcessOutcome::Exited(0),
        "4\n".to_string(),
        "".to_string(),
        Vec::new(),
    );
    assert_eq!(r.stdout, "4\n");
    assert_eq!(r.stderr, "");
    assert_eq!(r.exit_code, 0);
    assert!(r.files.is_empty());
}

#[test]
fn nonzero_status_is_reported_as_is() {
    let r = collect_result(
        ProcessOutcome::Exited(3),
        "".to_string(),
        "boom".to_string(),
        Vec::new(),
    );
    assert_eq!(r.exit_code, 3);
    assert_eq!(r.stderr, "boom");
}

#[test]
fn signal_termination_reports_sentinel() {
    let r = collect_result(
        ProcessOutcome::Signaled,
        "some out".to_string(),
        "killed".to_string(),
        Vec::new(),
    );
    assert_eq!(r.exit_code, ABNORMAL_EXIT_CODE);
    assert_eq!(r.stdout, "some out");
    assert_eq!(r.stderr, "killed");
}

#[test]
fn exit_code_of_each_outcome() {
    assert_eq!(exit_code_of(ProcessOutcome::Exited(7)), 7);
    assert_eq!(exit_code_of(ProcessOutcome::Exited(-9)), -9);
    assert_eq!(exit_code_of(ProcessOutcome::Signaled), -1);
    assert_eq!(exit_code_of(ProcessOutcome::TimedOut), -1);
}

#[test]
fn default_timeout_is_sixty_seconds() {
    assert_eq!(DEFAULT_TIMEOUT_SECS, 60);
    assert_eq!(effective_timeout_secs(None), 60);
    assert_eq!(effective_timeout_secs(Some(1)), 1);
    assert_eq!(effective_timeout_secs(Some(3600)), 3600);
}
