//! Turning what was observed of the child process into the reported
//! execution result.
//!
//! The runner races the child process against a timer. Whichever way the
//! race ends, the observation is a [`ProcessOutcome`], and
//! [`collect_result`] says exactly what the caller is told for each of the
//! three outcomes.

use vstd::prelude::*;
use crate::tracker::FileChange;

verus! {

/// Seconds waited for the child process when the request names no timeout.
pub const DEFAULT_TIMEOUT_SECS: u64 = 60;

/// Exit code reported when the process did not exit normally: it was
/// signal-terminated, or it was killed because the timeout fired.
pub const ABNORMAL_EXIT_CODE: i32 = -1;

/// How one run of the child process ended.
#[derive(Debug, Clone, Copy, PartialEq, Eq, Structural)]
pub enum ProcessOutcome {
    /// The process exited on its own with this status code.
    Exited(i32),
    /// The process was terminated by a signal and carries no status code.
    Signaled,
    /// The timeout fired before the process exited and it was killed.
    TimedOut,
}

/// What one execution request reports back: the captured output streams,
/// the exit code, and the list of workspace files the run changed.
#[derive(Debug, Clone, PartialEq, Eq)]
pub struct ExecutionResult {
    /// Captured standard output, empty on timeout.
    pub stdout: String,
    /// Captured standard error, or the timeout message.
    pub stderr: String,
    /// The process status code, or [`ABNORMAL_EXIT_CODE`].
    pub exit_code: i32,
    /// The workspace files created, modified, or deleted by the run.
    pub files: Vec<FileChange>,
}

/// The synthetic standard-error text reported when the timeout fires.
pub open spec fn timeout_message() -> Seq<char> {
    "Execution timed out"@
}

/// The exit code reported for an outcome: the process's own status code
/// after a normal exit, and the abnormal sentinel otherwise.
pub open spec fn spec_exit_code(outcome: ProcessOutcome) -> int {
    match outcome {
        ProcessOutcome::Exited(code) => code as int,
        ProcessOutcome::Signaled => ABNORMAL_EXIT_CODE as int,
        ProcessOutcome::TimedOut => ABNORMAL_EXIT_CODE as int,
    }
}

/// The timeout that bounds the run: the seconds the request asked for, or
/// the default when it asked for none.
pub open spec fn spec_effective_timeout(requested: Option<u64>) -> u64 {
    match requested {
        Option::Some(secs) => secs,
        Option::None => DEFAULT_TIMEOUT_SECS,
    }
}

/// Executable counterpart of [`spec_effective_timeout`].
pub fn effective_timeout_secs(requested: Option<u64>) -> (secs: u64)
    ensures
        secs == spec_effective_timeout(requested),
{
    match requested {
        Option::Some(secs) => secs,
        Option::None => DEFAULT_TIMEOUT_SECS,
    }
}

/// Executable counterpart of [`spec_exit_code`].
pub fn exit_code_of(outcome: ProcessOutcome) -> (code: i32)
    ensures
        code as int == spec_exit_code(outcome),
{
    match outcome {
        ProcessOutcome::Exited(code) => code,
        ProcessOutcome::Signaled => ABNORMAL_EXIT_CODE,
        ProcessOutcome::TimedOut => ABNORMAL_EXIT_CODE,
    }
}

/// Build the result reported for one run.
///
/// After a timeout the buffered output is discarded: stdout is reported
/// empty and stderr is exactly the timeout message, whatever was captured
/// before the kill. Otherwise both captured streams are passed through
/// unchanged. The exit code is the process's real status code after a
/// normal exit and the abnormal sentinel for a signal or a timeout; the
/// change list is reported as given in every case.
pub fn collect_result(
    outcome: ProcessOutcome,
    stdout: String,
    stderr: String,
    files: Vec<FileChange>,
) -> (r: ExecutionResult)
    ensures
        r.exit_code as int == spec_exit_code(outcome),
        r.files == files,
        outcome is TimedOut ==> r.stdout@ == Seq::<char>::empty() && r.stderr@ == timeout_message(),
        !(outcome is TimedOut) ==> r.stdout == stdout && r.stderr == stderr,
{
    match outcome {
        ProcessOutcome::TimedOut => ExecutionResult {
            stdout: String::new(),
            stderr: "Execution timed out".to_owned(),
            exit_code: ABNORMAL_EXIT_CODE,
            files,
        },
        _ => ExecutionResult { stdout, stderr, exit_code: exit_code_of(outcome), files },
    }
}

} // verus!
