//! Composing one request/response cycle.
//!
//! The surrounding layer drives the cycle — snapshot the workspace, write
//! the script to a scratch directory, run the guesser, install what
//! [`crate::resolver::plan_install`] decided, run the interpreter under the
//! timeout, snapshot again — and every decision along the way is a function
//! of this crate. [`finish_run`] is the cycle's last step: it assembles the
//! reported result from the observed process outcome and the two snapshots.

use vstd::prelude::*;
use crate::engine::{collect_result, spec_exit_code, timeout_message, ExecutionResult, ProcessOutcome};
use crate::tracker::{diff, diff_correct, Snapshot};

verus! {

/// Assemble the response for one run: the captured output and exit code as
/// [`collect_result`] reports them, and the change list as the fingerprint
/// diff of the two snapshots reports it.
pub fn finish_run(
    outcome: ProcessOutcome,
    stdout: String,
    stderr: String,
    before: &Snapshot,
    after: &Snapshot,
) -> (r: ExecutionResult)
    requires
        before.inv(),
        after.inv(),
    ensures
        r.exit_code as int == spec_exit_code(outcome),
        outcome is TimedOut ==> r.stdout@ == Seq::<char>::empty() && r.stderr@
            == timeout_message(),
        !(outcome is TimedOut) ==> r.stdout == stdout && r.stderr == stderr,
        diff_correct(before@, after@, r.files@),
{
    let changes = diff(before, after);
    collect_result(outcome, stdout, stderr, changes)
}

} // verus!
