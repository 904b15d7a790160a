//! How a child process ended.

use vstd::prelude::*;

verus! {

/// How a child process ended that was given a time limit.
#[derive(Debug)]
pub struct ExecOutcome {
    /// The exit code; none where a signal ended the process.
    pub code: Option<i32>,
    pub stdout: String,
    pub stderr: String,
    /// Whether the process was killed for running over its limit.
    pub timed_out: bool,
}

impl ExecOutcome {
    /// Ended in time with exit code 0.
    pub open spec fn succeeded(self) -> bool {
        !self.timed_out && self.code == Some(0i32)
    }

    /// Whether the process ended in time with exit code 0.
    pub fn success(&self) -> (r: bool)
        ensures
            r == self.succeeded(),
    {
        !self.timed_out && match self.code {
            Some(c) => c == 0,
            None => false,
        }
    }
}

/// A process did its work where it was not killed for its time and ended with 0.
pub proof fn success_is_zero_in_time(o: ExecOutcome)
    ensures
        o.timed_out ==> !o.succeeded(),
        o.code is None ==> !o.succeeded(),
        o.code matches Some(c) ==> c != 0 ==> !o.succeeded(),
        !o.timed_out && o.code == Some(0i32) ==> o.succeeded(),
{
}

} // verus!
