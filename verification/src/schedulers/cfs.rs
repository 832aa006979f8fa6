//! The fair policy: a slot that schedules nothing.

use vstd::prelude::*;
use crate::process::ProcessInfo;
use crate::scheduler::{SchedulingDecision, StopReason, SyscallResult};

verus! {

/// A scheduler that holds no process: it is done at once, accepts every stop
/// and lists nothing.
pub struct CFS {
    pub timeslice: usize,
    pub minimum_remaining_timeslice: usize,
}

impl CFS {
    /// Finds nothing to schedule.
    pub fn next(&mut self) -> (decision: SchedulingDecision)
        ensures
            decision == SchedulingDecision::Done,
            *final(self) == *old(self),
    {
        SchedulingDecision::Done
    }

    /// Accepts the stop and changes nothing.
    pub fn stop(&mut self, reason: StopReason) -> (result: SyscallResult)
        ensures
            result == SyscallResult::Success,
            *final(self) == *old(self),
    {
        SyscallResult::Success
    }

    /// Lists no process.
    pub fn list(&mut self) -> (processes: Vec<&ProcessInfo>)
        ensures
            processes@.len() == 0,
            *final(self) == *old(self),
    {
        Vec::new()
    }
}

} // verus!
