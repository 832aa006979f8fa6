//! What the driver reports to the scheduler and what the scheduler answers.

use vstd::prelude::*;
use crate::process::Pid;

verus! {

/// A system call that stops the running process.
#[derive(Clone, Copy, Debug, PartialEq, Eq, Structural)]
pub enum Syscall {
    /// Creates a process with the given priority.
    Fork(i8),
    /// Puts the caller to sleep for the given number of ticks.
    Sleep(usize),
    /// Blocks the caller until the given event is signalled.
    Wait(usize),
    /// Wakes every process that waits for the given event.
    Signal(usize),
    /// Ends the caller.
    Exit,
}

/// Why the running process stopped.
#[derive(Clone, Copy, Debug, PartialEq, Eq, Structural)]
pub enum StopReason {
    /// It made a system call with `remaining` ticks of its time slice unused.
    Syscall { syscall: Syscall, remaining: usize },
    /// It used its whole time slice.
    Expired,
}

/// The answer to a stop.
#[derive(Clone, Copy, Debug, PartialEq, Eq, Structural)]
pub enum SyscallResult {
    /// The identifier of the process that a fork created.
    Pid(Pid),
    Success,
    /// There was no process to which the stop could be attributed.
    NoRunningProcess,
}

/// What the driver has to do next.
#[derive(Clone, Copy, Debug, PartialEq, Eq, Structural)]
pub enum SchedulingDecision {
    /// Run the process for at most `timeslice` ticks.
    Run { pid: Pid, timeslice: usize },
    /// Nothing can run: let the given number of ticks pass.
    Sleep(usize),
    /// Only processes that wait for an event are left.
    Deadlock,
    /// The first process is gone while the scheduler still counts on it.
    Panic,
    /// No process is left.
    Done,
}

} // verus!
