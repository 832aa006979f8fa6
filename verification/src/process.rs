//! Process identifiers, process states and process records.

use vstd::prelude::*;

verus! {

/// The identifier of a process: a positive integer, handed out in increasing order.
#[derive(Clone, Copy, Debug, PartialEq, Eq, Structural, PartialOrd, Ord, Hash)]
pub struct Pid(pub usize);

impl Pid {
    /// Wraps a number as a process identifier.
    pub fn new(pid: usize) -> (p: Pid)
        ensures
            p.0 == pid,
    {
        Pid(pid)
    }

    /// The number behind the identifier.
    pub fn value(&self) -> (v: usize)
        ensures
            v == self.0,
    {
        self.0
    }
}

/// Where a process stands in its life.
#[derive(Clone, Copy, Debug, PartialEq, Eq, Structural, Hash)]
pub enum ProcessState {
    /// In the ready queue, waiting to be chosen.
    Ready,
    /// The process of the latest `Run` decision.
    Running,
    /// Blocked: on the event, if one is given, or asleep otherwise.
    Waiting { event: Option<usize> },
}

impl ProcessState {
    /// Whether the process is blocked on an event.
    pub open spec fn awaits_event(self) -> bool {
        match self {
            ProcessState::Waiting { event: Some(_) } => true,
            _ => false,
        }
    }
}

/// What a process record stands for in contracts.
pub struct ProcessView {
    pub pid: nat,
    pub state: ProcessState,
    /// Ticks since the process was created.
    pub total: nat,
    /// System calls completed.
    pub syscalls: nat,
    /// Ticks spent running.
    pub cpu: nat,
    pub priority: i8,
    /// Ticks left to sleep.
    pub sleep_remaining: nat,
    pub extra: Seq<char>,
}

impl ProcessView {
    /// The same process in another state.
    pub open spec fn with_state(self, state: ProcessState) -> ProcessView {
        ProcessView { state, ..self }
    }

    /// The process after `ticks` more ticks of life.
    pub open spec fn aged(self, ticks: nat) -> ProcessView {
        ProcessView { total: self.total + ticks, ..self }
    }

    /// The sleeper after `ticks` ticks that it slept through and is charged for.
    pub open spec fn slept(self, ticks: nat) -> ProcessView {
        ProcessView {
            total: self.total + ticks,
            sleep_remaining: if self.sleep_remaining >= ticks {
                (self.sleep_remaining - ticks) as nat
            } else {
                0
            },
            ..self
        }
    }

    /// The sleeper after `ticks` ticks of idling that it is not yet charged for.
    pub open spec fn rested(self, ticks: nat) -> ProcessView {
        ProcessView {
            sleep_remaining: if self.sleep_remaining >= ticks {
                (self.sleep_remaining - ticks) as nat
            } else {
                0
            },
            ..self
        }
    }

    /// The sleeper whose time is up: ready again, with nothing left to sleep.
    pub open spec fn woken(self) -> ProcessView {
        ProcessView { state: ProcessState::Ready, sleep_remaining: 0, ..self }
    }

    /// The process that ran and made a system call after `elapsed` ticks: one
    /// call more, and the ticks before the call spent on the processor. The
    /// call itself takes one tick that is no processor time.
    pub open spec fn billed_syscall(self, elapsed: nat) -> ProcessView {
        ProcessView {
            syscalls: self.syscalls + 1,
            cpu: self.cpu + if elapsed >= 1 {
                (elapsed - 1) as nat
            } else {
                0
            },
            ..self
        }
    }

    /// The process that ran for its whole time slice of `elapsed` ticks.
    pub open spec fn billed_expiry(self, elapsed: nat) -> ProcessView {
        ProcessView { cpu: self.cpu + elapsed, ..self }
    }

    /// The process blocked on `event`.
    pub open spec fn blocked(self, event: usize) -> ProcessView {
        self.with_state(ProcessState::Waiting { event: Some(event) })
    }

    /// The process put to sleep for `ticks` ticks.
    pub open spec fn asleep(self, ticks: nat) -> ProcessView {
        ProcessView { state: ProcessState::Waiting { event: None }, sleep_remaining: ticks, ..self }
    }

    /// Processor time and system calls are part of the process's total time.
    pub open spec fn timings_consistent(self) -> bool {
        self.cpu + self.syscalls <= self.total
    }

    /// A process fresh from a fork.
    pub open spec fn fresh(pid: nat, priority: i8) -> ProcessView {
        ProcessView {
            pid,
            state: ProcessState::Ready,
            total: 0,
            syscalls: 0,
            cpu: 0,
            priority,
            sleep_remaining: 0,
            extra: Seq::empty(),
        }
    }
}

/// The record that the scheduler keeps of a process.
#[derive(Debug)]
pub struct ProcessInfo {
    pub pid: Pid,
    pub state: ProcessState,
    /// Total ticks, system calls, and ticks on the processor, in this order.
    pub timings: (usize, usize, usize),
    pub priority: i8,
    pub sleep_time: usize,
    pub extra: String,
}

impl View for ProcessInfo {
    type V = ProcessView;

    open spec fn view(&self) -> ProcessView {
        ProcessView {
            pid: self.pid.0 as nat,
            state: self.state,
            total: self.timings.0 as nat,
            syscalls: self.timings.1 as nat,
            cpu: self.timings.2 as nat,
            priority: self.priority,
            sleep_remaining: self.sleep_time as nat,
            extra: self.extra@,
        }
    }
}

impl Clone for ProcessInfo {
    fn clone(&self) -> (copy: ProcessInfo)
        ensures
            copy == *self,
    {
        ProcessInfo {
            pid: self.pid,
            state: self.state,
            timings: (self.timings.0, self.timings.1, self.timings.2),
            priority: self.priority,
            sleep_time: self.sleep_time,
            extra: self.extra.clone(),
        }
    }
}

/// The views of the records of a queue, in their order.
pub open spec fn views(q: Seq<ProcessInfo>) -> Seq<ProcessView> {
    q.map_values(|p: ProcessInfo| p@)
}

impl ProcessInfo {
    /// The identifier of the process.
    pub fn pid(&self) -> (pid: Pid)
        ensures
            pid == self.pid,
    {
        self.pid
    }

    /// The state of the process.
    pub fn state(&self) -> (state: ProcessState)
        ensures
            state == self.state,
    {
        self.state
    }

    /// Total ticks, system calls, and ticks on the processor, in this order.
    pub fn timings(&self) -> (timings: (usize, usize, usize))
        ensures
            timings == self.timings,
    {
        self.timings
    }

    /// The priority that the process was forked with.
    pub fn priority(&self) -> (priority: i8)
        ensures
            priority == self.priority,
    {
        self.priority
    }

    /// A copy of the note that the scheduler keeps of the process.
    pub fn extra(&self) -> (extra: String)
        ensures
            extra@ == self.extra@,
    {
        self.extra.clone()
    }
}

} // verus!
