//! The scheduler as a state machine over sequences of process views.
//!
//! Every operation of the engine is a function from one `EngineView` to the
//! next; the executable schedulers are proved to follow these functions.

use vstd::prelude::*;
use crate::process::{Pid, ProcessState, ProcessView};
use crate::scheduler::{SchedulingDecision, StopReason, Syscall, SyscallResult};

verus! {

/// The state of the engine: three queues and the counters around them.
pub struct EngineView {
    /// Runnable processes; the running one, if any, stands first.
    pub ready: Seq<ProcessView>,
    /// Processes blocked on an event.
    pub waiting: Seq<ProcessView>,
    /// Sleeping processes.
    pub sleeping: Seq<ProcessView>,
    /// The time slice of the next `Run` decision.
    pub quantum: nat,
    /// The time slice that the engine was made with.
    pub default_quantum: nat,
    /// The least unused rest of a time slice that becomes the next time slice.
    pub min_remaining: nat,
    /// The identifier handed out last; 0 before the first fork.
    pub next_pid: nat,
    /// Whether the loss of process 1 is a panic.
    pub armed: bool,
    /// The idle ticks of the latest `Sleep` decision that no process is charged for yet.
    pub idle: nat,
}

/// Whether a process with this identifier stands in the queue.
pub open spec fn has_pid(q: Seq<ProcessView>, pid: nat) -> bool {
    exists|i: int| 0 <= i < q.len() && (#[trigger] q[i]).pid == pid
}

/// Whether a process with the first identifier stands before one with the
/// second identifier in the queue.
pub open spec fn stands_before(q: Seq<ProcessView>, first: nat, second: nat) -> bool {
    exists|x: int, y: int|
        0 <= x < y < q.len() && (#[trigger] q[x]).pid == first && (#[trigger] q[y]).pid == second
}

/// How many processes of the queue have this identifier.
pub open spec fn count_pid(q: Seq<ProcessView>, pid: nat) -> nat
    decreases q.len(),
{
    if q.len() == 0 {
        0
    } else {
        count_pid(q.drop_last(), pid) + if q.last().pid == pid {
            1nat
        } else {
            0nat
        }
    }
}

/// The least number of ticks that a process of the queue has left to sleep; 0 for an empty queue.
pub open spec fn min_sleep(q: Seq<ProcessView>) -> nat
    decreases q.len(),
{
    if q.len() == 0 {
        0
    } else if q.len() == 1 {
        q[0].sleep_remaining
    } else {
        let rest = min_sleep(q.drop_last());
        if q.last().sleep_remaining < rest {
            q.last().sleep_remaining
        } else {
            rest
        }
    }
}

/// Whether the total time of every process of the queue stays within `limit`
/// when it grows by `ticks`.
pub open spec fn totals_within(q: Seq<ProcessView>, ticks: nat, limit: nat) -> bool {
    forall|i: int| 0 <= i < q.len() ==> (#[trigger] q[i]).total + ticks <= limit
}

/// Every process of the queue, `ticks` ticks older.
pub open spec fn aged(q: Seq<ProcessView>, ticks: nat) -> Seq<ProcessView> {
    q.map_values(|p: ProcessView| p.aged(ticks))
}

/// Every sleeper of the queue after `ticks` idle ticks.
pub open spec fn rested(q: Seq<ProcessView>, ticks: nat) -> Seq<ProcessView> {
    q.map_values(|p: ProcessView| p.rested(ticks))
}

/// Holds of the sleepers whose time is up after `ticks` ticks.
pub open spec fn is_due(ticks: nat) -> spec_fn(ProcessView) -> bool {
    |p: ProcessView| p.sleep_remaining <= ticks
}

/// Holds of the sleepers that sleep on after `ticks` ticks.
pub open spec fn is_pending(ticks: nat) -> spec_fn(ProcessView) -> bool {
    |p: ProcessView| p.sleep_remaining > ticks
}

/// The sleepers that `ticks` ticks wake, in their order, made ready.
pub open spec fn due(q: Seq<ProcessView>, ticks: nat) -> Seq<ProcessView> {
    q.filter(is_due(ticks)).map_values(|p: ProcessView| p.woken())
}

/// The sleepers that sleep on after `ticks` ticks, in their order, charged for the ticks.
pub open spec fn pending(q: Seq<ProcessView>, ticks: nat) -> Seq<ProcessView> {
    q.filter(is_pending(ticks)).map_values(|p: ProcessView| p.slept(ticks))
}

/// Holds of the processes that wait for `event`.
pub open spec fn waits_for(event: usize) -> spec_fn(ProcessView) -> bool {
    |p: ProcessView| p.state == (ProcessState::Waiting { event: Some(event) })
}

/// Holds of the processes that do not wait for `event`.
pub open spec fn waits_for_other(event: usize) -> spec_fn(ProcessView) -> bool {
    |p: ProcessView| p.state != (ProcessState::Waiting { event: Some(event) })
}

/// The waiters that a signal of `event` wakes, in their order, made ready.
pub open spec fn signalled(q: Seq<ProcessView>, event: usize) -> Seq<ProcessView> {
    q.filter(waits_for(event)).map_values(|p: ProcessView| p.with_state(ProcessState::Ready))
}

/// The waiters that a signal of `event` leaves waiting, in their order.
pub open spec fn unsignalled(q: Seq<ProcessView>, event: usize) -> Seq<ProcessView> {
    q.filter(waits_for_other(event))
}

/// The ready queue after the choice of the process to run, which then stands
/// first: a first process that ran already goes to the back if another one is
/// ready, and the first of the others runs; else the first one runs.
pub open spec fn dispatched(q: Seq<ProcessView>) -> Seq<ProcessView>
    recommends
        q.len() > 0,
{
    if q[0].state == ProcessState::Running && q.len() >= 2 {
        (seq![q[1].with_state(ProcessState::Running)] + q.subrange(2, q.len() as int)).push(
            q[0].with_state(ProcessState::Ready),
        )
    } else {
        q.update(0, q[0].with_state(ProcessState::Running))
    }
}

/// The ready queue after the stop is charged to its first process.
pub open spec fn billed(q: Seq<ProcessView>, reason: StopReason, elapsed: nat) -> Seq<
    ProcessView,
> {
    if q.len() == 0 {
        q
    } else {
        match reason {
            StopReason::Expired => q.update(0, q[0].billed_expiry(elapsed)),
            StopReason::Syscall { .. } => q.update(0, q[0].billed_syscall(elapsed)),
        }
    }
}

impl EngineView {
    /// The engine before the first fork.
    pub open spec fn initial(quantum: nat, min_remaining: nat) -> EngineView {
        EngineView {
            ready: Seq::empty(),
            waiting: Seq::empty(),
            sleeping: Seq::empty(),
            quantum,
            default_quantum: quantum,
            min_remaining,
            next_pid: 0,
            armed: false,
            idle: 0,
        }
    }

    /// Every process that the engine holds: the ready ones, then the waiters, then the sleepers.
    pub open spec fn all(self) -> Seq<ProcessView> {
        self.ready + self.waiting + self.sleeping
    }

    /// Whether a process with this identifier stands in one of the queues.
    pub open spec fn alive(self, pid: nat) -> bool {
        has_pid(self.ready, pid) || has_pid(self.waiting, pid) || has_pid(self.sleeping, pid)
    }

    /// How many processes in the three queues have this identifier.
    pub open spec fn occurrences(self, pid: nat) -> nat {
        count_pid(self.ready, pid) + count_pid(self.waiting, pid) + count_pid(self.sleeping, pid)
    }

    /// Process 1 is gone while the engine still counts on it.
    pub open spec fn must_panic(self) -> bool {
        self.armed && !self.alive(1)
    }

    /// Only processes that wait for an event are left.
    pub open spec fn deadlocked(self) -> bool {
        self.ready.len() == 0 && self.sleeping.len() == 0 && self.waiting.len() > 0
    }

    /// No process is left.
    pub open spec fn finished(self) -> bool {
        self.ready.len() == 0 && self.sleeping.len() == 0 && self.waiting.len() == 0
    }

    /// The state after the idle ticks of the latest `Sleep` decision are
    /// charged to the blocked processes, and the sleepers with nothing left to
    /// sleep are made ready.
    pub open spec fn reconciled(self) -> EngineView {
        let sleepers = aged(self.sleeping, self.idle);
        EngineView {
            ready: self.ready + due(sleepers, 0),
            waiting: aged(self.waiting, self.idle),
            sleeping: pending(sleepers, 0),
            idle: 0,
            ..self
        }
    }

    /// The state after the engine idles until the first sleeper is due.
    pub open spec fn idled(self) -> EngineView {
        let ticks = min_sleep(self.sleeping);
        EngineView { sleeping: rested(self.sleeping, ticks), idle: ticks, ..self }
    }

    /// The state after the choice of the process to run.
    pub open spec fn selected(self) -> EngineView {
        EngineView { ready: dispatched(self.ready), ..self }
    }

    /// The state after `next`.
    pub open spec fn after_next(self) -> EngineView {
        if self.must_panic() || self.deadlocked() || self.finished() {
            self
        } else {
            let r = self.reconciled();
            if r.ready.len() == 0 {
                r.idled()
            } else {
                r.selected()
            }
        }
    }

    /// The decision of `next`.
    pub open spec fn decision(self) -> SchedulingDecision {
        if self.must_panic() {
            SchedulingDecision::Panic
        } else if self.deadlocked() {
            SchedulingDecision::Deadlock
        } else if self.finished() {
            SchedulingDecision::Done
        } else {
            let r = self.reconciled();
            if r.ready.len() == 0 {
                SchedulingDecision::Sleep(min_sleep(r.sleeping) as usize)
            } else {
                SchedulingDecision::Run {
                    pid: Pid(dispatched(r.ready)[0].pid as usize),
                    timeslice: self.quantum as usize,
                }
            }
        }
    }

    /// The ticks that passed before a stop.
    pub open spec fn elapsed(self, reason: StopReason) -> nat {
        match reason {
            StopReason::Expired => self.quantum,
            StopReason::Syscall { remaining, .. } => if remaining <= self.quantum {
                (self.quantum - remaining) as nat
            } else {
                0
            },
        }
    }

    /// Whether the stop makes the unused rest of the time slice the next time
    /// slice: a fork, or a signal that has a sender, with enough of the slice left.
    pub open spec fn renews_slice(self, reason: StopReason) -> bool {
        match reason {
            StopReason::Expired => false,
            StopReason::Syscall { syscall, remaining } => {
                &&& remaining >= self.min_remaining
                &&& match syscall {
                    Syscall::Fork(_) => true,
                    Syscall::Signal(_) => self.charged(reason).ready.len() > 0,
                    _ => false,
                }
            },
        }
    }

    /// The stops that the engine takes: the unused rest of a time slice is no
    /// longer than the slice, and a rest that becomes the next time slice is
    /// not empty.
    pub open spec fn admits(self, reason: StopReason) -> bool {
        match reason {
            StopReason::Expired => true,
            StopReason::Syscall { remaining, .. } => {
                &&& remaining <= self.quantum
                &&& self.renews_slice(reason) ==> remaining > 0
            },
        }
    }

    /// Whether no counter passes `limit` when the time that passed before a
    /// stop is accounted for, and a fork can still hand out an identifier.
    pub open spec fn charge_within(self, reason: StopReason, limit: nat) -> bool {
        let elapsed = self.elapsed(reason);
        let charged = self.charged(reason);
        &&& totals_within(self.ready, elapsed, limit)
        &&& totals_within(self.waiting, elapsed, limit)
        &&& totals_within(self.sleeping, elapsed, limit)
        &&& charged.ready.len() > 0 ==> charged.ready[0].syscalls <= limit && charged.ready[0].cpu
            <= limit
        &&& reason matches StopReason::Syscall { syscall: Syscall::Fork(_), .. } ==> self.next_pid
            < limit
    }

    /// Whether no total passes `limit` when the idle ticks are charged to the blocked processes.
    pub open spec fn idle_within(self, limit: nat) -> bool {
        &&& totals_within(self.waiting, self.idle, limit)
        &&& totals_within(self.sleeping, self.idle, limit)
    }

    /// The state after the time that passed before a stop is accounted for:
    /// the sleepers whose time is up join the ready queue, the first process
    /// of that queue is charged for the stop, every process that is left
    /// grows older, and the time slice is the default one again.
    pub open spec fn charged(self, reason: StopReason) -> EngineView {
        let elapsed = self.elapsed(reason);
        EngineView {
            ready: aged(billed(self.ready + due(self.sleeping, elapsed), reason, elapsed), elapsed),
            waiting: aged(self.waiting, elapsed),
            sleeping: pending(self.sleeping, elapsed),
            quantum: self.default_quantum,
            idle: 0,
            ..self
        }
    }

    /// The state after a fork: the child joins the back of the ready queue.
    /// With enough of the time slice left, the rest is the next time slice
    /// and the first ready process stays as it is; else the next time slice
    /// is the default one and the first ready process is made ready, to be
    /// chosen again.
    pub open spec fn forked(self, priority: i8, remaining: usize) -> EngineView {
        let keeps_rest = remaining >= self.min_remaining;
        let parents = if !keeps_rest && self.ready.len() > 0 {
            self.ready.update(0, self.ready[0].with_state(ProcessState::Ready))
        } else {
            self.ready
        };
        EngineView {
            ready: parents.push(ProcessView::fresh(self.next_pid + 1, priority)),
            quantum: if keeps_rest {
                remaining as nat
            } else {
                self.default_quantum
            },
            next_pid: self.next_pid + 1,
            armed: self.armed || self.next_pid == 0,
            ..self
        }
    }

    /// The state after the first ready process blocks on `event`.
    pub open spec fn blocked(self, event: usize) -> EngineView {
        if self.ready.len() == 0 {
            self
        } else {
            EngineView {
                ready: self.ready.drop_first(),
                waiting: self.waiting.push(self.ready[0].blocked(event)),
                ..self
            }
        }
    }

    /// The state after the first ready process goes to sleep for `ticks` ticks.
    pub open spec fn put_to_sleep(self, ticks: usize) -> EngineView {
        if self.ready.len() == 0 {
            self
        } else {
            EngineView {
                ready: self.ready.drop_first(),
                sleeping: self.sleeping.push(self.ready[0].asleep(ticks as nat)),
                ..self
            }
        }
    }

    /// The state after the first ready process signals `event`: the waiters
    /// for it join the ready queue in their order. With enough of the time
    /// slice left the sender stands first again, running, and the rest is
    /// the next time slice; else the sender goes to the back, ready.
    pub open spec fn signalled(self, event: usize, remaining: usize) -> EngineView {
        if self.ready.len() == 0 {
            self
        } else {
            let others = self.ready.drop_first() + signalled(self.waiting, event);
            if remaining >= self.min_remaining {
                EngineView {
                    ready: seq![self.ready[0].with_state(ProcessState::Running)] + others,
                    waiting: unsignalled(self.waiting, event),
                    quantum: remaining as nat,
                    ..self
                }
            } else {
                EngineView {
                    ready: others.push(self.ready[0].with_state(ProcessState::Ready)),
                    waiting: unsignalled(self.waiting, event),
                    ..self
                }
            }
        }
    }

    /// The state after the first ready process exits. When process 1 exits as
    /// the last one, its loss is no panic.
    pub open spec fn exited(self) -> EngineView {
        if self.ready.len() == 0 {
            self
        } else {
            let rest = self.ready.drop_first();
            let last_out = self.ready[0].pid == 1 && rest.len() == 0 && self.waiting.len() == 0
                && self.sleeping.len() == 0;
            EngineView { ready: rest, armed: self.armed && !last_out, ..self }
        }
    }

    /// The state after the first ready process gives way at the end of its time slice.
    pub open spec fn preempted(self) -> EngineView {
        if self.ready.len() == 0 {
            self
        } else {
            EngineView {
                ready: self.ready.drop_first().push(self.ready[0].with_state(ProcessState::Ready)),
                ..self
            }
        }
    }

    /// The state after `stop`.
    pub open spec fn after_stop(self, reason: StopReason) -> EngineView {
        let c = self.charged(reason);
        match reason {
            StopReason::Expired => c.preempted(),
            StopReason::Syscall { syscall, remaining } => match syscall {
                Syscall::Fork(priority) => c.forked(priority, remaining),
                Syscall::Wait(event) => c.blocked(event),
                Syscall::Sleep(ticks) => c.put_to_sleep(ticks),
                Syscall::Signal(event) => c.signalled(event, remaining),
                Syscall::Exit => c.exited(),
            },
        }
    }

    /// The answer of `stop`: the child's identifier for a fork; for any other
    /// stop, whether there was a process to attribute it to.
    pub open spec fn stop_result(self, reason: StopReason) -> SyscallResult {
        match reason {
            StopReason::Syscall { syscall: Syscall::Fork(_), .. } => SyscallResult::Pid(
                Pid((self.next_pid + 1) as usize),
            ),
            _ => if self.charged(reason).ready.len() == 0 {
                SyscallResult::NoRunningProcess
            } else {
                SyscallResult::Success
            },
        }
    }

    /// At most the first ready process runs, and every other one is ready.
    pub open spec fn ready_states(self) -> bool {
        front_runs(self.ready)
    }

    /// The waiting queue holds the processes blocked on an event, the sleep queue the sleepers.
    pub open spec fn blocked_states(self) -> bool {
        all_await_events(self.waiting) && all_asleep(self.sleeping)
    }

    /// Every identifier in a queue was handed out, and none occurs twice.
    pub open spec fn pids_distinct(self) -> bool {
        &&& pids_within(self.ready, self.next_pid)
        &&& pids_within(self.waiting, self.next_pid)
        &&& pids_within(self.sleeping, self.next_pid)
        &&& forall|pid: nat| #[trigger] self.occurrences(pid) <= 1
    }

    /// The engine counts on process 1 for as long as that process is in a queue.
    pub open spec fn armed_while_alive(self) -> bool {
        !self.armed ==> self.occurrences(1) == 0
    }

    /// What holds of the engine between any two operations.
    pub open spec fn inv(self) -> bool {
        &&& 0 < self.quantum <= self.default_quantum
        &&& self.ready_states()
        &&& self.blocked_states()
        &&& self.pids_distinct()
        &&& self.armed_while_alive()
    }

    /// Every sleeper has time left to sleep.
    pub open spec fn sleepers_pending(self) -> bool {
        all_pending(self.sleeping)
    }

    /// The timings of every process add up.
    pub open spec fn timings_consistent(self) -> bool {
        &&& all_consistent(self.ready)
        &&& all_consistent(self.waiting)
        &&& all_consistent(self.sleeping)
    }
}

/// At most the first process of the queue runs, and every other one is ready.
pub open spec fn front_runs(q: Seq<ProcessView>) -> bool {
    forall|i: int|
        0 <= i < q.len() ==> {
            ||| (#[trigger] q[i]).state == ProcessState::Ready
            ||| i == 0 && q[i].state == ProcessState::Running
        }
}

/// Every process of the queue is ready.
pub open spec fn all_ready(q: Seq<ProcessView>) -> bool {
    forall|i: int| 0 <= i < q.len() ==> (#[trigger] q[i]).state == ProcessState::Ready
}

/// Every process of the queue is blocked on an event.
pub open spec fn all_await_events(q: Seq<ProcessView>) -> bool {
    forall|i: int| 0 <= i < q.len() ==> (#[trigger] q[i]).state.awaits_event()
}

/// Every process of the queue is asleep.
pub open spec fn all_asleep(q: Seq<ProcessView>) -> bool {
    forall|i: int|
        0 <= i < q.len() ==> (#[trigger] q[i]).state == (ProcessState::Waiting { event: None })
}

/// Every sleeper of the queue has time left to sleep.
pub open spec fn all_pending(q: Seq<ProcessView>) -> bool {
    forall|i: int| 0 <= i < q.len() ==> (#[trigger] q[i]).sleep_remaining > 0
}

/// Every identifier of the queue lies between 1 and `next_pid`.
pub open spec fn pids_within(q: Seq<ProcessView>, next_pid: nat) -> bool {
    forall|i: int| 0 <= i < q.len() ==> 1 <= (#[trigger] q[i]).pid <= next_pid
}

/// The timings of every process of the queue add up.
pub open spec fn all_consistent(q: Seq<ProcessView>) -> bool {
    forall|i: int| 0 <= i < q.len() ==> (#[trigger] q[i]).timings_consistent()
}

} // verus!
