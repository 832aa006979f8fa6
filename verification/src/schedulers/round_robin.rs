//! The round-robin policy: the ready queue is first in, first out, and every
//! process gets the same time slice.

use vstd::multiset::Multiset;
use vstd::prelude::*;
use vstd::seq_lib::lemma_multiset_commutative;
use std::collections::VecDeque;
use crate::laws::{
    law_next_keeps_invariant, law_run_decision, law_sleep_is_least, law_stop_keeps_invariant,
    law_stop_keeps_timings, law_stop_leaves_sleepers_pending,
};
use crate::listing::{
    ascending_by_pid, insert_all, lemma_empty_queue, lemma_same_processes,
    lemma_sorted_distinct, ref_views, sorted_by_pid,
};
use crate::model::{all_consistent, count_pid, dispatched, due, min_sleep, EngineView};
use crate::process::{views, Pid, ProcessInfo, ProcessState, ProcessView};
use crate::queue::{
    age_queue, first_due, holds_pid, least_sleep, rest_queue, totals_have_room, wake_sleepers,
    wake_waiters,
};
use crate::queue_lemmas::lemma_views_push;
use crate::scheduler::{SchedulingDecision, StopReason, Syscall, SyscallResult};

verus! {

/// The round-robin scheduler.
pub struct RoundRobin {
    /// The runnable processes; the running one, if any, stands first.
    pub ready_q: VecDeque<ProcessInfo>,
    /// The processes blocked on an event.
    pub wait_q: VecDeque<ProcessInfo>,
    /// The sleeping processes.
    pub sleep_q: VecDeque<ProcessInfo>,
    /// The time slice of the next `Run` decision.
    pub timeslice: usize,
    /// The least unused rest of a time slice that becomes the next time slice.
    pub minimum_remaining_timeslice: usize,
    /// The identifier handed out last; 0 before the first fork.
    pub init_pid: usize,
    /// Whether the loss of process 1 is a panic.
    pub panic_state: bool,
    /// The idle ticks of the latest `Sleep` decision.
    pub sleep_time: usize,
    /// The time slice that the scheduler was made with.
    pub default_timeslice: usize,
}

impl View for RoundRobin {
    type V = EngineView;

    open spec fn view(&self) -> EngineView {
        EngineView {
            ready: views(self.ready_q@),
            waiting: views(self.wait_q@),
            sleeping: views(self.sleep_q@),
            quantum: self.timeslice as nat,
            default_quantum: self.default_timeslice as nat,
            min_remaining: self.minimum_remaining_timeslice as nat,
            next_pid: self.init_pid as nat,
            armed: self.panic_state,
            idle: self.sleep_time as nat,
        }
    }
}

impl RoundRobin {
    /// What holds of the scheduler between any two operations.
    pub open spec fn wf(&self) -> bool {
        self@.inv()
    }

    /// The stops that the scheduler takes: those that the engine admits and
    /// whose accounting fits the counters.
    pub open spec fn accepts(&self, reason: StopReason) -> bool {
        &&& self@.admits(reason)
        &&& self@.charge_within(reason, usize::MAX as nat)
    }

    /// Whether the idle ticks can be charged to the blocked processes.
    pub open spec fn can_reconcile(&self) -> bool {
        self@.idle_within(usize::MAX as nat)
    }

    /// Whether the scheduler takes the stop.
    pub fn can_stop(&self, reason: StopReason) -> (ok: bool)
        ensures
            ok == self.accepts(reason),
    {
        let elapsed = match reason {
            StopReason::Expired => self.timeslice,
            StopReason::Syscall { remaining, .. } => {
                if remaining > self.timeslice {
                    return false;
                }
                self.timeslice - remaining
            },
        };
        assert(elapsed == self@.elapsed(reason));
        let ghost s = self@;
        let ghost joined = s.ready + due(s.sleeping, elapsed as nat);
        let ghost c = s.charged(reason);
        assert(c.ready.len() == joined.len());
        let front = if self.ready_q.len() > 0 {
            Some(&self.ready_q[0])
        } else {
            first_due(&self.sleep_q, elapsed)
        };
        assert(front is Some <==> joined.len() > 0);
        match reason {
            StopReason::Syscall { syscall, remaining } => {
                let renews = remaining >= self.minimum_remaining_timeslice && match syscall {
                    Syscall::Fork(_) => true,
                    Syscall::Signal(_) => front.is_some(),
                    _ => false,
                };
                assert(renews == s.renews_slice(reason));
                if renews && remaining == 0 {
                    return false;
                }
                match syscall {
                    Syscall::Fork(_) => {
                        if self.init_pid == usize::MAX {
                            return false;
                        }
                    },
                    _ => {},
                }
            },
            StopReason::Expired => {},
        }
        assert(s.admits(reason));
        if !totals_have_room(&self.ready_q, elapsed) || !totals_have_room(&self.wait_q, elapsed)
            || !totals_have_room(&self.sleep_q, elapsed) {
            return false;
        }
        match front {
            None => true,
            Some(p) => {
                assert(joined[0].cpu == p@.cpu && joined[0].syscalls == p@.syscalls);
                match reason {
                    StopReason::Expired => {
                        assert(c.ready[0].cpu == p@.cpu + elapsed);
                        assert(c.ready[0].syscalls == p@.syscalls);
                        p.timings.2 <= usize::MAX - elapsed
                    },
                    StopReason::Syscall { .. } => {
                        let spent = if elapsed >= 1 {
                            elapsed - 1
                        } else {
                            0
                        };
                        assert(c.ready[0].cpu == p@.cpu + spent);
                        assert(c.ready[0].syscalls == p@.syscalls + 1);
                        p.timings.1 < usize::MAX && p.timings.2 <= usize::MAX - spent
                    },
                }
            },
        }
    }

    /// Whether `next` can charge the idle ticks to the blocked processes.
    pub fn can_next(&self) -> (ok: bool)
        ensures
            ok == self.can_reconcile(),
    {
        totals_have_room(&self.wait_q, self.sleep_time) && totals_have_room(
            &self.sleep_q,
            self.sleep_time,
        )
    }

    /// Whether process 1 is gone while the scheduler still counts on it.
    pub fn panic_verify(&self) -> (panic: bool)
        ensures
            panic == self@.must_panic(),
    {
        if !self.panic_state {
            return false;
        }
        !(holds_pid(&self.ready_q, 1) || holds_pid(&self.wait_q, 1) || holds_pid(
            &self.sleep_q,
            1,
        ))
    }

    /// Whether only processes that wait for an event are left.
    pub fn deadlock_verify(&self) -> (deadlock: bool)
        ensures
            deadlock == self@.deadlocked(),
    {
        self.ready_q.len() == 0 && self.wait_q.len() > 0 && self.sleep_q.len() == 0
    }

    /// Accounts for the time that passed before a stop.
    fn charge(&mut self, reason: StopReason)
        requires
            old(self)@.admits(reason),
            old(self)@.charge_within(reason, usize::MAX as nat),
        ensures
            final(self)@ == old(self)@.charged(reason),
    {
        let elapsed = match reason {
            StopReason::Expired => self.timeslice,
            StopReason::Syscall { remaining, .. } => self.timeslice - remaining,
        };
        assert(elapsed == old(self)@.elapsed(reason));
        wake_sleepers(&mut self.sleep_q, &mut self.ready_q, elapsed);
        self.sleep_time = 0;
        let ghost joined = self.ready_q@;
        if self.ready_q.len() > 0 {
            let mut running = self.ready_q.pop_front().unwrap();
            assert(running@ == views(joined)[0]);
            assert(old(self)@.charged(reason).ready[0].syscalls <= usize::MAX);
            match reason {
                StopReason::Expired => {
                    running.timings.2 = running.timings.2 + elapsed;
                },
                StopReason::Syscall { .. } => {
                    running.timings.1 = running.timings.1 + 1;
                    if elapsed >= 1 {
                        running.timings.2 = running.timings.2 + (elapsed - 1);
                    }
                },
            }
            self.ready_q.push_front(running);
        }
        assert forall|i: int| 0 <= i < self@.ready.len() implies (#[trigger] self@.ready[i]).total
            + elapsed <= usize::MAX by {
            assert(self@.ready[i].total == views(joined)[i].total);
        }
        age_queue(&mut self.ready_q, elapsed);
        age_queue(&mut self.wait_q, elapsed);
        self.timeslice = self.default_timeslice;
        assert(self@.ready =~= old(self)@.charged(reason).ready);
    }

    /// Creates a process with the next identifier and puts it at the back of
    /// the ready queue. With enough of the time slice left, the rest is the
    /// next time slice; else the first ready process is made ready, to be
    /// chosen again with the default time slice.
    fn fork(&mut self, priority: i8, remaining: usize) -> (pid: Pid)
        requires
            old(self).init_pid < usize::MAX,
        ensures
            final(self)@ == old(self)@.forked(priority, remaining),
            pid.0 == old(self).init_pid + 1,
    {
        let keeps_rest = remaining >= self.minimum_remaining_timeslice;
        if !keeps_rest && self.ready_q.len() > 0 {
            let mut parent = self.ready_q.pop_front().unwrap();
            parent.state = ProcessState::Ready;
            self.ready_q.push_front(parent);
        }
        let ghost parents = self.ready_q@;
        assert(views(parents) =~= if !keeps_rest && old(self)@.ready.len() > 0 {
            old(self)@.ready.update(0, old(self)@.ready[0].with_state(ProcessState::Ready))
        } else {
            old(self)@.ready
        });
        self.init_pid = self.init_pid + 1;
        let pid = Pid::new(self.init_pid);
        let child = ProcessInfo {
            pid,
            state: ProcessState::Ready,
            timings: (0, 0, 0),
            priority,
            sleep_time: 0,
            extra: String::new(),
        };
        assert(child@ == ProcessView::fresh(self.init_pid as nat, priority));
        self.ready_q.push_back(child);
        proof {
            lemma_views_push(parents, child);
        }
        if keeps_rest {
            self.timeslice = remaining;
        } else {
            self.timeslice = self.default_timeslice;
        }
        if self.init_pid == 1 {
            self.panic_state = true;
        }
        pid
    }

    /// Moves the first ready process to the back of the waiting queue, blocked on `event`.
    fn block(&mut self, event: usize) -> (result: SyscallResult)
        ensures
            final(self)@ == old(self)@.blocked(event),
            result == if old(self)@.ready.len() == 0 {
                SyscallResult::NoRunningProcess
            } else {
                SyscallResult::Success
            },
    {
        match self.ready_q.pop_front() {
            None => SyscallResult::NoRunningProcess,
            Some(mut caller) => {
                let ghost waiters = self.wait_q@;
                caller.state = ProcessState::Waiting { event: Some(event) };
                self.wait_q.push_back(caller);
                proof {
                    lemma_views_push(waiters, caller);
                }
                assert(self@.ready =~= old(self)@.ready.drop_first());
                SyscallResult::Success
            },
        }
    }

    /// Moves the first ready process to the back of the sleep queue, for `ticks` ticks.
    fn put_to_sleep(&mut self, ticks: usize) -> (result: SyscallResult)
        ensures
            final(self)@ == old(self)@.put_to_sleep(ticks),
            result == if old(self)@.ready.len() == 0 {
                SyscallResult::NoRunningProcess
            } else {
                SyscallResult::Success
            },
    {
        match self.ready_q.pop_front() {
            None => SyscallResult::NoRunningProcess,
            Some(mut caller) => {
                let ghost sleepers = self.sleep_q@;
                caller.sleep_time = ticks;
                caller.state = ProcessState::Waiting { event: None };
                self.sleep_q.push_back(caller);
                proof {
                    lemma_views_push(sleepers, caller);
                }
                assert(self@.ready =~= old(self)@.ready.drop_first());
                SyscallResult::Success
            },
        }
    }

    /// Wakes the waiters for `event` and puts the first ready process, which
    /// sent the signal, back: to the front, running, if enough of its time
    /// slice is left, which is then the next time slice; else to the back, ready.
    fn signal(&mut self, event: usize, remaining: usize) -> (result: SyscallResult)
        ensures
            final(self)@ == old(self)@.signalled(event, remaining),
            result == if old(self)@.ready.len() == 0 {
                SyscallResult::NoRunningProcess
            } else {
                SyscallResult::Success
            },
    {
        match self.ready_q.pop_front() {
            None => SyscallResult::NoRunningProcess,
            Some(mut sender) => {
                let ghost rest = self.ready_q@;
                assert(views(rest) =~= old(self)@.ready.drop_first());
                wake_waiters(&mut self.wait_q, &mut self.ready_q, event);
                let ghost others = self.ready_q@;
                if remaining >= self.minimum_remaining_timeslice {
                    sender.state = ProcessState::Running;
                    self.timeslice = remaining;
                    self.ready_q.push_front(sender);
                    assert(self@.ready =~= seq![sender@] + views(others));
                } else {
                    sender.state = ProcessState::Ready;
                    self.ready_q.push_back(sender);
                    proof {
                        lemma_views_push(others, sender);
                    }
                }
                SyscallResult::Success
            },
        }
    }

    /// Removes the first ready process. When process 1 leaves as the last
    /// one, its loss is no panic.
    fn exit(&mut self) -> (result: SyscallResult)
        ensures
            final(self)@ == old(self)@.exited(),
            result == if old(self)@.ready.len() == 0 {
                SyscallResult::NoRunningProcess
            } else {
                SyscallResult::Success
            },
    {
        match self.ready_q.pop_front() {
            None => SyscallResult::NoRunningProcess,
            Some(caller) => {
                assert(self@.ready =~= old(self)@.ready.drop_first());
                assert(caller@ == old(self)@.ready[0]);
                if caller.pid.0 == 1 && self.ready_q.len() == 0 && self.wait_q.len() == 0
                    && self.sleep_q.len() == 0 {
                    self.panic_state = false;
                }
                SyscallResult::Success
            },
        }
    }

    /// Moves the first ready process, whose time slice is over, to the back of the queue.
    fn preempt(&mut self) -> (result: SyscallResult)
        ensures
            final(self)@ == old(self)@.preempted(),
            result == if old(self)@.ready.len() == 0 {
                SyscallResult::NoRunningProcess
            } else {
                SyscallResult::Success
            },
    {
        match self.ready_q.pop_front() {
            None => SyscallResult::NoRunningProcess,
            Some(mut running) => {
                let ghost rest = self.ready_q@;
                assert(views(rest) =~= old(self)@.ready.drop_first());
                running.state = ProcessState::Ready;
                self.ready_q.push_back(running);
                proof {
                    lemma_views_push(rest, running);
                }
                SyscallResult::Success
            },
        }
    }

    /// Takes the report that the running process stopped: accounts for the
    /// time that passed, then carries out the system call or the preemption.
    pub fn stop(&mut self, reason: StopReason) -> (result: SyscallResult)
        requires
            old(self).wf(),
            old(self).accepts(reason),
        ensures
            final(self)@ == old(self)@.after_stop(reason),
            result == old(self)@.stop_result(reason),
            final(self).wf(),
            !(reason matches StopReason::Syscall { syscall: Syscall::Sleep(ticks), .. } && ticks
                == 0) ==> final(self)@.sleepers_pending(),
            old(self)@.timings_consistent() && ({
                ||| reason is Expired
                ||| reason matches StopReason::Syscall { remaining, .. } && remaining < old(
                    self,
                ).timeslice
                ||| old(self)@.charged(reason).ready.len() == 0
            }) ==> final(self)@.timings_consistent(),
    {
        proof {
            law_stop_keeps_invariant(self@, reason);
            if !(reason matches StopReason::Syscall { syscall: Syscall::Sleep(ticks), .. } && ticks
                == 0) {
                law_stop_leaves_sleepers_pending(self@, reason);
            }
            if self@.timings_consistent() && ({
                ||| reason is Expired
                ||| reason matches StopReason::Syscall { remaining, .. } && remaining
                    < self.timeslice
                ||| self@.charged(reason).ready.len() == 0
            }) {
                law_stop_keeps_timings(self@, reason);
            }
        }
        self.charge(reason);
        match reason {
            StopReason::Expired => self.preempt(),
            StopReason::Syscall { syscall, remaining } => match syscall {
                Syscall::Fork(priority) => SyscallResult::Pid(self.fork(priority, remaining)),
                Syscall::Wait(event) => self.block(event),
                Syscall::Sleep(ticks) => self.put_to_sleep(ticks),
                Syscall::Signal(event) => self.signal(event, remaining),
                Syscall::Exit => self.exit(),
            },
        }
    }

    /// Takes the report of a stop if the scheduler accepts it, and else
    /// leaves everything as it is.
    pub fn try_stop(&mut self, reason: StopReason) -> (result: Option<SyscallResult>)
        requires
            old(self).wf(),
        ensures
            final(self).wf(),
            result is Some <==> old(self).accepts(reason),
            result is None ==> *final(self) == *old(self),
            result matches Some(answer) ==> {
                &&& final(self)@ == old(self)@.after_stop(reason)
                &&& answer == old(self)@.stop_result(reason)
                &&& !(reason matches StopReason::Syscall { syscall: Syscall::Sleep(ticks), .. }
                    && ticks == 0) ==> final(self)@.sleepers_pending()
                &&& old(self)@.timings_consistent() && ({
                    ||| reason is Expired
                    ||| reason matches StopReason::Syscall { remaining, .. } && remaining < old(
                        self,
                    ).timeslice
                    ||| old(self)@.charged(reason).ready.len() == 0
                }) ==> final(self)@.timings_consistent()
            },
    {
        if self.can_stop(reason) {
            Some(self.stop(reason))
        } else {
            None
        }
    }

    /// Chooses what the driver does next if the idle ticks can be charged,
    /// and else leaves everything as it is.
    pub fn try_next(&mut self) -> (result: Option<SchedulingDecision>)
        requires
            old(self).wf(),
        ensures
            final(self).wf(),
            result is Some <==> old(self).can_reconcile(),
            result is None ==> *final(self) == *old(self),
            result matches Some(decision) ==> {
                &&& final(self)@ == old(self)@.after_next()
                &&& decision == old(self)@.decision()
                &&& old(self)@.timings_consistent() ==> final(self)@.timings_consistent()
                &&& decision matches SchedulingDecision::Run { pid, timeslice } ==> {
                    &&& final(self)@.ready.len() > 0
                    &&& final(self)@.ready[0].pid == pid.0
                    &&& final(self)@.ready[0].state == ProcessState::Running
                    &&& timeslice == old(self).timeslice
                    &&& timeslice > 0
                    &&& final(self)@.sleepers_pending()
                }
                &&& decision matches SchedulingDecision::Sleep(ticks) ==> {
                    &&& ticks == min_sleep(old(self)@.sleeping)
                    &&& ticks > 0
                    &&& final(self).sleep_time == ticks
                }
                &&& decision is Panic || decision is Deadlock || decision is Done ==> old(
                    self,
                )@ == final(self)@
            },
    {
        if self.can_next() {
            Some(self.next())
        } else {
            None
        }
    }

    /// Chooses what the driver does next.
    pub fn next(&mut self) -> (decision: SchedulingDecision)
        requires
            old(self).wf(),
            old(self).can_reconcile(),
        ensures
            final(self)@ == old(self)@.after_next(),
            decision == old(self)@.decision(),
            final(self).wf(),
            old(self)@.timings_consistent() ==> final(self)@.timings_consistent(),
            decision matches SchedulingDecision::Run { pid, timeslice } ==> {
                &&& final(self)@.ready.len() > 0
                &&& final(self)@.ready[0].pid == pid.0
                &&& final(self)@.ready[0].state == ProcessState::Running
                &&& timeslice == old(self).timeslice
                &&& timeslice > 0
                &&& final(self)@.sleepers_pending()
            },
            decision matches SchedulingDecision::Sleep(ticks) ==> {
                &&& ticks == min_sleep(old(self)@.sleeping)
                &&& ticks > 0
                &&& final(self).sleep_time == ticks
            },
            decision is Panic || decision is Deadlock || decision is Done ==> final(self)@ == old(
                self,
            )@,
    {
        proof {
            law_next_keeps_invariant(self@);
            if self@.decision() is Run {
                law_run_decision(self@);
            }
            if self@.decision() is Sleep {
                law_sleep_is_least(self@);
            }
        }
        if self.panic_verify() {
            return SchedulingDecision::Panic;
        }
        if self.deadlock_verify() {
            return SchedulingDecision::Deadlock;
        }
        if self.ready_q.len() == 0 && self.wait_q.len() == 0 && self.sleep_q.len() == 0 {
            return SchedulingDecision::Done;
        }
        let idle = self.sleep_time;
        age_queue(&mut self.wait_q, idle);
        age_queue(&mut self.sleep_q, idle);
        wake_sleepers(&mut self.sleep_q, &mut self.ready_q, 0);
        self.sleep_time = 0;
        assert(self@ == old(self)@.reconciled());
        if self.ready_q.len() == 0 {
            let ticks = least_sleep(&self.sleep_q);
            rest_queue(&mut self.sleep_q, ticks);
            self.sleep_time = ticks;
            return SchedulingDecision::Sleep(ticks);
        }
        let ghost ready = self.ready_q@;
        let mut first = self.ready_q.pop_front().unwrap();
        if first.state == ProcessState::Running && self.ready_q.len() >= 1 {
            let mut second = self.ready_q.pop_front().unwrap();
            let ghost rest = self.ready_q@;
            first.state = ProcessState::Ready;
            self.ready_q.push_back(first);
            second.state = ProcessState::Running;
            let pid = second.pid;
            self.ready_q.push_front(second);
            assert(self@.ready =~= dispatched(views(ready)));
            SchedulingDecision::Run { pid, timeslice: self.timeslice }
        } else {
            first.state = ProcessState::Running;
            let pid = first.pid;
            self.ready_q.push_front(first);
            assert(self@.ready =~= dispatched(views(ready)));
            SchedulingDecision::Run { pid, timeslice: self.timeslice }
        }
    }

    /// A snapshot of every process in a queue, in the order of the identifiers.
    pub fn list(&mut self) -> (processes: Vec<&ProcessInfo>)
        ensures
            *final(self) == *old(self),
            sorted_by_pid(ref_views(processes@)),
            ref_views(processes@).to_multiset() == (old(self)@.sleeping + old(self)@.waiting
                + old(self)@.ready).to_multiset(),
            forall|pid: nat|
                count_pid(ref_views(processes@), pid) == #[trigger] old(self)@.occurrences(pid),
            old(self).wf() ==> ascending_by_pid(ref_views(processes@)),
            old(self)@.timings_consistent() ==> all_consistent(ref_views(processes@)),
    {
        let mut processes: Vec<&ProcessInfo> = Vec::new();
        proof {
            assert(ref_views(processes@) =~= Seq::<ProcessView>::empty());
            lemma_empty_queue();
        }
        insert_all(&mut processes, &self.sleep_q);
        insert_all(&mut processes, &self.wait_q);
        insert_all(&mut processes, &self.ready_q);
        proof {
            let sleeping = self@.sleeping;
            let waiting = self@.waiting;
            let ready = self@.ready;
            lemma_multiset_commutative(sleeping, waiting);
            lemma_multiset_commutative(sleeping + waiting, ready);
            assert(Multiset::<ProcessView>::empty().add(sleeping.to_multiset()).add(
                waiting.to_multiset(),
            ).add(ready.to_multiset()) =~= sleeping.to_multiset().add(waiting.to_multiset()).add(
                ready.to_multiset(),
            ));
            assert forall|pid: nat|
                count_pid(ref_views(processes@), pid) == #[trigger] self@.occurrences(pid) by {
                assert(count_pid(Seq::<ProcessView>::empty(), pid) == 0);
                assert(count_pid(self@.sleeping, pid) == count_pid(views(self.sleep_q@), pid));
            }
            if self@.timings_consistent() {
                let listed = ref_views(processes@);
                let all = sleeping + waiting + ready;
                assert forall|i: int| 0 <= i < listed.len() implies (
                #[trigger] listed[i]).timings_consistent() by {
                    let j = lemma_same_processes(listed, all, i);
                    if j < sleeping.len() {
                        assert(all[j] == sleeping[j]);
                    } else if j < sleeping.len() + waiting.len() {
                        assert(all[j] == waiting[j - sleeping.len()]);
                    } else {
                        assert(all[j] == ready[j - sleeping.len() - waiting.len()]);
                    }
                }
            }
            if self.wf() {
                assert forall|pid: nat| #[trigger] count_pid(ref_views(processes@), pid) <= 1 by {
                    assert(self@.occurrences(pid) <= 1);
                }
                lemma_sorted_distinct(ref_views(processes@));
            }
        }
        processes
    }
}

} // verus!
