//! What holds of the engine after every operation.

use vstd::prelude::*;
use crate::invariants::{
    lemma_blocked_inv, lemma_charged_inv, lemma_charged_timings, lemma_exited_inv,
    lemma_forked_inv, lemma_idled_inv, lemma_preempted_inv, lemma_put_to_sleep_inv,
    lemma_reconciled_inv, lemma_selected_inv, lemma_signalled_inv,
};
use crate::model::{
    aged, count_pid, due, has_pid, min_sleep, pending, signalled, stands_before, unsignalled,
    EngineView,
};
use crate::process::{Pid, ProcessState, ProcessView};
use crate::queue_lemmas::{
    lemma_count_concat, lemma_count_some, lemma_count_two, lemma_count_waiters,
    lemma_signalled_order, lemma_signalled_source, lemma_sleepers_empty, lemma_sleepers_push,
    lemma_unsignalled_order,
};
use crate::scheduler::{SchedulingDecision, StopReason, Syscall, SyscallResult};

verus! {

/// The engine before the first fork meets the invariant, and `next` finds it done.
pub proof fn law_initial_state(quantum: nat, min_remaining: nat)
    requires
        quantum > 0,
    ensures
        EngineView::initial(quantum, min_remaining).inv(),
        EngineView::initial(quantum, min_remaining).sleepers_pending(),
        EngineView::initial(quantum, min_remaining).timings_consistent(),
        EngineView::initial(quantum, min_remaining).decision() == SchedulingDecision::Done,
{
    let s = EngineView::initial(quantum, min_remaining);
    assert forall|pid: nat| #[trigger] s.occurrences(pid) <= 1 by {}
}

/// What the steps of a stop keep: the invariant; the consistency of the
/// timings, once the time before the stop is accounted for; and that the
/// sleepers have time left, unless the stop is a call to sleep for no time.
proof fn lemma_stop_steps(s: EngineView, reason: StopReason)
    requires
        s.inv(),
        s.admits(reason),
    ensures
        s.after_stop(reason).inv(),
        s.charged(reason).timings_consistent() ==> s.after_stop(reason).timings_consistent(),
        !(reason matches StopReason::Syscall { syscall: Syscall::Sleep(ticks), .. } && ticks == 0)
            ==> s.after_stop(reason).sleepers_pending(),
{
    lemma_charged_inv(s, reason);
    let c = s.charged(reason);
    match reason {
        StopReason::Expired => {
            lemma_preempted_inv(c);
        },
        StopReason::Syscall { syscall, remaining } => {
            match syscall {
                Syscall::Fork(priority) => {
                    lemma_forked_inv(c, priority, remaining);
                },
                Syscall::Wait(event) => {
                    lemma_blocked_inv(c, event);
                },
                Syscall::Sleep(ticks) => {
                    lemma_put_to_sleep_inv(c, ticks);
                },
                Syscall::Signal(event) => {
                    lemma_signalled_inv(c, event, remaining);
                },
                Syscall::Exit => {
                    lemma_exited_inv(c);
                },
            }
        },
    }
}

/// `stop` keeps the invariant: at most the first ready process runs, the
/// waiting queue holds waiters for events and the sleep queue sleepers, and
/// the identifiers in the queues are distinct and were handed out.
pub proof fn law_stop_keeps_invariant(s: EngineView, reason: StopReason)
    requires
        s.inv(),
        s.admits(reason),
    ensures
        s.after_stop(reason).inv(),
{
    lemma_stop_steps(s, reason);
}

/// Under the invariant no two processes in the queues have the same
/// identifier, and every identifier lies between 1 and the one handed out last.
pub proof fn law_pids_distinct(s: EngineView)
    requires
        s.inv(),
    ensures
        forall|i: int, j: int|
            #![trigger s.all()[i], s.all()[j]]
            0 <= i < j < s.all().len() ==> s.all()[i].pid != s.all()[j].pid,
        forall|i: int| 0 <= i < s.all().len() ==> 1 <= (#[trigger] s.all()[i]).pid <= s.next_pid,
{
    let all = s.all();
    assert forall|i: int, j: int| 0 <= i < j < all.len() implies all[i].pid != all[j].pid by {
        if all[i].pid == all[j].pid {
            let pid = all[i].pid;
            lemma_count_two(all, pid, i, j);
            lemma_count_concat(s.ready + s.waiting, s.sleeping, pid);
            lemma_count_concat(s.ready, s.waiting, pid);
            assert(s.occurrences(pid) <= 1);
        }
    }
    assert forall|i: int| 0 <= i < all.len() implies 1 <= (#[trigger] all[i]).pid <= s.next_pid by {
        if i < s.ready.len() {
            assert(all[i] == s.ready[i]);
        } else if i < s.ready.len() + s.waiting.len() {
            assert(all[i] == s.waiting[i - s.ready.len()]);
        } else {
            assert(all[i] == s.sleeping[i - s.ready.len() - s.waiting.len()]);
        }
    }
}

/// Under the invariant the engine counts on process 1 for as long as that
/// process is in a queue: from its fork until it is gone.
pub proof fn law_armed_while_alive(s: EngineView)
    requires
        s.inv(),
        s.alive(1),
    ensures
        s.armed,
        s.next_pid >= 1,
        !s.must_panic(),
{
    if has_pid(s.ready, 1) {
        let i = choose|i: int| 0 <= i < s.ready.len() && (#[trigger] s.ready[i]).pid == 1;
        lemma_count_some(s.ready, 1, i);
    } else if has_pid(s.waiting, 1) {
        let i = choose|i: int| 0 <= i < s.waiting.len() && (#[trigger] s.waiting[i]).pid == 1;
        lemma_count_some(s.waiting, 1, i);
    } else {
        let i = choose|i: int| 0 <= i < s.sleeping.len() && (#[trigger] s.sleeping[i]).pid == 1;
        lemma_count_some(s.sleeping, 1, i);
    }
    assert(s.occurrences(1) >= 1);
}

/// Under the invariant at most one process runs, and it stands first in the ready queue.
pub proof fn law_one_runs(s: EngineView)
    requires
        s.inv(),
    ensures
        forall|i: int|
            0 <= i < s.all().len() && (#[trigger] s.all()[i]).state == ProcessState::Running
                ==> i == 0 && s.ready.len() > 0,
{
    let all = s.all();
    assert forall|i: int|
        0 <= i < all.len() && (#[trigger] all[i]).state == ProcessState::Running implies i == 0
        && s.ready.len() > 0 by {
        if i < s.ready.len() {
            assert(all[i] == s.ready[i]);
        } else if i < s.ready.len() + s.waiting.len() {
            assert(all[i] == s.waiting[i - s.ready.len()]);
        } else {
            assert(all[i] == s.sleeping[i - s.ready.len() - s.waiting.len()]);
        }
    }
}

/// After `stop` every sleeper has time left to sleep, unless the stop was a
/// call to sleep for no time.
pub proof fn law_stop_leaves_sleepers_pending(s: EngineView, reason: StopReason)
    requires
        s.inv(),
        s.admits(reason),
        !(reason matches StopReason::Syscall { syscall: Syscall::Sleep(ticks), .. } && ticks == 0),
    ensures
        s.after_stop(reason).sleepers_pending(),
{
    lemma_stop_steps(s, reason);
}

/// `stop` keeps the timings consistent: processor time and system calls stay
/// within the total time of every process, when the stop is a preemption, a
/// call made with less than the whole time slice left, or a stop that is
/// charged to no process.
pub proof fn law_stop_keeps_timings(s: EngineView, reason: StopReason)
    requires
        s.inv(),
        s.admits(reason),
        s.timings_consistent(),
        ({
            ||| reason is Expired
            ||| reason matches StopReason::Syscall { remaining, .. } && remaining < s.quantum
            ||| s.charged(reason).ready.len() == 0
        }),
    ensures
        s.after_stop(reason).timings_consistent(),
{
    lemma_charged_timings(s, reason);
    lemma_stop_steps(s, reason);
}

/// `next` keeps the invariant and the consistency of the timings.
pub proof fn law_next_keeps_invariant(s: EngineView)
    requires
        s.inv(),
    ensures
        s.after_next().inv(),
        s.timings_consistent() ==> s.after_next().timings_consistent(),
{
    if !(s.must_panic() || s.deadlocked() || s.finished()) {
        lemma_reconciled_inv(s);
        let r = s.reconciled();
        if r.ready.len() == 0 {
            lemma_idled_inv(r);
        } else {
            lemma_selected_inv(r);
        }
    }
}

/// When `next` decides to run a process, that process stands first in the
/// ready queue and is the only one that runs, the time slice is the current
/// one and is not empty, and every sleeper has time left to sleep.
pub proof fn law_run_decision(s: EngineView)
    requires
        s.inv(),
        s.decision() is Run,
    ensures
        s.after_next().ready.len() > 0,
        s.after_next().ready[0].state == ProcessState::Running,
        forall|i: int|
            0 < i < s.after_next().ready.len() ==> (#[trigger] s.after_next().ready[i]).state
                == ProcessState::Ready,
        s.decision() == (SchedulingDecision::Run {
            pid: Pid(s.after_next().ready[0].pid as usize),
            timeslice: s.quantum as usize,
        }),
        s.quantum > 0,
        s.after_next().quantum == s.quantum,
        s.after_next().sleepers_pending(),
{
    lemma_reconciled_inv(s);
    let r = s.reconciled();
    lemma_selected_inv(r);
}

/// The least sleep of a queue is what one of its sleepers has left, and no
/// sleeper has less.
pub proof fn lemma_min_sleep_is_least(q: Seq<ProcessView>)
    requires
        q.len() > 0,
    ensures
        exists|i: int| 0 <= i < q.len() && (#[trigger] q[i]).sleep_remaining == min_sleep(q),
        forall|i: int| 0 <= i < q.len() ==> min_sleep(q) <= (#[trigger] q[i]).sleep_remaining,
    decreases q.len(),
{
    if q.len() == 1 {
        assert(q[0].sleep_remaining == min_sleep(q));
    } else {
        let init = q.drop_last();
        lemma_min_sleep_is_least(init);
        let k = choose|i: int|
            0 <= i < init.len() && (#[trigger] init[i]).sleep_remaining == min_sleep(init);
        assert(init[k] == q[k]);
        if q.last().sleep_remaining < min_sleep(init) {
            assert(q[q.len() - 1].sleep_remaining == min_sleep(q));
        } else {
            assert(q[k].sleep_remaining == min_sleep(q));
        }
        assert forall|i: int| 0 <= i < q.len() implies min_sleep(q) <= (
        #[trigger] q[i]).sleep_remaining by {
            if i < init.len() {
                assert(init[i] == q[i]);
            }
        }
    }
}

/// Sleepers that all have time left are all pending after no time, and as they were.
pub proof fn lemma_pending_all(q: Seq<ProcessView>)
    requires
        forall|i: int| 0 <= i < q.len() ==> (#[trigger] q[i]).sleep_remaining > 0,
    ensures
        pending(q, 0) == q,
        due(q, 0).len() == 0,
    decreases q.len(),
{
    if q.len() == 0 {
        lemma_sleepers_empty(0);
        assert(q =~= Seq::<ProcessView>::empty());
    } else {
        let init = q.drop_last();
        let last = q.last();
        assert(q =~= init.push(last));
        assert forall|i: int| 0 <= i < init.len() implies (
        #[trigger] init[i]).sleep_remaining > 0 by {
            assert(init[i] == q[i]);
        }
        lemma_pending_all(init);
        lemma_sleepers_push(init, last, 0);
        assert(last == q[q.len() - 1]);
        assert(last.slept(0) == last);
    }
}

/// A sleeper with no time left is among those that are due after no time.
pub proof fn lemma_due_some(q: Seq<ProcessView>, k: int)
    requires
        0 <= k < q.len(),
        q[k].sleep_remaining == 0,
    ensures
        due(q, 0).len() > 0,
    decreases q.len(),
{
    let init = q.drop_last();
    let last = q.last();
    assert(q =~= init.push(last));
    lemma_sleepers_push(init, last, 0);
    if k < q.len() - 1 {
        assert(init[k] == q[k]);
        lemma_due_some(init, k);
    }
}

/// When `next` decides to idle, the duration is the least time that a sleeper
/// has left at the moment of the call: one sleeper has exactly that much
/// left, none has less, and it is not zero.
pub proof fn law_sleep_is_least(s: EngineView)
    requires
        s.inv(),
        s.decision() is Sleep,
    ensures
        s.decision() == SchedulingDecision::Sleep(min_sleep(s.sleeping) as usize),
        min_sleep(s.sleeping) > 0,
        exists|i: int|
            0 <= i < s.sleeping.len() && (#[trigger] s.sleeping[i]).sleep_remaining == min_sleep(
                s.sleeping,
            ),
        forall|i: int|
            0 <= i < s.sleeping.len() ==> min_sleep(s.sleeping) <= (
            #[trigger] s.sleeping[i]).sleep_remaining,
        s.after_next().idle == min_sleep(s.sleeping),
        s.after_next().ready.len() == 0,
{
    let r = s.reconciled();
    let sleepers = aged(s.sleeping, s.idle);
    assert(r.ready.len() == 0);
    assert(r.ready.len() == s.ready.len() + due(sleepers, 0).len());
    assert forall|i: int| 0 <= i < sleepers.len() implies (#[trigger] sleepers[i]).sleep_remaining
        > 0 by {
        if sleepers[i].sleep_remaining == 0 {
            lemma_due_some(sleepers, i);
        }
    }
    lemma_pending_all(sleepers);
    assert(r.sleeping == sleepers);
    assert(s.sleeping.len() > 0);
    lemma_min_sleep_aged(s.sleeping, s.idle);
    lemma_min_sleep_is_least(s.sleeping);
    let k = choose|i: int|
        0 <= i < s.sleeping.len() && (#[trigger] s.sleeping[i]).sleep_remaining == min_sleep(
            s.sleeping,
        );
    assert(sleepers[k].sleep_remaining > 0);
    assert(sleepers[k].sleep_remaining == s.sleeping[k].sleep_remaining);
}

/// Growing older changes nothing of what the sleepers have left to sleep.
pub proof fn lemma_min_sleep_aged(q: Seq<ProcessView>, ticks: nat)
    ensures
        min_sleep(aged(q, ticks)) == min_sleep(q),
    decreases q.len(),
{
    if q.len() >= 2 {
        assert(aged(q, ticks).drop_last() =~= aged(q.drop_last(), ticks));
        lemma_min_sleep_aged(q.drop_last(), ticks);
    }
}

/// A failure persists: when `next` reports a panic or a deadlock it leaves
/// the engine as it was, so that every further `next` reports the same until
/// a `stop` changes the state.
pub proof fn law_failure_persists(s: EngineView)
    requires
        s.decision() is Panic || s.decision() is Deadlock,
    ensures
        s.after_next() == s,
        s.after_next().decision() == s.decision(),
{
}

/// When `next` reports that all is done, the engine stays as it was.
pub proof fn law_done_persists(s: EngineView)
    requires
        s.decision() is Done,
    ensures
        s.after_next() == s,
        s.after_next().decision() == s.decision(),
{
}

/// A stop other than a fork that finds no process to charge moves no process:
/// the queues hold the processes that they held, in their order.
pub proof fn law_no_running_process(s: EngineView, reason: StopReason)
    requires
        s.stop_result(reason) == crate::scheduler::SyscallResult::NoRunningProcess,
    ensures
        s.ready.len() == 0,
        s.after_stop(reason).ready.len() == 0,
        s.after_stop(reason).waiting == aged(s.waiting, s.elapsed(reason)),
        s.after_stop(reason).sleeping == pending(s.sleeping, s.elapsed(reason)),
        due(s.sleeping, s.elapsed(reason)).len() == 0,
        s.after_stop(reason).next_pid == s.next_pid,
        s.after_stop(reason).armed == s.armed,
{
    let c = s.charged(reason);
    assert(c.ready.len() == (s.ready + due(s.sleeping, s.elapsed(reason))).len());
}

/// What the time before a stop costs: the first process of the ready queue,
/// which the sleepers that are due have joined, is charged for the stop (a
/// system call counts as one call, and the ticks before it but one as
/// processor time; a preemption counts the whole time slice as processor
/// time); every process that is ready or waits grows older by the time; the
/// sleepers that sleep on are charged for it too; the time slice is the
/// default one and no idle time is left to charge.
pub proof fn law_stop_charges(s: EngineView, reason: StopReason)
    ensures
        ({
            let e = s.elapsed(reason);
            let joined = s.ready + due(s.sleeping, e);
            let c = s.charged(reason);
            &&& c.ready.len() == joined.len()
            &&& joined.len() > 0 ==> (match reason {
                StopReason::Expired => c.ready[0] == (ProcessView {
                    total: joined[0].total + e,
                    cpu: joined[0].cpu + e,
                    ..joined[0]
                }),
                StopReason::Syscall { .. } => c.ready[0] == (ProcessView {
                    total: joined[0].total + e,
                    syscalls: joined[0].syscalls + 1,
                    cpu: joined[0].cpu + if e >= 1 {
                        (e - 1) as nat
                    } else {
                        0
                    },
                    ..joined[0]
                }),
            })
            &&& forall|i: int|
                0 < i < joined.len() ==> #[trigger] c.ready[i] == (ProcessView {
                    total: joined[i].total + e,
                    ..joined[i]
                })
            &&& c.waiting.len() == s.waiting.len()
            &&& forall|i: int|
                0 <= i < s.waiting.len() ==> #[trigger] c.waiting[i] == (ProcessView {
                    total: s.waiting[i].total + e,
                    ..s.waiting[i]
                })
            &&& c.sleeping == pending(s.sleeping, e)
            &&& c.quantum == s.default_quantum
            &&& c.idle == 0
            &&& c.next_pid == s.next_pid
            &&& c.armed == s.armed
        }),
{
}

/// A fork answers with the identifier after the last one, hands that
/// identifier out, and adds one process and no other: the child, fresh and
/// ready, with the priority asked for, at the back of the ready queue. No
/// process leaves a queue.
pub proof fn law_fork_adds_child(s: EngineView, priority: i8, remaining: usize)
    requires
        s.inv(),
        s.admits(StopReason::Syscall { syscall: Syscall::Fork(priority), remaining }),
    ensures
        ({
            let reason = StopReason::Syscall { syscall: Syscall::Fork(priority), remaining };
            let c = s.charged(reason);
            let a = s.after_stop(reason);
            &&& s.stop_result(reason) == SyscallResult::Pid(Pid((s.next_pid + 1) as usize))
            &&& a.next_pid == s.next_pid + 1
            &&& a.ready.len() == c.ready.len() + 1
            &&& a.ready.last() == ProcessView::fresh(s.next_pid + 1, priority)
            &&& forall|i: int|
                0 <= i < c.ready.len() ==> {
                    ||| #[trigger] a.ready[i] == c.ready[i]
                    ||| i == 0 && remaining < s.min_remaining && a.ready[i]
                        == c.ready[i].with_state(ProcessState::Ready)
                }
            &&& a.waiting == c.waiting
            &&& a.sleeping == c.sleeping
            &&& forall|pid: nat|
                #[trigger] a.occurrences(pid) == s.occurrences(pid) + if pid == s.next_pid + 1 {
                    1nat
                } else {
                    0nat
                }
            &&& a.occurrences(s.next_pid + 1) == 1
            &&& a.inv()
        }),
{
    let reason = StopReason::Syscall { syscall: Syscall::Fork(priority), remaining };
    lemma_charged_inv(s, reason);
    let c = s.charged(reason);
    lemma_forked_inv(c, priority, remaining);
    let a = s.after_stop(reason);
    assert forall|pid: nat|
        #[trigger] a.occurrences(pid) == s.occurrences(pid) + if pid == s.next_pid + 1 {
            1nat
        } else {
            0nat
        } by {
        assert(c.occurrences(pid) == s.occurrences(pid));
    }
    assert(a.occurrences(s.next_pid + 1) <= 1);
}

/// A call to wait or to sleep that finds a process to charge moves that
/// process, and no other, from the front of the ready queue to the back of
/// the waiting queue, blocked on the event, or to the back of the sleep
/// queue, asleep for the ticks asked for.
pub proof fn law_blocking_call_moves_caller(s: EngineView, reason: StopReason)
    requires
        reason matches StopReason::Syscall { syscall, .. } && (syscall is Wait || syscall is Sleep),
        s.charged(reason).ready.len() > 0,
    ensures
        ({
            let c = s.charged(reason);
            let a = s.after_stop(reason);
            &&& s.stop_result(reason) == SyscallResult::Success
            &&& a.ready == c.ready.drop_first()
            &&& reason matches StopReason::Syscall { syscall: Syscall::Wait(event), .. } ==> {
                &&& a.waiting == c.waiting.push(c.ready[0].with_state(ProcessState::Waiting {
                    event: Some(event),
                }))
                &&& a.sleeping == c.sleeping
            }
            &&& reason matches StopReason::Syscall { syscall: Syscall::Sleep(ticks), .. } ==> {
                &&& a.sleeping == c.sleeping.push(ProcessView {
                    state: ProcessState::Waiting { event: None },
                    sleep_remaining: ticks as nat,
                    ..c.ready[0]
                })
                &&& a.waiting == c.waiting
            }
        }),
{
}

/// A signal that finds a sender leaves the waiters for other events in the
/// waiting queue and puts the waiters for the event into the ready queue,
/// behind the processes that were ready, all of them ready and in the order
/// in which they waited. The sender stays in the ready queue: first and
/// running if enough of the time slice is left, last and ready if not.
pub proof fn law_signal_wakes_in_order(s: EngineView, event: usize, remaining: usize)
    requires
        s.charged(StopReason::Syscall { syscall: Syscall::Signal(event), remaining }).ready.len()
            > 0,
    ensures
        ({
            let reason = StopReason::Syscall { syscall: Syscall::Signal(event), remaining };
            let c = s.charged(reason);
            let a = s.after_stop(reason);
            let woken = signalled(c.waiting, event);
            let rest = c.ready.drop_first();
            &&& s.stop_result(reason) == SyscallResult::Success
            &&& a.sleeping == c.sleeping
            &&& a.waiting == unsignalled(c.waiting, event)
            &&& remaining >= s.min_remaining ==> a.ready == seq![
                c.ready[0].with_state(ProcessState::Running),
            ] + rest + woken
            &&& remaining < s.min_remaining ==> a.ready == (rest + woken).push(
                c.ready[0].with_state(ProcessState::Ready),
            )
            &&& forall|i: int|
                0 <= i < woken.len() ==> (#[trigger] woken[i]).state == ProcessState::Ready
            &&& forall|i: int, j: int|
                0 <= i < j < woken.len() ==> #[trigger] stands_before(
                    c.waiting,
                    woken[i].pid,
                    woken[j].pid,
                )
            &&& forall|i: int, j: int|
                0 <= i < j < a.waiting.len() ==> #[trigger] stands_before(
                    c.waiting,
                    a.waiting[i].pid,
                    a.waiting[j].pid,
                )
            &&& forall|pid: nat|
                #[trigger] count_pid(woken, pid) + count_pid(a.waiting, pid) == count_pid(
                    c.waiting,
                    pid,
                )
        }),
{
    let reason = StopReason::Syscall { syscall: Syscall::Signal(event), remaining };
    let c = s.charged(reason);
    let a = s.after_stop(reason);
    let woken = signalled(c.waiting, event);
    let rest = c.ready.drop_first();
    if remaining >= s.min_remaining {
        assert(a.ready =~= seq![c.ready[0].with_state(ProcessState::Running)] + rest + woken);
    } else {
        assert(a.ready =~= (rest + woken).push(c.ready[0].with_state(ProcessState::Ready)));
    }
    assert(a.waiting == unsignalled(c.waiting, event));
    assert(a.sleeping == c.sleeping);
    assert(s.stop_result(reason) == SyscallResult::Success);
    assert forall|i: int| 0 <= i < woken.len() implies (#[trigger] woken[i]).state
        == ProcessState::Ready by {
        let x = lemma_signalled_source(c.waiting, event, i);
    }
    assert forall|i: int, j: int| 0 <= i < j < woken.len() implies #[trigger] stands_before(
        c.waiting,
        woken[i].pid,
        woken[j].pid,
    ) by {
        let xy = lemma_signalled_order(c.waiting, event, i, j);
        assert(c.waiting[xy.0].pid == woken[i].pid && c.waiting[xy.1].pid == woken[j].pid);
    }
    assert forall|i: int, j: int| 0 <= i < j < a.waiting.len() implies #[trigger] stands_before(
        c.waiting,
        a.waiting[i].pid,
        a.waiting[j].pid,
    ) by {
        let xy = lemma_unsignalled_order(c.waiting, event, i, j);
        assert(c.waiting[xy.0].pid == a.waiting[i].pid && c.waiting[xy.1].pid
            == a.waiting[j].pid);
    }
    assert forall|pid: nat|
        #[trigger] count_pid(woken, pid) + count_pid(a.waiting, pid) == count_pid(
            c.waiting,
            pid,
        ) by {
        lemma_count_waiters(c.waiting, event, pid);
    }
}

/// No step but a fork puts a process into the queues, and no step but an
/// exit takes one out: every other stop, and every `next`, only moves the
/// processes between the queues.
pub proof fn law_processes_are_kept(s: EngineView, reason: StopReason, pid: nat)
    requires
        s.inv(),
        s.admits(reason),
    ensures
        s.after_next().occurrences(pid) == s.occurrences(pid),
        !(reason matches StopReason::Syscall { syscall, .. } && (syscall is Fork
            || syscall is Exit)) ==> s.after_stop(reason).occurrences(pid) == s.occurrences(pid),
        reason matches StopReason::Syscall { syscall: Syscall::Fork(_), .. } ==> s.after_stop(
            reason,
        ).occurrences(pid) == s.occurrences(pid) + if pid == s.next_pid + 1 {
            1nat
        } else {
            0nat
        },
        reason matches StopReason::Syscall { syscall: Syscall::Exit, .. } ==> s.occurrences(pid)
            == s.after_stop(reason).occurrences(pid) + if s.charged(reason).ready.len() > 0
            && s.charged(reason).ready[0].pid == pid {
            1nat
        } else {
            0nat
        },
{
    if !(s.must_panic() || s.deadlocked() || s.finished()) {
        lemma_reconciled_inv(s);
        let r = s.reconciled();
        if r.ready.len() == 0 {
            lemma_idled_inv(r);
        } else {
            lemma_selected_inv(r);
        }
        assert(r.occurrences(pid) == s.occurrences(pid));
        assert(s.after_next().occurrences(pid) == r.occurrences(pid));
    }
    lemma_charged_inv(s, reason);
    let c = s.charged(reason);
    assert(c.occurrences(pid) == s.occurrences(pid));
    match reason {
        StopReason::Expired => {
            lemma_preempted_inv(c);
            assert(c.preempted().occurrences(pid) == c.occurrences(pid));
        },
        StopReason::Syscall { syscall, remaining } => {
            match syscall {
                Syscall::Fork(priority) => {
                    lemma_forked_inv(c, priority, remaining);
                    assert(c.forked(priority, remaining).occurrences(pid) == c.occurrences(pid)
                        + if pid == c.next_pid + 1 {
                        1nat
                    } else {
                        0nat
                    });
                },
                Syscall::Wait(event) => {
                    lemma_blocked_inv(c, event);
                    assert(c.blocked(event).occurrences(pid) == c.occurrences(pid));
                },
                Syscall::Sleep(ticks) => {
                    lemma_put_to_sleep_inv(c, ticks);
                    assert(c.put_to_sleep(ticks).occurrences(pid) == c.occurrences(pid));
                },
                Syscall::Signal(event) => {
                    lemma_signalled_inv(c, event, remaining);
                    assert(c.signalled(event, remaining).occurrences(pid) == c.occurrences(pid));
                },
                Syscall::Exit => {
                    lemma_exited_inv(c);
                    assert(c.occurrences(pid) == c.exited().occurrences(pid) + if c.ready.len() > 0
                        && c.ready[0].pid == pid {
                        1nat
                    } else {
                        0nat
                    });
                },
            }
        },
    }
}

/// When `next` decides to run a process and the first ready process ran
/// already while another one is ready, the first one goes to the back of the
/// queue, ready, and the one behind it runs; the processes between keep
/// their places and states.
pub proof fn law_rotation(s: EngineView)
    requires
        s.decision() is Run,
        s.reconciled().ready.len() >= 2,
        s.reconciled().ready[0].state == ProcessState::Running,
    ensures
        ({
            let before = s.reconciled().ready;
            let after = s.after_next().ready;
            &&& after.len() == before.len()
            &&& after[0] == before[1].with_state(ProcessState::Running)
            &&& after.last() == before[0].with_state(ProcessState::Ready)
            &&& forall|i: int| 0 < i < before.len() - 1 ==> #[trigger] after[i] == before[i + 1]
        }),
{
}

} // verus!
