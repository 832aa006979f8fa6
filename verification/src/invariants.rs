//! What every step of the engine keeps.

use vstd::prelude::*;
use crate::model::{
    aged, all_asleep, all_await_events, all_consistent, all_pending, all_ready, billed, due,
    front_runs, min_sleep, pending, pids_within, signalled, unsignalled, EngineView,
};
use crate::process::{ProcessState, ProcessView};
use crate::queue_lemmas::{
    lemma_count_concat, lemma_count_drop_first, lemma_count_none, lemma_count_one,
    lemma_count_push, lemma_count_same_pids, lemma_count_sleepers, lemma_count_waiters,
    lemma_due_source, lemma_pending_source, lemma_signalled_source, lemma_unsignalled_source,
};
use crate::scheduler::StopReason;

verus! {

/// The sleepers that are due are ready and keep their identifiers and timings.
pub proof fn lemma_due_keeps(q: Seq<ProcessView>, ticks: nat, next_pid: nat)
    ensures
        all_ready(due(q, ticks)),
        pids_within(q, next_pid) ==> pids_within(due(q, ticks), next_pid),
        all_consistent(q) ==> all_consistent(due(q, ticks)),
        forall|j: int|
            0 <= j < due(q, ticks).len() ==> (#[trigger] due(q, ticks)[j]).sleep_remaining == 0,
{
    assert forall|j: int| 0 <= j < due(q, ticks).len() implies {
        let p = #[trigger] due(q, ticks)[j];
        &&& p.state == ProcessState::Ready
        &&& p.sleep_remaining == 0
        &&& pids_within(q, next_pid) ==> 1 <= p.pid <= next_pid
        &&& all_consistent(q) ==> p.timings_consistent()
    } by {
        let i = lemma_due_source(q, ticks, j);
    }
}

/// The sleepers that are pending stay asleep, with time left, and keep their identifiers.
pub proof fn lemma_pending_keeps(q: Seq<ProcessView>, ticks: nat, next_pid: nat)
    ensures
        all_pending(pending(q, ticks)),
        all_asleep(q) ==> all_asleep(pending(q, ticks)),
        pids_within(q, next_pid) ==> pids_within(pending(q, ticks), next_pid),
        all_consistent(q) ==> all_consistent(pending(q, ticks)),
{
    assert forall|j: int| 0 <= j < pending(q, ticks).len() implies {
        let p = #[trigger] pending(q, ticks)[j];
        &&& p.sleep_remaining > 0
        &&& all_asleep(q) ==> p.state == (ProcessState::Waiting { event: None })
        &&& pids_within(q, next_pid) ==> 1 <= p.pid <= next_pid
        &&& all_consistent(q) ==> p.timings_consistent()
    } by {
        let i = lemma_pending_source(q, ticks, j);
    }
}

/// The waiters that a signal wakes are ready; those that it leaves wait on.
pub proof fn lemma_signal_keeps(q: Seq<ProcessView>, event: usize, next_pid: nat)
    ensures
        all_ready(signalled(q, event)),
        pids_within(q, next_pid) ==> pids_within(signalled(q, event), next_pid),
        all_consistent(q) ==> all_consistent(signalled(q, event)),
        all_await_events(q) ==> all_await_events(unsignalled(q, event)),
        pids_within(q, next_pid) ==> pids_within(unsignalled(q, event), next_pid),
        all_consistent(q) ==> all_consistent(unsignalled(q, event)),
{
    assert forall|j: int| 0 <= j < signalled(q, event).len() implies {
        let p = #[trigger] signalled(q, event)[j];
        &&& p.state == ProcessState::Ready
        &&& pids_within(q, next_pid) ==> 1 <= p.pid <= next_pid
        &&& all_consistent(q) ==> p.timings_consistent()
    } by {
        let i = lemma_signalled_source(q, event, j);
    }
    assert forall|j: int| 0 <= j < unsignalled(q, event).len() implies {
        let p = #[trigger] unsignalled(q, event)[j];
        &&& all_await_events(q) ==> p.state.awaits_event()
        &&& pids_within(q, next_pid) ==> 1 <= p.pid <= next_pid
        &&& all_consistent(q) ==> p.timings_consistent()
    } by {
        let i = lemma_unsignalled_source(q, event, j);
    }
}

/// Accounting for the time before a stop keeps the invariant, and the
/// sleepers that stay have time left.
pub proof fn lemma_charged_inv(s: EngineView, reason: StopReason)
    requires
        s.inv(),
    ensures
        s.charged(reason).inv(),
        s.charged(reason).sleepers_pending(),
        s.charged(reason).quantum == s.default_quantum,
        s.charged(reason).default_quantum == s.default_quantum,
        s.charged(reason).min_remaining == s.min_remaining,
        forall|pid: nat| #[trigger] s.charged(reason).occurrences(pid) == s.occurrences(pid),
{
    let e = s.elapsed(reason);
    let c = s.charged(reason);
    let joined = s.ready + due(s.sleeping, e);
    lemma_due_keeps(s.sleeping, e, s.next_pid);
    lemma_pending_keeps(s.sleeping, e, s.next_pid);
    assert forall|i: int| 0 <= i < c.ready.len() implies {
        &&& (#[trigger] c.ready[i]).state == joined[i].state
        &&& c.ready[i].pid == joined[i].pid
    } by {}
    assert(front_runs(c.ready)) by {
        assert forall|i: int| 0 <= i < c.ready.len() implies {
            ||| (#[trigger] c.ready[i]).state == ProcessState::Ready
            ||| i == 0 && c.ready[i].state == ProcessState::Running
        } by {
            if i < s.ready.len() {
                assert(joined[i] == s.ready[i]);
            } else {
                assert(joined[i] == due(s.sleeping, e)[i - s.ready.len()]);
            }
        }
    }
    assert(pids_within(c.ready, c.next_pid)) by {
        assert forall|i: int| 0 <= i < c.ready.len() implies 1 <= (#[trigger] c.ready[i]).pid
            <= c.next_pid by {
            if i < s.ready.len() {
                assert(joined[i] == s.ready[i]);
            } else {
                assert(joined[i] == due(s.sleeping, e)[i - s.ready.len()]);
            }
        }
    }
    assert forall|pid: nat|
            #[trigger] c.occurrences(pid) <= 1 && c.occurrences(pid) == s.occurrences(pid) by {
        lemma_count_same_pids(c.ready, joined, pid);
        lemma_count_concat(s.ready, due(s.sleeping, e), pid);
        lemma_count_same_pids(c.waiting, s.waiting, pid);
        lemma_count_sleepers(s.sleeping, e, pid);
        assert(c.occurrences(pid) == s.occurrences(pid));
    }
}

/// Accounting for the time before a stop keeps the timings consistent, unless
/// a process is charged for a system call that it made after no time at all.
pub proof fn lemma_charged_timings(s: EngineView, reason: StopReason)
    requires
        s.timings_consistent(),
        reason is Expired || s.elapsed(reason) >= 1 || s.charged(reason).ready.len() == 0,
    ensures
        s.charged(reason).timings_consistent(),
{
    let e = s.elapsed(reason);
    let c = s.charged(reason);
    let joined = s.ready + due(s.sleeping, e);
    lemma_due_keeps(s.sleeping, e, s.next_pid);
    lemma_pending_keeps(s.sleeping, e, s.next_pid);
    assert forall|i: int| 0 <= i < c.ready.len() implies (
    #[trigger] c.ready[i]).timings_consistent() by {
        assert(c.ready[i] == billed(joined, reason, e)[i].aged(e));
        if i < s.ready.len() {
            assert(joined[i] == s.ready[i]);
        } else {
            assert(joined[i] == due(s.sleeping, e)[i - s.ready.len()]);
        }
        assert(joined[i].timings_consistent());
    }
    assert forall|i: int| 0 <= i < c.waiting.len() implies (
    #[trigger] c.waiting[i]).timings_consistent() by {
        assert(s.waiting[i].timings_consistent());
    }
}

/// A fork keeps the invariant.
pub proof fn lemma_forked_inv(c: EngineView, priority: i8, remaining: usize)
    requires
        c.inv(),
        remaining >= c.min_remaining ==> 0 < remaining <= c.default_quantum,
        c.quantum == c.default_quantum,
    ensures
        c.forked(priority, remaining).inv(),
        c.sleepers_pending() ==> c.forked(priority, remaining).sleepers_pending(),
        c.timings_consistent() ==> c.forked(priority, remaining).timings_consistent(),
        forall|pid: nat| #[trigger]
            c.forked(priority, remaining).occurrences(pid) == c.occurrences(pid) + if pid
                == c.next_pid + 1 {
                1nat
            } else {
                0nat
            },
{
    let f = c.forked(priority, remaining);
    let child = ProcessView::fresh(c.next_pid + 1, priority);
    let parents = f.ready.drop_last();
    assert(f.ready == parents.push(child));
    assert(parents.len() == c.ready.len());
    assert forall|i: int| 0 <= i < parents.len() implies {
        &&& (#[trigger] parents[i]).pid == c.ready[i].pid
        &&& parents[i].timings_consistent() == c.ready[i].timings_consistent()
        &&& parents[i].state == c.ready[i].state || parents[i].state == ProcessState::Ready
    } by {}
    assert(front_runs(f.ready)) by {
        assert forall|i: int| 0 <= i < f.ready.len() implies {
            ||| (#[trigger] f.ready[i]).state == ProcessState::Ready
            ||| i == 0 && f.ready[i].state == ProcessState::Running
        } by {
            if i < parents.len() {
                assert(f.ready[i] == parents[i]);
                assert(c.ready[i].state == ProcessState::Ready || i == 0);
            }
        }
    }
    assert(pids_within(f.ready, f.next_pid)) by {
        assert forall|i: int| 0 <= i < f.ready.len() implies 1 <= (#[trigger] f.ready[i]).pid
            <= f.next_pid by {
            if i < parents.len() {
                assert(f.ready[i] == parents[i]);
                assert(1 <= c.ready[i].pid <= c.next_pid);
            }
        }
    }
    assert(pids_within(f.waiting, f.next_pid)) by {
        assert forall|i: int| 0 <= i < f.waiting.len() implies 1 <= (#[trigger] f.waiting[i]).pid
            <= f.next_pid by {
            assert(1 <= c.waiting[i].pid <= c.next_pid);
        }
    }
    assert(pids_within(f.sleeping, f.next_pid)) by {
        assert forall|i: int| 0 <= i < f.sleeping.len() implies 1 <= (
        #[trigger] f.sleeping[i]).pid <= f.next_pid by {
            assert(1 <= c.sleeping[i].pid <= c.next_pid);
        }
    }
    assert forall|pid: nat|
        #[trigger] f.occurrences(pid) <= 1 && f.occurrences(pid) == c.occurrences(pid) + if pid
            == child.pid {
            1nat
        } else {
            0nat
        } by {
        lemma_count_push(parents, child, pid);
        lemma_count_same_pids(parents, c.ready, pid);
        if pid == child.pid {
            lemma_count_none(c.ready, pid);
            lemma_count_none(c.waiting, pid);
            lemma_count_none(c.sleeping, pid);
        } else {
            assert(c.occurrences(pid) <= 1);
        }
    }
    if c.timings_consistent() {
        assert forall|i: int| 0 <= i < f.ready.len() implies (
        #[trigger] f.ready[i]).timings_consistent() by {
            if i < parents.len() {
                assert(f.ready[i] == parents[i]);
                assert(c.ready[i].timings_consistent());
            }
        }
    }
}

/// The queue without its first process holds ready processes only, with the
/// identifiers and timings that they had.
pub proof fn lemma_drop_first_keeps(q: Seq<ProcessView>, next_pid: nat)
    requires
        q.len() > 0,
    ensures
        front_runs(q) ==> all_ready(q.drop_first()),
        pids_within(q, next_pid) ==> pids_within(q.drop_first(), next_pid),
        all_consistent(q) ==> all_consistent(q.drop_first()),
{
    assert forall|i: int| 0 <= i < q.drop_first().len() implies {
        let p = #[trigger] q.drop_first()[i];
        &&& front_runs(q) ==> p.state == ProcessState::Ready
        &&& pids_within(q, next_pid) ==> 1 <= p.pid <= next_pid
        &&& all_consistent(q) ==> p.timings_consistent()
    } by {
        assert(q.drop_first()[i] == q[i + 1]);
    }
}

/// Blocking the first ready process on an event keeps the invariant.
pub proof fn lemma_blocked_inv(c: EngineView, event: usize)
    requires
        c.inv(),
    ensures
        c.blocked(event).inv(),
        c.sleepers_pending() ==> c.blocked(event).sleepers_pending(),
        c.timings_consistent() ==> c.blocked(event).timings_consistent(),
        forall|pid: nat| #[trigger] c.blocked(event).occurrences(pid) == c.occurrences(pid),
{
    if c.ready.len() > 0 {
        let b = c.blocked(event);
        let caller = c.ready[0].blocked(event);
        lemma_drop_first_keeps(c.ready, c.next_pid);
        assert(all_await_events(b.waiting)) by {
            assert forall|i: int| 0 <= i < b.waiting.len() implies (
            #[trigger] b.waiting[i]).state.awaits_event() by {
                if i < c.waiting.len() {
                    assert(b.waiting[i] == c.waiting[i]);
                }
            }
        }
        assert(pids_within(b.waiting, b.next_pid)) by {
            assert forall|i: int| 0 <= i < b.waiting.len() implies 1 <= (
            #[trigger] b.waiting[i]).pid <= b.next_pid by {
                if i < c.waiting.len() {
                    assert(b.waiting[i] == c.waiting[i]);
                } else {
                    assert(1 <= c.ready[0].pid <= c.next_pid);
                }
            }
        }
        assert forall|pid: nat|
            #[trigger] b.occurrences(pid) <= 1 && b.occurrences(pid) == c.occurrences(pid) by {
            lemma_count_drop_first(c.ready, pid);
            lemma_count_push(c.waiting, caller, pid);
            assert(b.occurrences(pid) == c.occurrences(pid));
        }
        if c.timings_consistent() {
            assert forall|i: int| 0 <= i < b.waiting.len() implies (
            #[trigger] b.waiting[i]).timings_consistent() by {
                if i < c.waiting.len() {
                    assert(b.waiting[i] == c.waiting[i]);
                } else {
                    assert(c.ready[0].timings_consistent());
                }
            }
        }
    }
}

/// Putting the first ready process to sleep keeps the invariant.
pub proof fn lemma_put_to_sleep_inv(c: EngineView, ticks: usize)
    requires
        c.inv(),
    ensures
        c.put_to_sleep(ticks).inv(),
        c.sleepers_pending() && ticks > 0 ==> c.put_to_sleep(ticks).sleepers_pending(),
        c.timings_consistent() ==> c.put_to_sleep(ticks).timings_consistent(),
        forall|pid: nat| #[trigger] c.put_to_sleep(ticks).occurrences(pid) == c.occurrences(pid),
{
    if c.ready.len() > 0 {
        let b = c.put_to_sleep(ticks);
        let caller = c.ready[0].asleep(ticks as nat);
        lemma_drop_first_keeps(c.ready, c.next_pid);
        assert(all_asleep(b.sleeping)) by {
            assert forall|i: int| 0 <= i < b.sleeping.len() implies (
            #[trigger] b.sleeping[i]).state == (ProcessState::Waiting { event: None }) by {
                if i < c.sleeping.len() {
                    assert(b.sleeping[i] == c.sleeping[i]);
                }
            }
        }
        assert(pids_within(b.sleeping, b.next_pid)) by {
            assert forall|i: int| 0 <= i < b.sleeping.len() implies 1 <= (
            #[trigger] b.sleeping[i]).pid <= b.next_pid by {
                if i < c.sleeping.len() {
                    assert(b.sleeping[i] == c.sleeping[i]);
                } else {
                    assert(1 <= c.ready[0].pid <= c.next_pid);
                }
            }
        }
        assert forall|pid: nat|
            #[trigger] b.occurrences(pid) <= 1 && b.occurrences(pid) == c.occurrences(pid) by {
            lemma_count_drop_first(c.ready, pid);
            lemma_count_push(c.sleeping, caller, pid);
            assert(b.occurrences(pid) == c.occurrences(pid));
        }
        if c.sleepers_pending() && ticks > 0 {
            assert forall|i: int| 0 <= i < b.sleeping.len() implies (
            #[trigger] b.sleeping[i]).sleep_remaining > 0 by {
                if i < c.sleeping.len() {
                    assert(b.sleeping[i] == c.sleeping[i]);
                }
            }
        }
        if c.timings_consistent() {
            assert forall|i: int| 0 <= i < b.sleeping.len() implies (
            #[trigger] b.sleeping[i]).timings_consistent() by {
                if i < c.sleeping.len() {
                    assert(b.sleeping[i] == c.sleeping[i]);
                } else {
                    assert(c.ready[0].timings_consistent());
                }
            }
        }
    }
}

/// A signal keeps the invariant.
pub proof fn lemma_signalled_inv(c: EngineView, event: usize, remaining: usize)
    requires
        c.inv(),
        c.ready.len() > 0 && remaining >= c.min_remaining ==> 0 < remaining <= c.default_quantum,
    ensures
        c.signalled(event, remaining).inv(),
        c.sleepers_pending() ==> c.signalled(event, remaining).sleepers_pending(),
        c.timings_consistent() ==> c.signalled(event, remaining).timings_consistent(),
        forall|pid: nat| #[trigger]
            c.signalled(event, remaining).occurrences(pid) == c.occurrences(pid),
{
    if c.ready.len() > 0 {
        let g = c.signalled(event, remaining);
        let sender = if remaining >= c.min_remaining {
            c.ready[0].with_state(ProcessState::Running)
        } else {
            c.ready[0].with_state(ProcessState::Ready)
        };
        let rest = c.ready.drop_first();
        let woken = signalled(c.waiting, event);
        let others = rest + woken;
        lemma_drop_first_keeps(c.ready, c.next_pid);
        lemma_signal_keeps(c.waiting, event, c.next_pid);
        assert(1 <= c.ready[0].pid <= c.next_pid);
        assert forall|i: int| 0 <= i < others.len() implies {
            let p = #[trigger] others[i];
            &&& p.state == ProcessState::Ready
            &&& 1 <= p.pid <= c.next_pid
            &&& c.timings_consistent() ==> p.timings_consistent()
        } by {
            if i < rest.len() {
                assert(others[i] == rest[i]);
            } else {
                assert(others[i] == woken[i - rest.len()]);
            }
        }
        assert forall|i: int| 0 <= i < g.ready.len() implies {
            let p = #[trigger] g.ready[i];
            &&& p.state == ProcessState::Ready || i == 0 && p.state == ProcessState::Running
            &&& 1 <= p.pid <= c.next_pid
            &&& c.timings_consistent() ==> p.timings_consistent()
        } by {
            if remaining >= c.min_remaining {
                if i > 0 {
                    assert(g.ready[i] == others[i - 1]);
                }
            } else {
                if i < others.len() {
                    assert(g.ready[i] == others[i]);
                }
            }
            assert(c.timings_consistent() ==> c.ready[0].timings_consistent());
        }
        assert forall|pid: nat|
            #[trigger] g.occurrences(pid) <= 1 && g.occurrences(pid) == c.occurrences(pid) by {
            lemma_count_drop_first(c.ready, pid);
            lemma_count_concat(rest, woken, pid);
            lemma_count_waiters(c.waiting, event, pid);
            lemma_count_one(sender, pid);
            if remaining >= c.min_remaining {
                lemma_count_concat(seq![sender], others, pid);
            } else {
                lemma_count_push(others, sender, pid);
            }
            assert(g.occurrences(pid) == c.occurrences(pid));
        }
    }
}

/// An exit keeps the invariant.
pub proof fn lemma_exited_inv(c: EngineView)
    requires
        c.inv(),
    ensures
        c.exited().inv(),
        c.sleepers_pending() ==> c.exited().sleepers_pending(),
        c.timings_consistent() ==> c.exited().timings_consistent(),
        forall|pid: nat| #[trigger]
            c.occurrences(pid) == c.exited().occurrences(pid) + if c.ready.len() > 0
                && c.ready[0].pid == pid {
                1nat
            } else {
                0nat
            },
{
    if c.ready.len() > 0 {
        let x = c.exited();
        lemma_drop_first_keeps(c.ready, c.next_pid);
        assert forall|pid: nat|
            #[trigger] x.occurrences(pid) <= 1 && c.occurrences(pid) == x.occurrences(pid)
                + if c.ready[0].pid == pid {
                1nat
            } else {
                0nat
            } by {
            lemma_count_drop_first(c.ready, pid);
            assert(x.occurrences(pid) <= c.occurrences(pid));
        }
    }
}

/// A preemption keeps the invariant.
pub proof fn lemma_preempted_inv(c: EngineView)
    requires
        c.inv(),
    ensures
        c.preempted().inv(),
        c.sleepers_pending() ==> c.preempted().sleepers_pending(),
        c.timings_consistent() ==> c.preempted().timings_consistent(),
        forall|pid: nat| #[trigger] c.preempted().occurrences(pid) == c.occurrences(pid),
{
    if c.ready.len() > 0 {
        let x = c.preempted();
        let rest = c.ready.drop_first();
        let back = c.ready[0].with_state(ProcessState::Ready);
        lemma_drop_first_keeps(c.ready, c.next_pid);
        assert(1 <= c.ready[0].pid <= c.next_pid);
        assert forall|i: int| 0 <= i < x.ready.len() implies {
            let p = #[trigger] x.ready[i];
            &&& p.state == ProcessState::Ready
            &&& 1 <= p.pid <= c.next_pid
            &&& c.timings_consistent() ==> p.timings_consistent()
        } by {
            if i < rest.len() {
                assert(x.ready[i] == rest[i]);
            }
            assert(c.timings_consistent() ==> c.ready[0].timings_consistent());
        }
        assert forall|pid: nat|
            #[trigger] x.occurrences(pid) <= 1 && x.occurrences(pid) == c.occurrences(pid) by {
            lemma_count_drop_first(c.ready, pid);
            lemma_count_push(rest, back, pid);
            assert(x.occurrences(pid) == c.occurrences(pid));
        }
    }
}

/// Charging the idle ticks and waking the sleepers that are due keeps the
/// invariant and the timings, and leaves only sleepers with time left.
pub proof fn lemma_reconciled_inv(s: EngineView)
    requires
        s.inv(),
    ensures
        s.reconciled().inv(),
        s.reconciled().sleepers_pending(),
        s.timings_consistent() ==> s.reconciled().timings_consistent(),
        forall|pid: nat| #[trigger] s.reconciled().occurrences(pid) == s.occurrences(pid),
{
    let r = s.reconciled();
    let sleepers = aged(s.sleeping, s.idle);
    let woken = due(sleepers, 0);
    assert(all_asleep(sleepers) && pids_within(sleepers, s.next_pid)) by {
        assert forall|i: int| 0 <= i < sleepers.len() implies {
            &&& (#[trigger] sleepers[i]).state == (ProcessState::Waiting { event: None })
            &&& 1 <= sleepers[i].pid <= s.next_pid
        } by {
            assert(sleepers[i] == s.sleeping[i].aged(s.idle));
        }
    }
    lemma_due_keeps(sleepers, 0, s.next_pid);
    lemma_pending_keeps(sleepers, 0, s.next_pid);
    assert forall|i: int| 0 <= i < r.ready.len() implies {
        let p = #[trigger] r.ready[i];
        &&& p.state == ProcessState::Ready || i == 0 && p.state == ProcessState::Running
        &&& 1 <= p.pid <= s.next_pid
    } by {
        if i < s.ready.len() {
            assert(r.ready[i] == s.ready[i]);
        } else {
            assert(r.ready[i] == woken[i - s.ready.len()]);
        }
    }
    assert forall|i: int| 0 <= i < r.waiting.len() implies {
        let p = #[trigger] r.waiting[i];
        &&& p.state.awaits_event()
        &&& 1 <= p.pid <= s.next_pid
    } by {
        assert(r.waiting[i] == s.waiting[i].aged(s.idle));
    }
    assert forall|pid: nat|
            #[trigger] r.occurrences(pid) <= 1 && r.occurrences(pid) == s.occurrences(pid) by {
        lemma_count_concat(s.ready, woken, pid);
        lemma_count_same_pids(r.waiting, s.waiting, pid);
        lemma_count_same_pids(sleepers, s.sleeping, pid);
        lemma_count_sleepers(sleepers, 0, pid);
        assert(r.occurrences(pid) == s.occurrences(pid));
    }
    if s.timings_consistent() {
        assert(all_consistent(sleepers)) by {
            assert forall|i: int| 0 <= i < sleepers.len() implies (
            #[trigger] sleepers[i]).timings_consistent() by {
                assert(s.sleeping[i].timings_consistent());
            }
        }
        assert forall|i: int| 0 <= i < r.ready.len() implies (
        #[trigger] r.ready[i]).timings_consistent() by {
            if i < s.ready.len() {
                assert(r.ready[i] == s.ready[i]);
            } else {
                assert(r.ready[i] == woken[i - s.ready.len()]);
            }
        }
        assert forall|i: int| 0 <= i < r.waiting.len() implies (
        #[trigger] r.waiting[i]).timings_consistent() by {
            assert(s.waiting[i].timings_consistent());
        }
    }
}

/// Idling until the first sleeper is due keeps the invariant and the timings.
pub proof fn lemma_idled_inv(r: EngineView)
    requires
        r.inv(),
    ensures
        r.idled().inv(),
        r.timings_consistent() ==> r.idled().timings_consistent(),
        forall|pid: nat| #[trigger] r.idled().occurrences(pid) == r.occurrences(pid),
{
    let d = r.idled();
    let ticks = min_sleep(r.sleeping);
    assert forall|i: int| 0 <= i < d.sleeping.len() implies {
        let p = #[trigger] d.sleeping[i];
        &&& p.state == (ProcessState::Waiting { event: None })
        &&& 1 <= p.pid <= r.next_pid
        &&& r.timings_consistent() ==> p.timings_consistent()
    } by {
        assert(d.sleeping[i] == r.sleeping[i].rested(ticks));
        assert(r.timings_consistent() ==> r.sleeping[i].timings_consistent());
    }
    assert forall|pid: nat|
            #[trigger] d.occurrences(pid) <= 1 && d.occurrences(pid) == r.occurrences(pid) by {
        lemma_count_same_pids(d.sleeping, r.sleeping, pid);
        assert(d.occurrences(pid) == r.occurrences(pid));
    }
}

/// The choice of the process to run keeps the invariant and the timings, and
/// the chosen process runs.
pub proof fn lemma_selected_inv(r: EngineView)
    requires
        r.inv(),
        r.ready.len() > 0,
    ensures
        r.selected().inv(),
        r.selected().ready.len() == r.ready.len(),
        r.selected().ready[0].state == ProcessState::Running,
        r.sleepers_pending() ==> r.selected().sleepers_pending(),
        r.timings_consistent() ==> r.selected().timings_consistent(),
        forall|pid: nat| #[trigger] r.selected().occurrences(pid) == r.occurrences(pid),
{
    let q = r.ready;
    let x = r.selected();
    assert(1 <= q[0].pid <= r.next_pid);
    assert(r.timings_consistent() ==> q[0].timings_consistent());
    if q[0].state == ProcessState::Running && q.len() >= 2 {
        let first = q[1].with_state(ProcessState::Running);
        let middle = q.subrange(2, q.len() as int);
        let back = q[0].with_state(ProcessState::Ready);
        assert(x.ready == (seq![first] + middle).push(back));
        assert(1 <= q[1].pid <= r.next_pid);
        assert(r.timings_consistent() ==> q[1].timings_consistent());
        assert forall|i: int| 0 <= i < x.ready.len() implies {
            let p = #[trigger] x.ready[i];
            &&& p.state == ProcessState::Ready || i == 0 && p.state == ProcessState::Running
            &&& 1 <= p.pid <= r.next_pid
            &&& r.timings_consistent() ==> p.timings_consistent()
        } by {
            if 0 < i < q.len() - 1 {
                assert(x.ready[i] == q[i + 1]);
            }
        }
        assert forall|pid: nat|
            #[trigger] x.occurrences(pid) <= 1 && x.occurrences(pid) == r.occurrences(pid) by {
            lemma_count_push(seq![first] + middle, back, pid);
            lemma_count_concat(seq![first], middle, pid);
            lemma_count_one(first, pid);
            lemma_count_drop_first(q, pid);
            lemma_count_drop_first(q.drop_first(), pid);
            assert(q.drop_first().drop_first() =~= middle);
            assert(x.occurrences(pid) == r.occurrences(pid));
        }
    } else {
        assert forall|i: int| 0 <= i < x.ready.len() implies {
            let p = #[trigger] x.ready[i];
            &&& p.state == ProcessState::Ready || i == 0 && p.state == ProcessState::Running
            &&& 1 <= p.pid <= r.next_pid
            &&& r.timings_consistent() ==> p.timings_consistent()
        } by {
            if i > 0 {
                assert(x.ready[i] == q[i]);
            }
        }
        assert forall|pid: nat|
            #[trigger] x.occurrences(pid) <= 1 && x.occurrences(pid) == r.occurrences(pid) by {
            lemma_count_same_pids(x.ready, q, pid);
            assert(x.occurrences(pid) == r.occurrences(pid));
        }
    }
}

} // verus!
