//! Passes over a queue of process records.

use vstd::prelude::*;
use std::collections::VecDeque;
use crate::model::{
    aged, due, has_pid, min_sleep, pending, rested, signalled, totals_within, unsignalled,
};
use crate::process::{views, ProcessInfo, ProcessState, ProcessView};
use crate::queue_lemmas::{
    lemma_due_concat, lemma_min_sleep_push, lemma_sleepers_empty, lemma_sleepers_push,
    lemma_take_next, lemma_views_push, lemma_waiters_empty, lemma_waiters_push,
};

verus! {

/// Whether the total time of every record of the queue can grow by `ticks`.
pub open spec fn totals_fit(q: Seq<ProcessInfo>, ticks: nat) -> bool {
    totals_within(views(q), ticks, usize::MAX as nat)
}

/// Whether a record with this identifier stands in the queue.
pub fn holds_pid(q: &VecDeque<ProcessInfo>, pid: usize) -> (found: bool)
    ensures
        found == has_pid(views(q@), pid as nat),
{
    let mut i: usize = 0;
    while i < q.len()
        invariant
            i <= q@.len(),
            forall|j: int| 0 <= j < i ==> (#[trigger] views(q@)[j]).pid != pid,
        decreases q@.len() - i,
    {
        if q[i].pid.0 == pid {
            assert(views(q@)[i as int].pid == pid);
            return true;
        }
        i = i + 1;
    }
    false
}

/// Makes every process of the queue `ticks` ticks older.
pub fn age_queue(q: &mut VecDeque<ProcessInfo>, ticks: usize)
    requires
        totals_fit(old(q)@, ticks as nat),
    ensures
        views(final(q)@) == aged(views(old(q)@), ticks as nat),
{
    let ghost before = q@;
    let mut out: VecDeque<ProcessInfo> = VecDeque::new();
    let n = q.len();
    let mut i: usize = 0;
    while i < n
        invariant
            n == before.len(),
            i <= n,
            q@ == before.skip(i as int),
            out@.len() == i,
            forall|j: int| 0 <= j < i ==> (#[trigger] out@[j])@ == before[j]@.aged(ticks as nat),
            totals_fit(before, ticks as nat),
        decreases n - i,
    {
        proof {
            lemma_take_next(before, i as int);
            assert(views(before)[i as int].total + ticks <= usize::MAX);
        }
        let mut p = q.pop_front().unwrap();
        p.timings.0 = p.timings.0 + ticks;
        out.push_back(p);
        i = i + 1;
    }
    *q = out;
    assert(views(q@) =~= aged(views(before), ticks as nat));
}

/// Takes `ticks` idle ticks off what every sleeper of the queue has left to sleep.
pub fn rest_queue(q: &mut VecDeque<ProcessInfo>, ticks: usize)
    ensures
        views(final(q)@) == rested(views(old(q)@), ticks as nat),
{
    let ghost before = q@;
    let mut out: VecDeque<ProcessInfo> = VecDeque::new();
    let n = q.len();
    let mut i: usize = 0;
    while i < n
        invariant
            n == before.len(),
            i <= n,
            q@ == before.skip(i as int),
            out@.len() == i,
            forall|j: int| 0 <= j < i ==> (#[trigger] out@[j])@ == before[j]@.rested(ticks as nat),
        decreases n - i,
    {
        proof {
            lemma_take_next(before, i as int);
        }
        let mut p = q.pop_front().unwrap();
        p.sleep_time = p.sleep_time.saturating_sub(ticks);
        out.push_back(p);
        i = i + 1;
    }
    *q = out;
    assert(views(q@) =~= rested(views(before), ticks as nat));
}

/// The least number of ticks that a sleeper of the queue has left; 0 for an empty queue.
pub fn least_sleep(q: &VecDeque<ProcessInfo>) -> (least: usize)
    ensures
        least == min_sleep(views(q@)),
{
    let n = q.len();
    if n == 0 {
        return 0;
    }
    let mut least: usize = q[0].sleep_time;
    let mut i: usize = 1;
    proof {
        lemma_min_sleep_push(Seq::empty(), views(q@)[0]);
        assert(views(q@).take(1) =~= Seq::<ProcessView>::empty().push(views(q@)[0]));
    }
    while i < n
        invariant
            n == q@.len(),
            1 <= i <= n,
            least == min_sleep(views(q@).take(i as int)),
        decreases n - i,
    {
        proof {
            lemma_take_next(views(q@), i as int);
            lemma_min_sleep_push(views(q@).take(i as int), views(q@)[i as int]);
        }
        if q[i].sleep_time < least {
            least = q[i].sleep_time;
        }
        i = i + 1;
    }
    proof {
        lemma_take_next(views(q@), 0);
    }
    least
}

/// Lets `elapsed` ticks pass for the sleepers: those whose time is up move to
/// the back of the ready queue, in their order; the others stay and are
/// charged for the ticks.
pub fn wake_sleepers(
    sleep_q: &mut VecDeque<ProcessInfo>,
    ready_q: &mut VecDeque<ProcessInfo>,
    elapsed: usize,
)
    requires
        totals_fit(old(sleep_q)@, elapsed as nat),
    ensures
        views(final(sleep_q)@) == pending(views(old(sleep_q)@), elapsed as nat),
        views(final(ready_q)@) == views(old(ready_q)@) + due(
            views(old(sleep_q)@),
            elapsed as nat,
        ),
        totals_fit(old(ready_q)@, elapsed as nat) ==> totals_fit(final(ready_q)@, elapsed as nat),
{
    let ghost sleepers = sleep_q@;
    let ghost ready = ready_q@;
    let mut still: VecDeque<ProcessInfo> = VecDeque::new();
    let n = sleep_q.len();
    let mut i: usize = 0;
    proof {
        lemma_sleepers_empty(elapsed as nat);
        assert(views(still@) =~= Seq::<ProcessView>::empty());
        assert(sleepers.take(0) =~= Seq::<ProcessInfo>::empty());
        assert(views(ready) + Seq::<ProcessView>::empty() =~= views(ready));
    }
    while i < n
        invariant
            n == sleepers.len(),
            i <= n,
            sleep_q@ == sleepers.skip(i as int),
            views(still@) == pending(views(sleepers.take(i as int)), elapsed as nat),
            views(ready_q@) == views(ready) + due(
                views(sleepers.take(i as int)),
                elapsed as nat,
            ),
            totals_fit(sleepers, elapsed as nat),
            totals_fit(ready, elapsed as nat) ==> totals_fit(ready_q@, elapsed as nat),
        decreases n - i,
    {
        let ghost seen = sleepers.take(i as int);
        let ghost woken = due(views(seen), elapsed as nat);
        let ghost before_ready = ready_q@;
        let ghost before_still = still@;
        proof {
            lemma_take_next(sleepers, i as int);
            assert(views(sleepers)[i as int].total + elapsed <= usize::MAX);
        }
        let mut p = sleep_q.pop_front().unwrap();
        proof {
            lemma_views_push(seen, p);
            lemma_sleepers_push(views(seen), p@, elapsed as nat);
        }
        if p.sleep_time <= elapsed {
            p.sleep_time = 0;
            p.state = ProcessState::Ready;
            ready_q.push_back(p);
            proof {
                lemma_views_push(before_ready, p);
                assert((views(ready) + woken).push(p@) =~= views(ready) + woken.push(p@));
                if totals_fit(ready, elapsed as nat) {
                    assert forall|j: int| 0 <= j < views(ready_q@).len() implies (
                    #[trigger] views(ready_q@)[j]).total + elapsed <= usize::MAX by {
                        if j < before_ready.len() {
                            assert(views(ready_q@)[j] == views(before_ready)[j]);
                        }
                    }
                }
            }
        } else {
            p.sleep_time = p.sleep_time - elapsed;
            p.timings.0 = p.timings.0 + elapsed;
            still.push_back(p);
            proof {
                lemma_views_push(before_still, p);
            }
        }
        i = i + 1;
    }
    *sleep_q = still;
    proof {
        assert(sleepers.take(n as int) =~= sleepers);
    }
}

/// Signals `event`: the waiters for it move to the back of the ready queue, in
/// their order, and the others stay.
pub fn wake_waiters(
    wait_q: &mut VecDeque<ProcessInfo>,
    ready_q: &mut VecDeque<ProcessInfo>,
    event: usize,
)
    ensures
        views(final(wait_q)@) == unsignalled(views(old(wait_q)@), event),
        views(final(ready_q)@) == views(old(ready_q)@) + signalled(views(old(wait_q)@), event),
{
    let ghost waiters = wait_q@;
    let ghost ready = ready_q@;
    let mut still: VecDeque<ProcessInfo> = VecDeque::new();
    let n = wait_q.len();
    let mut i: usize = 0;
    proof {
        lemma_waiters_empty(event);
        assert(views(still@) =~= Seq::<ProcessView>::empty());
        assert(waiters.take(0) =~= Seq::<ProcessInfo>::empty());
        assert(views(ready) + Seq::<ProcessView>::empty() =~= views(ready));
    }
    while i < n
        invariant
            n == waiters.len(),
            i <= n,
            wait_q@ == waiters.skip(i as int),
            views(still@) == unsignalled(views(waiters.take(i as int)), event),
            views(ready_q@) == views(ready) + signalled(views(waiters.take(i as int)), event),
        decreases n - i,
    {
        let ghost seen = waiters.take(i as int);
        let ghost woken = signalled(views(seen), event);
        let ghost before_ready = ready_q@;
        let ghost before_still = still@;
        proof {
            lemma_take_next(waiters, i as int);
        }
        let mut p = wait_q.pop_front().unwrap();
        proof {
            lemma_views_push(seen, p);
            lemma_waiters_push(views(seen), p@, event);
        }
        let hit = match p.state {
            ProcessState::Waiting { event: Some(e) } => e == event,
            _ => false,
        };
        if hit {
            p.state = ProcessState::Ready;
            ready_q.push_back(p);
            proof {
                lemma_views_push(before_ready, p);
                assert((views(ready) + woken).push(p@) =~= views(ready) + woken.push(p@));
            }
        } else {
            still.push_back(p);
            proof {
                lemma_views_push(before_still, p);
            }
        }
        i = i + 1;
    }
    *wait_q = still;
    proof {
        assert(waiters.take(n as int) =~= waiters);
    }
}

/// Whether the total time of every record of the queue can grow by `ticks`.
pub fn totals_have_room(q: &VecDeque<ProcessInfo>, ticks: usize) -> (ok: bool)
    ensures
        ok == totals_fit(q@, ticks as nat),
{
    let mut i: usize = 0;
    while i < q.len()
        invariant
            i <= q@.len(),
            forall|j: int| 0 <= j < i ==> (#[trigger] views(q@)[j]).total + ticks <= usize::MAX,
        decreases q@.len() - i,
    {
        if q[i].timings.0 > usize::MAX - ticks {
            assert(views(q@)[i as int].total + ticks > usize::MAX);
            return false;
        }
        i = i + 1;
    }
    true
}

/// The first sleeper of the queue whose time is up after `elapsed` ticks, if there is one.
pub fn first_due(q: &VecDeque<ProcessInfo>, elapsed: usize) -> (first: Option<&ProcessInfo>)
    ensures
        match first {
            Some(p) => due(views(q@), elapsed as nat).len() > 0 && due(
                views(q@),
                elapsed as nat,
            )[0] == p@.woken(),
            None => due(views(q@), elapsed as nat).len() == 0,
        },
{
    let ghost all = views(q@);
    let mut i: usize = 0;
    proof {
        lemma_sleepers_empty(elapsed as nat);
        assert(all.take(0) =~= Seq::<ProcessView>::empty());
    }
    while i < q.len()
        invariant
            i <= q@.len(),
            all == views(q@),
            due(all.take(i as int), elapsed as nat).len() == 0,
        decreases q@.len() - i,
    {
        proof {
            lemma_take_next(all, i as int);
            lemma_sleepers_push(all.take(i as int), all[i as int], elapsed as nat);
        }
        if q[i].sleep_time <= elapsed {
            proof {
                lemma_due_concat(all.take(i + 1), all.skip(i + 1), elapsed as nat);
                assert(all.take(i + 1) + all.skip(i + 1) =~= all);
            }
            return Some(&q[i]);
        }
        i = i + 1;
    }
    proof {
        assert(all.take(all.len() as int) =~= all);
    }
    None
}

} // verus!
