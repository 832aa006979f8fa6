//! How the queue functions of the model behave when a queue grows by one process.

use vstd::prelude::*;
use crate::model::{
    count_pid, due, is_due, is_pending, min_sleep, pending, signalled, unsignalled, waits_for,
    waits_for_other,
};
use crate::process::{views, ProcessInfo, ProcessState, ProcessView};

verus! {

/// A prefix of a queue grows by the process that follows it.
pub proof fn lemma_take_next<A>(q: Seq<A>, i: int)
    requires
        0 <= i < q.len(),
    ensures
        q.take(i + 1) == q.take(i).push(q[i]),
        q.skip(i).len() > 0,
        q.skip(i)[0] == q[i],
        q.skip(i).drop_first() == q.skip(i + 1),
        q.take(0) == Seq::<A>::empty(),
        q.take(q.len() as int) == q,
{
    assert(q.take(i + 1) =~= q.take(i).push(q[i]));
    assert(q.skip(i).drop_first() =~= q.skip(i + 1));
    assert(q.take(0) =~= Seq::<A>::empty());
    assert(q.take(q.len() as int) =~= q);
}

/// The views of a queue that grows by one record.
pub proof fn lemma_views_push(q: Seq<ProcessInfo>, p: ProcessInfo)
    ensures
        views(q.push(p)) == views(q).push(p@),
        views(Seq::<ProcessInfo>::empty()) == Seq::<ProcessView>::empty(),
{
    assert(views(q.push(p)) =~= views(q).push(p@));
    assert(views(Seq::<ProcessInfo>::empty()) =~= Seq::<ProcessView>::empty());
}

/// No sleeper of an empty queue is due or pending.
pub proof fn lemma_sleepers_empty(ticks: nat)
    ensures
        due(Seq::empty(), ticks) == Seq::<ProcessView>::empty(),
        pending(Seq::empty(), ticks) == Seq::<ProcessView>::empty(),
{
    let e = Seq::<ProcessView>::empty();
    e.lemma_filter_len(is_due(ticks));
    e.lemma_filter_len(is_pending(ticks));
    assert(due(e, ticks) =~= e);
    assert(pending(e, ticks) =~= e);
}

/// A sleeper that joins a queue is either due or pending.
pub proof fn lemma_sleepers_push(q: Seq<ProcessView>, p: ProcessView, ticks: nat)
    ensures
        due(q.push(p), ticks) == if p.sleep_remaining <= ticks {
            due(q, ticks).push(p.woken())
        } else {
            due(q, ticks)
        },
        pending(q.push(p), ticks) == if p.sleep_remaining > ticks {
            pending(q, ticks).push(p.slept(ticks))
        } else {
            pending(q, ticks)
        },
{
    q.lemma_filter_push(p, is_due(ticks));
    q.lemma_filter_push(p, is_pending(ticks));
    if p.sleep_remaining <= ticks {
        assert(due(q.push(p), ticks) =~= due(q, ticks).push(p.woken()));
    } else {
        assert(pending(q.push(p), ticks) =~= pending(q, ticks).push(p.slept(ticks)));
    }
}

/// No waiter of an empty queue is signalled or left.
pub proof fn lemma_waiters_empty(event: usize)
    ensures
        signalled(Seq::empty(), event) == Seq::<ProcessView>::empty(),
        unsignalled(Seq::empty(), event) == Seq::<ProcessView>::empty(),
{
    let e = Seq::<ProcessView>::empty();
    e.lemma_filter_len(waits_for(event));
    e.lemma_filter_len(waits_for_other(event));
    assert(signalled(e, event) =~= e);
    assert(unsignalled(e, event) =~= e);
}

/// A waiter that joins a queue is either woken by a signal or left waiting.
pub proof fn lemma_waiters_push(q: Seq<ProcessView>, p: ProcessView, event: usize)
    ensures
        signalled(q.push(p), event) == if p.state == (ProcessState::Waiting {
            event: Some(event),
        }) {
            signalled(q, event).push(p.with_state(ProcessState::Ready))
        } else {
            signalled(q, event)
        },
        unsignalled(q.push(p), event) == if p.state == (ProcessState::Waiting {
            event: Some(event),
        }) {
            unsignalled(q, event)
        } else {
            unsignalled(q, event).push(p)
        },
{
    q.lemma_filter_push(p, waits_for(event));
    q.lemma_filter_push(p, waits_for_other(event));
    if p.state == (ProcessState::Waiting { event: Some(event) }) {
        assert(signalled(q.push(p), event) =~= signalled(q, event).push(
            p.with_state(ProcessState::Ready),
        ));
    }
}

/// The least sleep of a queue that grows by one sleeper.
pub proof fn lemma_min_sleep_push(q: Seq<ProcessView>, p: ProcessView)
    ensures
        min_sleep(q.push(p)) == if q.len() == 0 || p.sleep_remaining < min_sleep(q) {
            p.sleep_remaining
        } else {
            min_sleep(q)
        },
{
    assert(q.push(p).drop_last() =~= q);
}

/// The count of an identifier in a queue that grows by one process.
pub proof fn lemma_count_push(q: Seq<ProcessView>, p: ProcessView, pid: nat)
    ensures
        count_pid(q.push(p), pid) == count_pid(q, pid) + if p.pid == pid {
            1nat
        } else {
            0nat
        },
        count_pid(Seq::empty(), pid) == 0,
{
    assert(q.push(p).drop_last() =~= q);
}

/// A process that passed a filter stands in the queue that was filtered.
pub proof fn lemma_filter_source<A>(q: Seq<A>, pred: spec_fn(A) -> bool, j: int) -> (i: int)
    requires
        0 <= j < q.filter(pred).len(),
    ensures
        0 <= i < q.len(),
        q[i] == q.filter(pred)[j],
        pred(q[i]),
{
    q.lemma_filter_pred(pred, j);
    let x = q.filter(pred)[j];
    assert(q.filter(pred).contains(x));
    q.lemma_filter_contains_rev(pred, x);
    choose|i: int| 0 <= i < q.len() && q[i] == x
}

/// Every sleeper that is due was a sleeper with no more than `ticks` ticks left.
pub proof fn lemma_due_source(q: Seq<ProcessView>, ticks: nat, j: int) -> (i: int)
    requires
        0 <= j < due(q, ticks).len(),
    ensures
        0 <= i < q.len(),
        q[i].sleep_remaining <= ticks,
        due(q, ticks)[j] == q[i].woken(),
{
    lemma_filter_source(q, is_due(ticks), j)
}

/// Every sleeper that is pending was a sleeper with more than `ticks` ticks left.
pub proof fn lemma_pending_source(q: Seq<ProcessView>, ticks: nat, j: int) -> (i: int)
    requires
        0 <= j < pending(q, ticks).len(),
    ensures
        0 <= i < q.len(),
        q[i].sleep_remaining > ticks,
        pending(q, ticks)[j] == q[i].slept(ticks),
{
    lemma_filter_source(q, is_pending(ticks), j)
}

/// Every process that a signal wakes waited for the event.
pub proof fn lemma_signalled_source(q: Seq<ProcessView>, event: usize, j: int) -> (i: int)
    requires
        0 <= j < signalled(q, event).len(),
    ensures
        0 <= i < q.len(),
        q[i].state == (ProcessState::Waiting { event: Some(event) }),
        signalled(q, event)[j] == q[i].with_state(ProcessState::Ready),
{
    lemma_filter_source(q, waits_for(event), j)
}

/// Every process that a signal leaves was a waiter for something else.
pub proof fn lemma_unsignalled_source(q: Seq<ProcessView>, event: usize, j: int) -> (i: int)
    requires
        0 <= j < unsignalled(q, event).len(),
    ensures
        0 <= i < q.len(),
        q[i].state != (ProcessState::Waiting { event: Some(event) }),
        unsignalled(q, event)[j] == q[i],
{
    lemma_filter_source(q, waits_for_other(event), j)
}

/// The count of an identifier in two queues put together.
pub proof fn lemma_count_concat(a: Seq<ProcessView>, b: Seq<ProcessView>, pid: nat)
    ensures
        count_pid(a + b, pid) == count_pid(a, pid) + count_pid(b, pid),
    decreases b.len(),
{
    if b.len() == 0 {
        assert(a + b =~= a);
    } else {
        assert((a + b).drop_last() =~= a + b.drop_last());
        lemma_count_concat(a, b.drop_last(), pid);
    }
}

/// The count of an identifier in a queue of one process.
pub proof fn lemma_count_one(p: ProcessView, pid: nat)
    ensures
        count_pid(seq![p], pid) == if p.pid == pid {
            1nat
        } else {
            0nat
        },
{
    assert(seq![p] =~= Seq::<ProcessView>::empty().push(p));
    lemma_count_push(Seq::empty(), p, pid);
}

/// The count of an identifier in a queue without its first process.
pub proof fn lemma_count_drop_first(q: Seq<ProcessView>, pid: nat)
    requires
        q.len() > 0,
    ensures
        count_pid(q, pid) == count_pid(q.drop_first(), pid) + if q[0].pid == pid {
            1nat
        } else {
            0nat
        },
{
    assert(q =~= seq![q[0]] + q.drop_first());
    lemma_count_concat(seq![q[0]], q.drop_first(), pid);
    lemma_count_one(q[0], pid);
}

/// Two queues with the same identifiers at the same places count alike.
pub proof fn lemma_count_same_pids(q: Seq<ProcessView>, r: Seq<ProcessView>, pid: nat)
    requires
        q.len() == r.len(),
        forall|i: int| 0 <= i < q.len() ==> (#[trigger] q[i]).pid == r[i].pid,
    ensures
        count_pid(q, pid) == count_pid(r, pid),
    decreases q.len(),
{
    if q.len() > 0 {
        assert forall|i: int| 0 <= i < q.drop_last().len() implies (#[trigger] q.drop_last()[i]).pid
            == r.drop_last()[i].pid by {
            assert(q[i].pid == r[i].pid);
        }
        lemma_count_same_pids(q.drop_last(), r.drop_last(), pid);
        assert(q[q.len() - 1].pid == r[q.len() - 1].pid);
    }
}

/// An identifier that no process of the queue has counts 0.
pub proof fn lemma_count_none(q: Seq<ProcessView>, pid: nat)
    requires
        forall|i: int| 0 <= i < q.len() ==> (#[trigger] q[i]).pid != pid,
    ensures
        count_pid(q, pid) == 0,
    decreases q.len(),
{
    if q.len() > 0 {
        assert forall|i: int| 0 <= i < q.drop_last().len() implies (#[trigger] q.drop_last()[i]).pid
            != pid by {
            assert(q[i].pid != pid);
        }
        lemma_count_none(q.drop_last(), pid);
        assert(q[q.len() - 1].pid != pid);
    }
}

/// An identifier that a process of the queue has counts at least 1.
pub proof fn lemma_count_some(q: Seq<ProcessView>, pid: nat, i: int)
    requires
        0 <= i < q.len(),
        q[i].pid == pid,
    ensures
        count_pid(q, pid) >= 1,
    decreases q.len(),
{
    if i < q.len() - 1 {
        assert(q.drop_last()[i] == q[i]);
        lemma_count_some(q.drop_last(), pid, i);
    }
}

/// The sleepers that are due and those that are pending are all the sleepers.
pub proof fn lemma_count_sleepers(q: Seq<ProcessView>, ticks: nat, pid: nat)
    ensures
        count_pid(due(q, ticks), pid) + count_pid(pending(q, ticks), pid) == count_pid(q, pid),
    decreases q.len(),
{
    if q.len() == 0 {
        assert(q =~= Seq::<ProcessView>::empty());
        lemma_sleepers_empty(ticks);
    } else {
        let init = q.drop_last();
        let last = q.last();
        assert(q =~= init.push(last));
        lemma_count_sleepers(init, ticks, pid);
        lemma_sleepers_push(init, last, ticks);
        lemma_count_push(due(init, ticks), last.woken(), pid);
        lemma_count_push(pending(init, ticks), last.slept(ticks), pid);
    }
}

/// The waiters that a signal wakes and those that it leaves are all the waiters.
pub proof fn lemma_count_waiters(q: Seq<ProcessView>, event: usize, pid: nat)
    ensures
        count_pid(signalled(q, event), pid) + count_pid(unsignalled(q, event), pid) == count_pid(
            q,
            pid,
        ),
    decreases q.len(),
{
    if q.len() == 0 {
        assert(q =~= Seq::<ProcessView>::empty());
        lemma_waiters_empty(event);
    } else {
        let init = q.drop_last();
        let last = q.last();
        assert(q =~= init.push(last));
        lemma_count_waiters(init, event, pid);
        lemma_waiters_push(init, last, event);
        lemma_count_push(signalled(init, event), last.with_state(ProcessState::Ready), pid);
        lemma_count_push(unsignalled(init, event), last, pid);
    }
}

/// The sleepers of two queues put together that are due are those of the
/// first queue, then those of the second.
pub proof fn lemma_due_concat(a: Seq<ProcessView>, b: Seq<ProcessView>, ticks: nat)
    ensures
        due(a + b, ticks) == due(a, ticks) + due(b, ticks),
{
    Seq::filter_distributes_over_add(a, b, is_due(ticks));
    assert(due(a + b, ticks) =~= due(a, ticks) + due(b, ticks));
}

/// An identifier that two processes of the queue have counts at least 2.
pub proof fn lemma_count_two(q: Seq<ProcessView>, pid: nat, i: int, j: int)
    requires
        0 <= i < j < q.len(),
        q[i].pid == pid,
        q[j].pid == pid,
    ensures
        count_pid(q, pid) >= 2,
    decreases q.len(),
{
    if j == q.len() - 1 {
        assert(q.drop_last()[i] == q[i]);
        lemma_count_some(q.drop_last(), pid, i);
    } else {
        assert(q.drop_last()[i] == q[i]);
        assert(q.drop_last()[j] == q[j]);
        lemma_count_two(q.drop_last(), pid, i, j);
    }
}

/// Two processes that passed a filter stand in the filtered queue in the
/// order in which they passed.
pub proof fn lemma_filter_order<A>(q: Seq<A>, pred: spec_fn(A) -> bool, i: int, j: int) -> (ab: (
    int,
    int,
))
    requires
        0 <= i < j < q.filter(pred).len(),
    ensures
        0 <= ab.0 < ab.1 < q.len(),
        q[ab.0] == q.filter(pred)[i],
        q[ab.1] == q.filter(pred)[j],
    decreases q.len(),
{
    q.lemma_filter_len(pred);
    let init = q.drop_last();
    let last = q.last();
    assert(q =~= init.push(last));
    init.lemma_filter_push(last, pred);
    if pred(last) && j == init.filter(pred).len() {
        let a = lemma_filter_source(init, pred, i);
        (a, q.len() - 1)
    } else {
        let ab = lemma_filter_order(init, pred, i, j);
        ab
    }
}

/// The waiters that a signal wakes stand in the order in which they waited.
pub proof fn lemma_signalled_order(q: Seq<ProcessView>, event: usize, i: int, j: int) -> (ab: (
    int,
    int,
))
    requires
        0 <= i < j < signalled(q, event).len(),
    ensures
        0 <= ab.0 < ab.1 < q.len(),
        signalled(q, event)[i] == q[ab.0].with_state(ProcessState::Ready),
        signalled(q, event)[j] == q[ab.1].with_state(ProcessState::Ready),
        q[ab.0].state == (ProcessState::Waiting { event: Some(event) }),
        q[ab.1].state == (ProcessState::Waiting { event: Some(event) }),
{
    q.filter(waits_for(event)).lemma_filter_len(waits_for(event));
    q.lemma_filter_pred(waits_for(event), i);
    q.lemma_filter_pred(waits_for(event), j);
    lemma_filter_order(q, waits_for(event), i, j)
}

/// The waiters that a signal leaves stand in the order in which they waited.
pub proof fn lemma_unsignalled_order(q: Seq<ProcessView>, event: usize, i: int, j: int) -> (ab: (
    int,
    int,
))
    requires
        0 <= i < j < unsignalled(q, event).len(),
    ensures
        0 <= ab.0 < ab.1 < q.len(),
        unsignalled(q, event)[i] == q[ab.0],
        unsignalled(q, event)[j] == q[ab.1],
{
    lemma_filter_order(q, waits_for_other(event), i, j)
}

} // verus!
