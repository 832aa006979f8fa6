//! Snapshots of process records in the order of their identifiers.

use vstd::prelude::*;
use vstd::multiset::{lemma_multiset_empty_len, Multiset};
use vstd::seq_lib::{
    to_multiset_build, to_multiset_contains, to_multiset_insert, to_multiset_len,
};
use std::collections::VecDeque;
use crate::model::count_pid;
use crate::process::{views, ProcessInfo, ProcessView};
use crate::queue_lemmas::{
    lemma_count_concat, lemma_count_one, lemma_count_push, lemma_count_two, lemma_take_next,
};

verus! {

/// The views of the records that a snapshot refers to, in their order.
pub open spec fn ref_views(s: Seq<&ProcessInfo>) -> Seq<ProcessView> {
    s.map_values(|r: &ProcessInfo| r@)
}

/// Whether no process stands before one with a smaller identifier.
pub open spec fn sorted_by_pid(s: Seq<ProcessView>) -> bool {
    forall|i: int, j: int| 0 <= i < j < s.len() ==> s[i].pid <= s[j].pid
}

/// Whether every process stands before those with a greater identifier only.
pub open spec fn ascending_by_pid(s: Seq<ProcessView>) -> bool {
    forall|i: int, j: int| 0 <= i < j < s.len() ==> s[i].pid < s[j].pid
}

/// An empty queue holds no process.
pub proof fn lemma_empty_queue()
    ensures
        Seq::<ProcessView>::empty().to_multiset() == Multiset::<ProcessView>::empty(),
        forall|m: Multiset<ProcessView>| #[trigger]
            m.add(Seq::<ProcessView>::empty().to_multiset()) == m,
        forall|pid: nat| #[trigger] count_pid(Seq::<ProcessView>::empty(), pid) == 0,
{
    let e = Seq::<ProcessView>::empty();
    to_multiset_len(e);
    lemma_multiset_empty_len(e.to_multiset());
    assert(e.to_multiset() =~= Multiset::<ProcessView>::empty());
    assert forall|m: Multiset<ProcessView>| #[trigger] m.add(e.to_multiset()) == m by {
        assert(m.add(e.to_multiset()) =~= m);
    }
}

/// A process of one of two queues that hold the same processes, in whatever
/// order, stands in the other queue too.
pub proof fn lemma_same_processes(a: Seq<ProcessView>, b: Seq<ProcessView>, i: int) -> (j: int)
    requires
        a.to_multiset() == b.to_multiset(),
        0 <= i < a.len(),
    ensures
        0 <= j < b.len(),
        b[j] == a[i],
{
    assert(a.contains(a[i]));
    to_multiset_contains(a, a[i]);
    to_multiset_contains(b, a[i]);
    choose|j: int| 0 <= j < b.len() && b[j] == a[i]
}

/// The count of an identifier in a queue into which one process is inserted.
pub proof fn lemma_count_insert(q: Seq<ProcessView>, k: int, p: ProcessView, pid: nat)
    requires
        0 <= k <= q.len(),
    ensures
        count_pid(q.insert(k, p), pid) == count_pid(q, pid) + if p.pid == pid {
            1nat
        } else {
            0nat
        },
{
    let front = q.take(k);
    let back = q.skip(k);
    assert(q =~= front + back);
    assert(q.insert(k, p) =~= (front + seq![p]) + back);
    lemma_count_concat(front, back, pid);
    lemma_count_concat(front + seq![p], back, pid);
    lemma_count_concat(front, seq![p], pid);
    lemma_count_one(p, pid);
}

/// Processes in the order of their identifiers, none of which occurs twice,
/// stand in strictly ascending order.
pub proof fn lemma_sorted_distinct(s: Seq<ProcessView>)
    requires
        sorted_by_pid(s),
        forall|pid: nat| #[trigger] count_pid(s, pid) <= 1,
    ensures
        ascending_by_pid(s),
{
    assert forall|i: int, j: int| 0 <= i < j < s.len() implies s[i].pid < s[j].pid by {
        if s[i].pid == s[j].pid {
            lemma_count_two(s, s[i].pid, i, j);
            assert(count_pid(s, s[i].pid) <= 1);
        }
    }
}

/// Puts a record into a snapshot that is in the order of the identifiers:
/// behind every record whose identifier is not greater.
pub fn insert_by_pid<'a>(out: &mut Vec<&'a ProcessInfo>, p: &'a ProcessInfo)
    requires
        sorted_by_pid(ref_views(old(out)@)),
    ensures
        sorted_by_pid(ref_views(final(out)@)),
        ref_views(final(out)@).to_multiset() == ref_views(old(out)@).to_multiset().insert(p@),
        forall|pid: nat|
            count_pid(ref_views(final(out)@), pid) == #[trigger] count_pid(
                ref_views(old(out)@),
                pid,
            ) + if p@.pid == pid {
                1nat
            } else {
                0nat
            },
{
    let ghost before = out@;
    let mut k: usize = out.len();
    while k > 0 && out[k - 1].pid.0 > p.pid.0
        invariant
            k <= out@.len(),
            out@ == before,
            forall|j: int| k <= j < out@.len() ==> (#[trigger] ref_views(out@)[j]).pid > p@.pid,
        decreases k,
    {
        k = k - 1;
    }
    assert(k > 0 ==> ref_views(before)[k - 1].pid <= p@.pid);
    out.insert(k, p);
    proof {
        assert(ref_views(out@) =~= ref_views(before).insert(k as int, p@));
        to_multiset_insert(ref_views(before), k as int, p@);
        assert forall|pid: nat|
            count_pid(ref_views(out@), pid) == #[trigger] count_pid(ref_views(before), pid)
                + if p@.pid == pid {
                1nat
            } else {
                0nat
            } by {
            lemma_count_insert(ref_views(before), k as int, p@, pid);
        }
        assert forall|i: int, j: int| 0 <= i < j < out@.len() implies ref_views(out@)[i].pid
            <= ref_views(out@)[j].pid by {
            let old_i = if i < k { i } else { i - 1 };
            let old_j = if j < k { j } else { j - 1 };
            if i != k && j != k {
                assert(ref_views(out@)[i] == ref_views(before)[old_i]);
                assert(ref_views(out@)[j] == ref_views(before)[old_j]);
            } else if i == k {
                assert(ref_views(out@)[j] == ref_views(before)[j - 1]);
            } else {
                assert(ref_views(out@)[i] == ref_views(before)[i]);
                if k > 0 {
                    assert(ref_views(before)[i].pid <= ref_views(before)[k - 1].pid);
                }
            }
        }
    }
}

/// Puts every record of a queue into a snapshot that is in the order of the identifiers.
pub fn insert_all<'a>(out: &mut Vec<&'a ProcessInfo>, q: &'a VecDeque<ProcessInfo>)
    requires
        sorted_by_pid(ref_views(old(out)@)),
    ensures
        sorted_by_pid(ref_views(final(out)@)),
        ref_views(final(out)@).to_multiset() == ref_views(old(out)@).to_multiset().add(
            views(q@).to_multiset(),
        ),
        forall|pid: nat|
            count_pid(ref_views(final(out)@), pid) == #[trigger] count_pid(
                ref_views(old(out)@),
                pid,
            ) + count_pid(views(q@), pid),
{
    let ghost before = ref_views(out@);
    let ghost all = views(q@);
    let n = q.len();
    let mut i: usize = 0;
    proof {
        assert(all.take(0) =~= Seq::<ProcessView>::empty());
        lemma_empty_queue();
    }
    while i < n
        invariant
            n == q@.len(),
            i <= n,
            all == views(q@),
            sorted_by_pid(ref_views(out@)),
            ref_views(out@).to_multiset() == before.to_multiset().add(
                all.take(i as int).to_multiset(),
            ),
            forall|pid: nat|
                count_pid(ref_views(out@), pid) == #[trigger] count_pid(before, pid) + count_pid(
                    all.take(i as int),
                    pid,
                ),
        decreases n - i,
    {
        let ghost so_far = ref_views(out@);
        insert_by_pid(out, &q[i]);
        proof {
            let p = all[i as int];
            lemma_take_next(all, i as int);
            to_multiset_build(all.take(i as int), p);
            assert(before.to_multiset().add(all.take(i as int).to_multiset()).insert(p)
                =~= before.to_multiset().add(all.take(i as int).to_multiset().insert(p)));
            assert forall|pid: nat|
                count_pid(ref_views(out@), pid) == #[trigger] count_pid(before, pid) + count_pid(
                    all.take(i + 1),
                    pid,
                ) by {
                lemma_count_push(all.take(i as int), p, pid);
                assert(count_pid(ref_views(out@), pid) == count_pid(so_far, pid) + if p.pid
                    == pid {
                    1nat
                } else {
                    0nat
                });
                assert(count_pid(so_far, pid) == count_pid(before, pid) + count_pid(
                    all.take(i as int),
                    pid,
                ));
            }
        }
        i = i + 1;
    }
    proof {
        assert(all.take(n as int) =~= all);
    }
}

} // verus!
