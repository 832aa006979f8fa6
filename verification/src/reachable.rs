//! The engines that a driver can reach from a new one, and what holds of all of them.

use vstd::prelude::*;
use crate::laws::{
    law_initial_state, law_next_keeps_invariant, law_stop_keeps_invariant, law_stop_keeps_timings,
};
use crate::model::EngineView;
use crate::scheduler::StopReason;

verus! {

/// What a driver does with the engine.
pub enum Step {
    /// It asks for the next decision.
    Next,
    /// It reports a stop.
    Stop(StopReason),
}

impl EngineView {
    /// The state after the step.
    pub open spec fn after(self, step: Step) -> EngineView {
        match step {
            Step::Next => self.after_next(),
            Step::Stop(reason) => self.after_stop(reason),
        }
    }

    /// Whether the engine takes the step: any request for a decision, and the
    /// stops that it admits.
    pub open spec fn takes(self, step: Step) -> bool {
        match step {
            Step::Next => true,
            Step::Stop(reason) => self.admits(reason),
        }
    }

    /// Whether the step is no system call that a process is charged for
    /// after no time at all.
    pub open spec fn timely(self, step: Step) -> bool {
        match step {
            Step::Next => true,
            Step::Stop(reason) => {
                ||| reason is Expired
                ||| reason matches StopReason::Syscall { remaining, .. } && remaining
                    < self.quantum
                ||| self.charged(reason).ready.len() == 0
            },
        }
    }

    /// The state after the steps, one after the other.
    pub open spec fn after_all(self, steps: Seq<Step>) -> EngineView
        decreases steps.len(),
    {
        if steps.len() == 0 {
            self
        } else {
            self.after_all(steps.drop_last()).after(steps.last())
        }
    }

    /// Whether the engine takes every one of the steps in the state that the
    /// steps before it lead to.
    pub open spec fn takes_all(self, steps: Seq<Step>) -> bool {
        forall|k: int|
            0 <= k < steps.len() ==> self.after_all(#[trigger] steps.take(k)).takes(steps[k])
    }

    /// Whether every one of the steps is timely in the state that the steps
    /// before it lead to.
    pub open spec fn all_timely(self, steps: Seq<Step>) -> bool {
        forall|k: int|
            0 <= k < steps.len() ==> self.after_all(#[trigger] steps.take(k)).timely(steps[k])
    }
}

/// Every engine that is reached from a new one by steps that it takes meets
/// the invariant: at most the first ready process runs, the waiting queue
/// holds waiters for events and the sleep queue sleepers, and the identifiers
/// in the queues are distinct and were handed out. If every step was timely,
/// processor time and system calls are within the total time of every process.
pub proof fn law_reachable(quantum: nat, min_remaining: nat, steps: Seq<Step>)
    requires
        quantum > 0,
        EngineView::initial(quantum, min_remaining).takes_all(steps),
    ensures
        EngineView::initial(quantum, min_remaining).after_all(steps).inv(),
        EngineView::initial(quantum, min_remaining).all_timely(steps) ==> EngineView::initial(
            quantum,
            min_remaining,
        ).after_all(steps).timings_consistent(),
    decreases steps.len(),
{
    let first = EngineView::initial(quantum, min_remaining);
    if steps.len() == 0 {
        law_initial_state(quantum, min_remaining);
    } else {
        let before = steps.drop_last();
        let last = steps.last();
        assert(steps.take(steps.len() - 1) == before);
        assert forall|k: int| 0 <= k < before.len() implies first.after_all(
            #[trigger] before.take(k),
        ).takes(before[k]) by {
            assert(before.take(k) == steps.take(k));
        }
        law_reachable(quantum, min_remaining, before);
        let s = first.after_all(before);
        assert(s.takes(last));
        match last {
            Step::Next => {
                law_next_keeps_invariant(s);
            },
            Step::Stop(reason) => {
                law_stop_keeps_invariant(s, reason);
            },
        }
        if first.all_timely(steps) {
            assert forall|k: int| 0 <= k < before.len() implies first.after_all(
                #[trigger] before.take(k),
            ).timely(before[k]) by {
                assert(before.take(k) == steps.take(k));
            }
            assert(s.timely(last));
            match last {
                Step::Next => {},
                Step::Stop(reason) => {
                    law_stop_keeps_timings(s, reason);
                },
            }
        }
    }
}

} // verus!
