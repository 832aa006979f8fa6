//! A simulated process scheduler.
//!
//! The engine consumes the stop events that a driver reports and answers
//! with scheduling decisions. Every transition is stated over a mathematical
//! model of the engine and proved against it.

use vstd::prelude::*;
use std::collections::VecDeque;

pub mod invariants;
pub mod laws;
pub mod listing;
pub mod model;
pub mod process;
pub mod queue;
pub mod reachable;
pub mod queue_lemmas;
pub mod scheduler;
pub mod schedulers;

pub use crate::model::EngineView;
pub use crate::process::{Pid, ProcessInfo, ProcessState, ProcessView};
pub use crate::scheduler::{SchedulingDecision, StopReason, Syscall, SyscallResult};
pub use crate::schedulers::{RoundRobin, CFS};

verus! {

/// Makes a round-robin scheduler that holds no process yet.
///
/// * `timeslice` - the ticks that a process may run before it is preempted;
///   a time slice of no ticks is rejected
/// * `minimum_remaining_timeslice` - after a fork or a signal the unused rest
///   of the time slice is the next time slice if it is at least this long;
///   else the next time slice is `timeslice` again
pub fn round_robin(timeslice: usize, minimum_remaining_timeslice: usize) -> (scheduler: Option<
    RoundRobin,
>)
    ensures
        scheduler is None <==> timeslice == 0,
        scheduler matches Some(rr) ==> {
            &&& rr@ == EngineView::initial(timeslice as nat, minimum_remaining_timeslice as nat)
            &&& rr.wf()
            &&& rr.can_reconcile()
        },
{
    if timeslice == 0 {
        return None;
    }
    let rr = RoundRobin {
        ready_q: VecDeque::new(),
        wait_q: VecDeque::new(),
        sleep_q: VecDeque::new(),
        timeslice,
        minimum_remaining_timeslice,
        init_pid: 0,
        panic_state: false,
        sleep_time: 0,
        default_timeslice: timeslice,
    };
    proof {
        crate::laws::law_initial_state(timeslice as nat, minimum_remaining_timeslice as nat);
        assert(rr@.ready =~= Seq::<ProcessView>::empty());
        assert(rr@.waiting =~= Seq::<ProcessView>::empty());
        assert(rr@.sleeping =~= Seq::<ProcessView>::empty());
    }
    Some(rr)
}

} // verus!
