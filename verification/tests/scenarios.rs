use scheduler::{
    round_robin, Pid, ProcessState, RoundRobin, SchedulingDecision, StopReason, Syscall,
    SyscallResult,
};

fn engine(timeslice: usize, minimum_remaining: usize) -> RoundRobin {
    round_robin(timeslice, minimum_remaining).unwrap()
}

fn call(syscall: Syscall, remaining: usize) -> StopReason {
    StopReason::Syscall { syscall, remaining }
}

fn run(pid: usize, timeslice: usize) -> SchedulingDecision {
    SchedulingDecision::Run { pid: Pid::new(pid), timeslice }
}

fn pids(rr: &RoundRobin) -> (Vec<usize>, Vec<usize>, Vec<usize>) {
    (
        rr.ready_q.iter().map(|p| p.pid.0).collect(),
        rr.wait_q.iter().map(|p| p.pid.0).collect(),
        rr.sleep_q.iter().map(|p| p.pid.0).collect(),
    )
}

fn states(rr: &RoundRobin) -> Vec<(usize, ProcessState)> {
    rr.ready_q.iter().map(|p| (p.pid.0, p.state)).collect()
}

#[test]
fn single_init_exits_cleanly() {
    let mut rr = engine(5, 1);
    assert_eq!(rr.stop(call(Syscall::Fork(0), 5)), SyscallResult::Pid(Pid::new(1)));
    assert_eq!(rr.next(), run(1, 5));
    assert_eq!(rr.stop(call(Syscall::Exit, 2)), SyscallResult::Success);
    assert_eq!(rr.next(), SchedulingDecision::Done);
}

#[test]
fn panic_when_init_exits_with_live_child() {
    let mut rr = engine(5, 1);
    assert_eq!(rr.stop(call(Syscall::Fork(0), 5)), SyscallResult::Pid(Pid::new(1)));
    assert_eq!(rr.next(), run(1, 5));
    assert_eq!(rr.stop(call(Syscall::Fork(0), 0)), SyscallResult::Pid(Pid::new(2)));
    assert_eq!(rr.next(), run(1, 5));
    assert_eq!(rr.stop(call(Syscall::Exit, 1)), SyscallResult::Success);
    assert_eq!(pids(&rr), (vec![2], vec![], vec![]));
    assert_eq!(rr.next(), SchedulingDecision::Panic);
    assert_eq!(rr.next(), SchedulingDecision::Panic);
}

#[test]
fn a_fork_with_enough_left_hands_the_rest_to_the_next_process() {
    let mut rr = engine(5, 1);
    assert_eq!(rr.stop(call(Syscall::Fork(0), 5)), SyscallResult::Pid(Pid::new(1)));
    assert_eq!(rr.next(), run(1, 5));
    assert_eq!(rr.stop(call(Syscall::Fork(0), 3)), SyscallResult::Pid(Pid::new(2)));
    assert_eq!(states(&rr), vec![(1, ProcessState::Running), (2, ProcessState::Ready)]);
    assert_eq!(rr.ready_q[0].timings, (2, 1, 1));
    assert_eq!(rr.ready_q[1].timings, (0, 0, 0));
    assert_eq!(rr.next(), run(2, 3));
    assert_eq!(rr.stop(call(Syscall::Exit, 3)), SyscallResult::Success);
    assert_eq!(pids(&rr), (vec![1], vec![], vec![]));
    assert_eq!(rr.next(), run(1, 5));
}

#[test]
fn deadlock_when_all_wait() {
    let mut rr = engine(5, 1);
    assert_eq!(rr.stop(call(Syscall::Fork(0), 5)), SyscallResult::Pid(Pid::new(1)));
    assert_eq!(rr.next(), run(1, 5));
    assert_eq!(rr.stop(call(Syscall::Fork(0), 4)), SyscallResult::Pid(Pid::new(2)));
    assert_eq!(rr.next(), run(2, 4));
    assert_eq!(rr.stop(call(Syscall::Wait(7), 4)), SyscallResult::Success);
    assert_eq!(rr.next(), run(1, 5));
    assert_eq!(rr.stop(call(Syscall::Wait(7), 4)), SyscallResult::Success);
    assert_eq!(rr.next(), SchedulingDecision::Deadlock);
}

#[test]
fn sleepers_share_one_idle_step() {
    let mut rr = engine(5, 1);
    assert_eq!(rr.stop(call(Syscall::Fork(0), 5)), SyscallResult::Pid(Pid::new(1)));
    assert_eq!(rr.next(), run(1, 5));
    assert_eq!(rr.stop(call(Syscall::Fork(0), 4)), SyscallResult::Pid(Pid::new(2)));
    assert_eq!(rr.next(), run(2, 4));
    assert_eq!(rr.stop(call(Syscall::Sleep(5), 4)), SyscallResult::Success);
    assert_eq!(rr.next(), run(1, 5));
    assert_eq!(rr.stop(call(Syscall::Sleep(3), 5)), SyscallResult::Success);
    assert_eq!(rr.next(), SchedulingDecision::Sleep(3));
    assert_eq!(rr.sleep_time, 3);
    assert_eq!(rr.next(), run(1, 5));
    assert_eq!(pids(&rr), (vec![1], vec![], vec![2]));
    assert_eq!(rr.sleep_q[0].sleep_time, 2);
    assert_eq!(rr.sleep_time, 0);
}

#[test]
fn signal_wakes_waiters_in_their_order() {
    let mut rr = engine(5, 1);
    assert_eq!(rr.stop(call(Syscall::Fork(0), 5)), SyscallResult::Pid(Pid::new(1)));
    assert_eq!(rr.next(), run(1, 5));
    assert_eq!(rr.stop(call(Syscall::Fork(0), 4)), SyscallResult::Pid(Pid::new(2)));
    assert_eq!(rr.next(), run(2, 4));
    assert_eq!(rr.stop(call(Syscall::Fork(0), 4)), SyscallResult::Pid(Pid::new(3)));
    assert_eq!(rr.next(), run(1, 4));
    assert_eq!(rr.stop(call(Syscall::Fork(0), 4)), SyscallResult::Pid(Pid::new(4)));
    assert_eq!(rr.next(), run(3, 4));
    assert_eq!(rr.stop(call(Syscall::Wait(42), 2)), SyscallResult::Success);
    assert_eq!(rr.next(), run(2, 5));
    assert_eq!(rr.stop(call(Syscall::Wait(42), 2)), SyscallResult::Success);
    assert_eq!(rr.next(), run(4, 5));
    assert_eq!(rr.stop(call(Syscall::Wait(42), 2)), SyscallResult::Success);
    assert_eq!(pids(&rr), (vec![1], vec![3, 2, 4], vec![]));
    assert_eq!(rr.next(), run(1, 5));
    assert_eq!(rr.stop(call(Syscall::Signal(42), 0)), SyscallResult::Success);
    assert_eq!(rr.next(), run(3, 5));
    assert_eq!(pids(&rr), (vec![3, 2, 4, 1], vec![], vec![]));
    assert_eq!(
        states(&rr),
        vec![
            (3, ProcessState::Running),
            (2, ProcessState::Ready),
            (4, ProcessState::Ready),
            (1, ProcessState::Ready)
        ]
    );
}

#[test]
fn signal_leaves_other_waiters() {
    let mut rr = engine(5, 1);
    rr.stop(call(Syscall::Fork(0), 5));
    rr.next();
    rr.stop(call(Syscall::Fork(0), 4));
    assert_eq!(rr.next(), run(2, 4));
    rr.stop(call(Syscall::Fork(0), 4));
    assert_eq!(rr.next(), run(1, 4));
    assert_eq!(rr.stop(call(Syscall::Wait(7), 2)), SyscallResult::Success);
    assert_eq!(rr.next(), run(3, 5));
    assert_eq!(rr.stop(call(Syscall::Wait(8), 2)), SyscallResult::Success);
    assert_eq!(rr.next(), run(2, 5));
    assert_eq!(rr.stop(call(Syscall::Signal(8), 0)), SyscallResult::Success);
    assert_eq!(pids(&rr), (vec![3, 2], vec![1], vec![]));
    assert_eq!(rr.wait_q[0].state, ProcessState::Waiting { event: Some(7) });
    assert_eq!(rr.next(), run(3, 5));
}

#[test]
fn signal_with_enough_left_keeps_the_slice() {
    let mut rr = engine(10, 3);
    assert_eq!(rr.stop(call(Syscall::Fork(0), 10)), SyscallResult::Pid(Pid::new(1)));
    assert_eq!(rr.next(), run(1, 10));
    assert_eq!(rr.stop(call(Syscall::Signal(1), 7)), SyscallResult::Success);
    assert_eq!(states(&rr), vec![(1, ProcessState::Running)]);
    assert_eq!(rr.timeslice, 7);
    assert_eq!(rr.next(), run(1, 7));
}

#[test]
fn signal_with_enough_left_puts_the_sender_first_and_running() {
    let mut rr = engine(10, 3);
    rr.stop(call(Syscall::Fork(0), 10));
    rr.next();
    rr.stop(call(Syscall::Fork(0), 9));
    assert_eq!(rr.next(), run(2, 9));
    assert_eq!(rr.stop(call(Syscall::Wait(9), 5)), SyscallResult::Success);
    assert_eq!(rr.next(), run(1, 10));
    assert_eq!(rr.stop(call(Syscall::Signal(9), 7)), SyscallResult::Success);
    assert_eq!(states(&rr), vec![(1, ProcessState::Running), (2, ProcessState::Ready)]);
    assert_eq!(rr.timeslice, 7);
    assert_eq!(rr.next(), run(2, 7));
    assert_eq!(states(&rr), vec![(2, ProcessState::Running), (1, ProcessState::Ready)]);
    assert_eq!(rr.stop(StopReason::Expired), SyscallResult::Success);
    assert_eq!(rr.next(), run(1, 10));
}

#[test]
fn signal_with_too_little_left_goes_to_the_back() {
    let mut rr = engine(10, 3);
    rr.stop(call(Syscall::Fork(0), 10));
    rr.next();
    rr.stop(call(Syscall::Fork(0), 9));
    assert_eq!(rr.next(), run(2, 9));
    assert_eq!(rr.stop(call(Syscall::Wait(9), 5)), SyscallResult::Success);
    assert_eq!(rr.next(), run(1, 10));
    assert_eq!(rr.stop(call(Syscall::Signal(9), 2)), SyscallResult::Success);
    assert_eq!(states(&rr), vec![(2, ProcessState::Ready), (1, ProcessState::Ready)]);
    assert_eq!(rr.timeslice, 10);
    assert_eq!(rr.next(), run(2, 10));
}

#[test]
fn fork_with_enough_left_leaves_the_caller_running() {
    let mut rr = engine(10, 3);
    rr.stop(call(Syscall::Fork(0), 10));
    assert_eq!(rr.next(), run(1, 10));
    assert_eq!(rr.stop(call(Syscall::Fork(4), 3)), SyscallResult::Pid(Pid::new(2)));
    assert_eq!(states(&rr), vec![(1, ProcessState::Running), (2, ProcessState::Ready)]);
    assert_eq!(rr.ready_q[0].timings, (7, 1, 6));
    assert_eq!(rr.ready_q[1].priority, 4);
    assert_eq!(rr.timeslice, 3);
    assert_eq!(rr.next(), run(2, 3));
    assert_eq!(states(&rr), vec![(2, ProcessState::Running), (1, ProcessState::Ready)]);
}

#[test]
fn fork_with_too_little_left_makes_the_caller_ready_again() {
    let mut rr = engine(10, 3);
    rr.stop(call(Syscall::Fork(0), 10));
    assert_eq!(rr.next(), run(1, 10));
    assert_eq!(rr.stop(call(Syscall::Fork(0), 2)), SyscallResult::Pid(Pid::new(2)));
    assert_eq!(states(&rr), vec![(1, ProcessState::Ready), (2, ProcessState::Ready)]);
    assert_eq!(rr.ready_q[0].timings, (8, 1, 7));
    assert_eq!(rr.timeslice, 10);
    assert_eq!(rr.next(), run(1, 10));
    assert_eq!(states(&rr), vec![(1, ProcessState::Running), (2, ProcessState::Ready)]);
}

#[test]
fn a_fork_with_the_whole_slice_below_the_least_rest_keeps_the_caller() {
    let mut rr = engine(5, 5);
    rr.stop(call(Syscall::Fork(0), 5));
    assert_eq!(rr.next(), run(1, 5));
    assert_eq!(rr.stop(call(Syscall::Fork(0), 4)), SyscallResult::Pid(Pid::new(2)));
    assert_eq!(states(&rr), vec![(1, ProcessState::Ready), (2, ProcessState::Ready)]);
    assert_eq!(rr.next(), run(1, 5));
}

#[test]
fn expiry_rotates_the_ready_queue() {
    let mut rr = engine(4, 1);
    rr.stop(call(Syscall::Fork(0), 4));
    rr.next();
    rr.stop(call(Syscall::Fork(0), 3));
    assert_eq!(rr.next(), run(2, 3));
    rr.stop(call(Syscall::Fork(0), 3));
    assert_eq!(rr.next(), run(1, 3));
    assert_eq!(rr.stop(StopReason::Expired), SyscallResult::Success);
    assert_eq!(rr.next(), run(3, 4));
    assert_eq!(rr.stop(StopReason::Expired), SyscallResult::Success);
    assert_eq!(rr.next(), run(2, 4));
    assert_eq!(rr.stop(StopReason::Expired), SyscallResult::Success);
    assert_eq!(rr.next(), run(1, 4));
}

#[test]
fn a_single_process_runs_again_after_expiry() {
    let mut rr = engine(4, 1);
    rr.stop(call(Syscall::Fork(0), 4));
    assert_eq!(rr.next(), run(1, 4));
    assert_eq!(rr.stop(StopReason::Expired), SyscallResult::Success);
    assert_eq!(rr.next(), run(1, 4));
    assert_eq!(rr.next(), run(1, 4));
    assert_eq!(rr.ready_q[0].timings, (4, 0, 4));
}
