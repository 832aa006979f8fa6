use std::collections::VecDeque;

use scheduler::listing::{insert_all, insert_by_pid};
use scheduler::queue::{
    age_queue, first_due, holds_pid, least_sleep, rest_queue, totals_have_room, wake_sleepers,
    wake_waiters,
};
use scheduler::{
    round_robin, Pid, ProcessInfo, ProcessState, RoundRobin, SchedulingDecision, StopReason,
    Syscall, SyscallResult,
};

fn engine(timeslice: usize, minimum_remaining: usize) -> RoundRobin {
    round_robin(timeslice, minimum_remaining).unwrap()
}

fn call(syscall: Syscall, remaining: usize) -> StopReason {
    StopReason::Syscall { syscall, remaining }
}

fn record(pid: usize, state: ProcessState, total: usize, sleep_time: usize) -> ProcessInfo {
    ProcessInfo {
        pid: Pid::new(pid),
        state,
        timings: (total, 0, 0),
        priority: 0,
        sleep_time,
        extra: String::new(),
    }
}

fn asleep(pid: usize, total: usize, sleep_time: usize) -> ProcessInfo {
    record(pid, ProcessState::Waiting { event: None }, total, sleep_time)
}

fn waiting(pid: usize, event: usize) -> ProcessInfo {
    record(pid, ProcessState::Waiting { event: Some(event) }, 0, 0)
}

fn summary(q: &VecDeque<ProcessInfo>) -> Vec<(usize, ProcessState, usize, usize)> {
    q.iter().map(|p| (p.pid.0, p.state, p.timings.0, p.sleep_time)).collect()
}

#[test]
fn a_rest_longer_than_the_slice_is_not_taken() {
    let mut rr = engine(5, 1);
    assert!(rr.can_stop(call(Syscall::Fork(0), 5)));
    assert!(!rr.can_stop(call(Syscall::Fork(0), 6)));
    assert!(!rr.can_stop(call(Syscall::Exit, 6)));
    assert!(rr.can_stop(StopReason::Expired));
    rr.stop(call(Syscall::Fork(0), 5));
    rr.next();
    rr.stop(call(Syscall::Fork(0), 3));
    assert_eq!(rr.timeslice, 3);
    assert!(rr.can_stop(call(Syscall::Wait(1), 3)));
    assert!(!rr.can_stop(call(Syscall::Wait(1), 4)));
}

#[test]
fn an_empty_rest_cannot_become_the_slice() {
    let mut rr = engine(5, 0);
    assert!(!rr.can_stop(call(Syscall::Fork(0), 0)));
    assert!(rr.can_stop(call(Syscall::Signal(1), 0)));
    assert!(rr.can_stop(call(Syscall::Wait(1), 0)));
    rr.stop(call(Syscall::Fork(0), 5));
    rr.next();
    assert!(!rr.can_stop(call(Syscall::Fork(0), 0)));
    assert!(!rr.can_stop(call(Syscall::Signal(1), 0)));
    assert!(rr.can_stop(call(Syscall::Signal(1), 1)));
    assert!(rr.can_stop(call(Syscall::Sleep(1), 0)));
    assert!(rr.can_stop(call(Syscall::Exit, 0)));

    let mut rr = engine(5, 1);
    rr.stop(call(Syscall::Fork(0), 5));
    rr.next();
    assert!(rr.can_stop(call(Syscall::Fork(0), 0)));
    assert!(rr.can_stop(call(Syscall::Signal(1), 0)));
}

#[test]
fn counters_at_their_limit_take_no_more() {
    let mut rr = engine(5, 1);
    rr.stop(call(Syscall::Fork(0), 5));
    rr.next();
    assert!(rr.can_stop(StopReason::Expired));
    rr.ready_q[0].timings = (usize::MAX - 4, 0, 0);
    assert!(!rr.can_stop(StopReason::Expired));
    assert!(rr.can_stop(call(Syscall::Exit, 1)));
    assert!(!rr.can_stop(call(Syscall::Exit, 0)));
    rr.ready_q[0].timings = (usize::MAX - 5, 0, usize::MAX - 4);
    assert!(!rr.can_stop(StopReason::Expired));
    assert!(rr.can_stop(call(Syscall::Exit, 0)));
    rr.ready_q[0].timings = (usize::MAX - 5, usize::MAX, 0);
    assert!(rr.can_stop(StopReason::Expired));
    assert!(!rr.can_stop(call(Syscall::Exit, 0)));
    rr.ready_q[0].timings = (0, 0, 0);
    rr.init_pid = usize::MAX;
    assert!(!rr.can_stop(call(Syscall::Fork(0), 1)));
    assert!(rr.can_stop(call(Syscall::Exit, 1)));
}

#[test]
fn a_sleeper_that_wakes_is_charged_for_the_stop() {
    let mut rr = engine(5, 1);
    rr.init_pid = 1;
    rr.sleep_q.push_back(asleep(1, 0, 2));
    assert!(rr.can_stop(StopReason::Expired));
    rr.sleep_q[0].timings = (0, 0, usize::MAX - 4);
    assert!(!rr.can_stop(StopReason::Expired));
    assert!(rr.can_stop(call(Syscall::Exit, 4)));
    rr.sleep_q[0].timings = (usize::MAX - 1, 0, 0);
    assert!(rr.can_stop(call(Syscall::Exit, 4)));
    assert!(!rr.can_stop(call(Syscall::Exit, 3)));
}

#[test]
fn idle_ticks_need_room_in_the_totals() {
    let mut rr = engine(5, 1);
    rr.stop(call(Syscall::Fork(0), 5));
    rr.next();
    rr.stop(call(Syscall::Sleep(7), 4));
    assert!(rr.can_next());
    assert_eq!(rr.next(), SchedulingDecision::Sleep(7));
    assert!(rr.can_next());
    rr.sleep_q[0].timings.0 = usize::MAX - 6;
    assert!(!rr.can_next());
    rr.sleep_q[0].timings.0 = usize::MAX - 7;
    assert!(rr.can_next());
    assert_eq!(rr.next(), SchedulingDecision::Run { pid: Pid::new(1), timeslice: 5 });
    assert_eq!(rr.ready_q[0].timings.0, usize::MAX);

    let mut rr = engine(5, 1);
    rr.init_pid = 1;
    rr.wait_q.push_back(waiting(1, 3));
    rr.wait_q[0].timings.0 = usize::MAX;
    assert!(rr.can_next());
    rr.sleep_time = 1;
    assert!(!rr.can_next());
}

#[test]
fn a_queue_is_searched_for_an_identifier() {
    let mut q = VecDeque::new();
    assert!(!holds_pid(&q, 1));
    q.push_back(asleep(2, 0, 1));
    q.push_back(asleep(5, 0, 1));
    assert!(holds_pid(&q, 2));
    assert!(holds_pid(&q, 5));
    assert!(!holds_pid(&q, 1));
    assert!(!holds_pid(&q, 0));
}

#[test]
fn a_queue_grows_older() {
    let mut q = VecDeque::new();
    age_queue(&mut q, 3);
    assert!(q.is_empty());
    q.push_back(asleep(1, 10, 4));
    q.push_back(asleep(2, 0, 9));
    age_queue(&mut q, 3);
    assert_eq!(
        summary(&q),
        vec![
            (1, ProcessState::Waiting { event: None }, 13, 4),
            (2, ProcessState::Waiting { event: None }, 3, 9)
        ]
    );
    assert!(totals_have_room(&q, usize::MAX - 13));
    assert!(!totals_have_room(&q, usize::MAX - 12));
    assert!(totals_have_room(&VecDeque::new(), usize::MAX));
}

#[test]
fn sleepers_rest_and_the_least_is_found() {
    let mut q = VecDeque::new();
    assert_eq!(least_sleep(&q), 0);
    q.push_back(asleep(1, 10, 4));
    q.push_back(asleep(2, 0, 2));
    q.push_back(asleep(3, 0, 9));
    assert_eq!(least_sleep(&q), 2);
    rest_queue(&mut q, 2);
    assert_eq!(
        summary(&q),
        vec![
            (1, ProcessState::Waiting { event: None }, 10, 2),
            (2, ProcessState::Waiting { event: None }, 0, 0),
            (3, ProcessState::Waiting { event: None }, 0, 7)
        ]
    );
    rest_queue(&mut q, 5);
    let left: Vec<_> = q.iter().map(|p| p.sleep_time).collect();
    assert_eq!(left, vec![0, 0, 2]);
    assert_eq!(least_sleep(&q), 0);
}

#[test]
fn due_sleepers_join_the_ready_queue_in_their_order() {
    let mut sleepers = VecDeque::new();
    let mut ready = VecDeque::new();
    ready.push_back(record(9, ProcessState::Running, 1, 0));
    sleepers.push_back(asleep(1, 10, 4));
    sleepers.push_back(asleep(2, 20, 5));
    sleepers.push_back(asleep(3, 30, 3));
    sleepers.push_back(asleep(4, 40, 6));
    assert_eq!(first_due(&sleepers, 2).map(|p| p.pid.0), None);
    assert_eq!(first_due(&sleepers, 3).map(|p| p.pid.0), Some(3));
    assert_eq!(first_due(&sleepers, 4).map(|p| p.pid.0), Some(1));
    wake_sleepers(&mut sleepers, &mut ready, 4);
    assert_eq!(
        summary(&sleepers),
        vec![
            (2, ProcessState::Waiting { event: None }, 24, 1),
            (4, ProcessState::Waiting { event: None }, 44, 2)
        ]
    );
    assert_eq!(
        summary(&ready),
        vec![
            (9, ProcessState::Running, 1, 0),
            (1, ProcessState::Ready, 10, 0),
            (3, ProcessState::Ready, 30, 0)
        ]
    );
}

#[test]
fn signalled_waiters_join_the_ready_queue_in_their_order() {
    let mut waiters = VecDeque::new();
    let mut ready = VecDeque::new();
    ready.push_back(record(9, ProcessState::Ready, 1, 0));
    waiters.push_back(waiting(1, 7));
    waiters.push_back(waiting(2, 8));
    waiters.push_back(waiting(3, 7));
    waiters.push_back(asleep(4, 0, 7));
    wake_waiters(&mut waiters, &mut ready, 7);
    let left: Vec<_> = waiters.iter().map(|p| (p.pid.0, p.state)).collect();
    assert_eq!(
        left,
        vec![
            (2, ProcessState::Waiting { event: Some(8) }),
            (4, ProcessState::Waiting { event: None })
        ]
    );
    let woken: Vec<_> = ready.iter().map(|p| (p.pid.0, p.state)).collect();
    assert_eq!(
        woken,
        vec![(9, ProcessState::Ready), (1, ProcessState::Ready), (3, ProcessState::Ready)]
    );
}

#[test]
fn records_are_inserted_by_identifier() {
    let a = asleep(4, 0, 1);
    let b = asleep(2, 0, 1);
    let c = asleep(7, 0, 1);
    let d = asleep(4, 1, 1);
    let mut out: Vec<&ProcessInfo> = Vec::new();
    insert_by_pid(&mut out, &a);
    insert_by_pid(&mut out, &b);
    insert_by_pid(&mut out, &c);
    insert_by_pid(&mut out, &d);
    let order: Vec<_> = out.iter().map(|p| (p.pid.0, p.timings.0)).collect();
    assert_eq!(order, vec![(2, 0), (4, 0), (4, 1), (7, 0)]);

    let mut q = VecDeque::new();
    q.push_back(asleep(5, 0, 1));
    q.push_back(asleep(1, 0, 1));
    q.push_back(asleep(9, 0, 1));
    insert_all(&mut out, &q);
    let order: Vec<_> = out.iter().map(|p| p.pid.0).collect();
    assert_eq!(order, vec![1, 2, 4, 4, 5, 7, 9]);
}

#[test]
fn a_guarded_script_never_leaves_the_accepted_stops() {
    let mut rr = engine(3, 1);
    let script = [
        call(Syscall::Fork(0), 3),
        call(Syscall::Fork(0), 2),
        call(Syscall::Sleep(4), 1),
        StopReason::Expired,
        call(Syscall::Wait(2), 0),
        call(Syscall::Signal(2), 2),
        call(Syscall::Exit, 1),
        call(Syscall::Exit, 1),
    ];
    let mut results = Vec::new();
    for reason in script {
        assert!(rr.can_stop(reason));
        results.push(rr.stop(reason));
        assert!(rr.can_next());
        let mut decision = rr.next();
        while let SchedulingDecision::Sleep(_) = decision {
            assert!(rr.can_next());
            decision = rr.next();
        }
    }
    assert_eq!(
        results,
        vec![
            SyscallResult::Pid(Pid::new(1)),
            SyscallResult::Pid(Pid::new(2)),
            SyscallResult::Success,
            SyscallResult::Success,
            SyscallResult::Success,
            SyscallResult::Success,
            SyscallResult::Success,
            SyscallResult::Success,
        ]
    );
}

#[test]
fn a_copy_of_a_record_holds_the_same() {
    let mut p = asleep(3, 12, 5);
    p.timings = (12, 2, 7);
    p.priority = -4;
    p.extra = String::from("note");
    let copy = p.clone();
    assert_eq!(copy.pid, Pid::new(3));
    assert_eq!(copy.state, ProcessState::Waiting { event: None });
    assert_eq!(copy.timings, (12, 2, 7));
    assert_eq!(copy.priority, -4);
    assert_eq!(copy.sleep_time, 5);
    assert_eq!(copy.extra, "note");
    assert_eq!(copy.extra(), "note");
}

#[test]
fn identifiers_are_ordered_by_their_numbers() {
    let mut pids = vec![Pid::new(3), Pid::new(1), Pid::new(2)];
    pids.sort();
    assert_eq!(pids, vec![Pid::new(1), Pid::new(2), Pid::new(3)]);
    assert!(Pid::new(2) < Pid::new(10));
    assert_eq!(Pid::new(7).value(), 7);
}

#[test]
fn a_stop_that_is_not_accepted_changes_nothing() {
    let mut rr = engine(5, 1);
    assert_eq!(rr.try_stop(call(Syscall::Fork(0), 6)), None);
    assert_eq!(rr.init_pid, 0);
    assert!(rr.ready_q.is_empty());
    assert_eq!(rr.try_stop(call(Syscall::Fork(2), 5)), Some(SyscallResult::Pid(Pid::new(1))));
    assert_eq!(
        rr.try_next(),
        Some(SchedulingDecision::Run { pid: Pid::new(1), timeslice: 5 })
    );
    rr.ready_q[0].timings = (usize::MAX - 2, 7, 3);
    assert_eq!(rr.try_stop(StopReason::Expired), None);
    assert_eq!(rr.try_stop(call(Syscall::Exit, 2)), None);
    assert_eq!(rr.ready_q.len(), 1);
    assert_eq!(rr.ready_q[0].timings, (usize::MAX - 2, 7, 3));
    assert_eq!(rr.ready_q[0].state, ProcessState::Running);
    assert_eq!(rr.timeslice, 5);
    assert_eq!(rr.try_stop(call(Syscall::Sleep(9), 3)), Some(SyscallResult::Success));
    assert_eq!(rr.sleep_q[0].timings, (usize::MAX, 8, 4));
    assert_eq!(rr.try_next(), Some(SchedulingDecision::Sleep(9)));
    assert_eq!(rr.try_next(), None);
    assert_eq!(rr.sleep_time, 9);
    assert_eq!(rr.sleep_q[0].timings, (usize::MAX, 8, 4));
    assert_eq!(rr.sleep_q[0].sleep_time, 0);
}
