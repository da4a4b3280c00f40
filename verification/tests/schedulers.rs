use scheduler::{
    cfs, priority_queue, round_robin, Pid, Process, ProcessState, RoundRobin, Scheduler,
    SchedulingDecision, StopReason, Syscall, SyscallResult, CFS, PCB,
};

fn syscall(syscall: Syscall, remaining: usize) -> StopReason {
    StopReason::Syscall { syscall, remaining }
}

fn run(pid: usize, timeslice: usize) -> SchedulingDecision {
    SchedulingDecision::Run { pid: Pid::new(pid), timeslice }
}

/// The PIDs and states of the processes as the scheduler lists them.
fn listed<S: Scheduler>(scheduler: &mut S) -> Vec<(usize, ProcessState)> {
    scheduler.list().iter().map(|p| (p.pid().get(), p.state())).collect()
}

fn timings<S: Scheduler>(scheduler: &mut S, pid: usize) -> (usize, usize, usize) {
    scheduler.list().iter().find(|p| p.pid().get() == pid).unwrap().timings()
}

#[test]
fn a_new_scheduler_has_nothing_to_do() {
    let mut scheduler = round_robin(3, 1);
    assert!(scheduler.list().is_empty());
    assert_eq!(scheduler.next(), SchedulingDecision::Done);
    assert_eq!(scheduler.next(), SchedulingDecision::Done);
}

#[test]
fn only_a_fork_starts_the_first_process() {
    let mut scheduler = round_robin(3, 1);
    assert_eq!(scheduler.stop(syscall(Syscall::Sleep(5), 0)), SyscallResult::NoRunningProcess);
    assert_eq!(scheduler.stop(syscall(Syscall::Wait(1), 0)), SyscallResult::NoRunningProcess);
    assert_eq!(scheduler.stop(syscall(Syscall::Signal(1), 0)), SyscallResult::NoRunningProcess);
    assert_eq!(scheduler.stop(syscall(Syscall::Exit, 0)), SyscallResult::NoRunningProcess);
    assert!(scheduler.list().is_empty());
    assert_eq!(scheduler.stop(syscall(Syscall::Fork(0), 0)), SyscallResult::Pid(Pid::new(1)));
    assert_eq!(listed(&mut scheduler), vec![(1, ProcessState::Ready)]);
    assert_eq!(timings(&mut scheduler, 1), (0, 0, 0));
    assert_eq!(scheduler.next(), run(1, 3));
    assert_eq!(listed(&mut scheduler), vec![(1, ProcessState::Running)]);
}

#[test]
fn a_stop_without_a_running_process_changes_nothing() {
    let mut scheduler = round_robin(3, 1);
    scheduler.stop(syscall(Syscall::Fork(0), 0));
    // The process is ready, but has not been chosen to run yet.
    assert_eq!(scheduler.stop(syscall(Syscall::Fork(0), 2)), SyscallResult::NoRunningProcess);
    assert_eq!(scheduler.stop(syscall(Syscall::Exit, 2)), SyscallResult::NoRunningProcess);
    assert_eq!(listed(&mut scheduler), vec![(1, ProcessState::Ready)]);
    assert!(!scheduler.can_stop(StopReason::Expired));
    assert!(scheduler.can_stop(syscall(Syscall::Exit, 2)));
}

#[test]
fn pids_are_given_out_in_turn() {
    let mut scheduler = round_robin(100, 1);
    assert_eq!(scheduler.stop(syscall(Syscall::Fork(0), 0)), SyscallResult::Pid(Pid::new(1)));
    assert_eq!(scheduler.next(), run(1, 100));
    for n in 2..=20 {
        let remaining = 100 - (n - 1);
        let result = scheduler.stop(syscall(Syscall::Fork(0), remaining));
        assert_eq!(result, SyscallResult::Pid(Pid::new(n)));
        assert_eq!(timings(&mut scheduler, n), (0, 0, 0));
        assert_eq!(scheduler.list().len(), n);
        assert_eq!(scheduler.next(), run(1, remaining));
    }
    // A stop that is no fork gives out no PID.
    assert_eq!(scheduler.stop(syscall(Syscall::Signal(7), 50)), SyscallResult::Success);
    assert_eq!(scheduler.next(), run(1, 50));
    assert_eq!(scheduler.stop(syscall(Syscall::Fork(0), 49)), SyscallResult::Pid(Pid::new(21)));
}

#[test]
fn a_system_call_is_charged_to_every_process() {
    let mut scheduler = round_robin(5, 1);
    scheduler.stop(syscall(Syscall::Fork(0), 0));
    assert_eq!(scheduler.next(), run(1, 5));
    // One unit for the fork itself.
    scheduler.stop(syscall(Syscall::Fork(0), 4));
    assert_eq!(timings(&mut scheduler, 1), (1, 1, 0));
    assert_eq!(timings(&mut scheduler, 2), (0, 0, 0));
    assert_eq!(scheduler.next(), run(1, 4));
    // Two units of execution and one for the call.
    scheduler.stop(syscall(Syscall::Sleep(4), 1));
    assert_eq!(timings(&mut scheduler, 1), (4, 2, 2));
    assert_eq!(timings(&mut scheduler, 2), (3, 0, 0));
    assert_eq!(
        listed(&mut scheduler),
        vec![(2, ProcessState::Ready), (1, ProcessState::Waiting { event: None })]
    );
    // A new quantum begins for the process that runs next.
    assert_eq!(scheduler.next(), run(2, 5));
    // The full quantum is charged when it expires, and none of it to system calls.
    scheduler.stop(StopReason::Expired);
    assert_eq!(timings(&mut scheduler, 2), (8, 0, 5));
    assert_eq!(timings(&mut scheduler, 1), (9, 2, 2));
    // The sleep of 4 was over after the 5 units: process 1 is ready, behind
    // process 2, which went to the end of the queue before the sleep was over.
    assert_eq!(listed(&mut scheduler), vec![(2, ProcessState::Ready), (1, ProcessState::Ready)]);
}

#[test]
fn sleepers_wake_before_a_signal_is_delivered() {
    let mut scheduler = round_robin(10, 1);
    scheduler.stop(syscall(Syscall::Fork(0), 0));
    scheduler.next();
    scheduler.stop(syscall(Syscall::Fork(0), 9));
    scheduler.next();
    scheduler.stop(syscall(Syscall::Fork(0), 8));
    scheduler.next();
    // Process 1 leaves the CPU to process 2, which waits for event 5, and
    // process 3, which sleeps for 2 units.
    scheduler.stop(StopReason::Expired);
    assert_eq!(scheduler.next(), run(2, 10));
    scheduler.stop(syscall(Syscall::Wait(5), 9));
    assert_eq!(scheduler.next(), run(3, 10));
    scheduler.stop(syscall(Syscall::Sleep(2), 9));
    assert_eq!(scheduler.next(), run(1, 10));
    // Process 1 executes for 2 units and signals event 5 with the third.
    scheduler.stop(syscall(Syscall::Signal(5), 7));
    assert_eq!(
        listed(&mut scheduler),
        vec![(1, ProcessState::Ready), (3, ProcessState::Ready), (2, ProcessState::Ready)]
    );
}

#[test]
fn a_process_keeps_the_rest_of_its_quantum_only_if_it_is_enough() {
    let mut scheduler = round_robin(5, 3);
    scheduler.stop(syscall(Syscall::Fork(0), 0));
    assert_eq!(scheduler.next(), run(1, 5));
    // 3 is left and 3 is the minimum: the parent goes on, ahead of its child.
    scheduler.stop(syscall(Syscall::Fork(0), 3));
    assert_eq!(listed(&mut scheduler), vec![(1, ProcessState::Ready), (2, ProcessState::Ready)]);
    assert_eq!(scheduler.next(), run(1, 3));
    // 2 is left: the parent goes behind its children and a new quantum begins.
    scheduler.stop(syscall(Syscall::Fork(0), 2));
    assert_eq!(
        listed(&mut scheduler),
        vec![(2, ProcessState::Ready), (3, ProcessState::Ready), (1, ProcessState::Ready)]
    );
    assert_eq!(scheduler.next(), run(2, 5));
    // The same holds of a process that signals.
    scheduler.stop(syscall(Syscall::Signal(1), 4));
    assert_eq!(scheduler.next(), run(2, 4));
    scheduler.stop(syscall(Syscall::Signal(1), 1));
    assert_eq!(scheduler.next(), run(3, 5));
}

#[test]
fn the_scheduler_lists_running_then_ready_then_waiting() {
    let mut scheduler = round_robin(10, 1);
    scheduler.stop(syscall(Syscall::Fork(0), 0));
    scheduler.next();
    scheduler.stop(syscall(Syscall::Fork(0), 9));
    scheduler.next();
    scheduler.stop(syscall(Syscall::Fork(0), 8));
    scheduler.next();
    scheduler.stop(syscall(Syscall::Wait(3), 7));
    assert_eq!(scheduler.next(), run(2, 10));
    assert_eq!(
        listed(&mut scheduler),
        vec![
            (2, ProcessState::Running),
            (3, ProcessState::Ready),
            (1, ProcessState::Waiting { event: Some(3) }),
        ]
    );
}

#[test]
fn a_signal_wakes_every_process_that_waits_for_the_event() {
    let mut scheduler = round_robin(10, 1);
    scheduler.stop(syscall(Syscall::Fork(0), 0));
    scheduler.next();
    for remaining in [9, 8, 7] {
        scheduler.stop(syscall(Syscall::Fork(0), remaining));
        scheduler.next();
    }
    // Process 1 runs out of its quantum; processes 2 and 4 wait for event 1,
    // process 3 for event 2.
    scheduler.stop(StopReason::Expired);
    assert_eq!(scheduler.next(), run(2, 10));
    scheduler.stop(syscall(Syscall::Wait(1), 9));
    assert_eq!(scheduler.next(), run(3, 10));
    scheduler.stop(syscall(Syscall::Wait(2), 9));
    assert_eq!(scheduler.next(), run(4, 10));
    scheduler.stop(syscall(Syscall::Wait(1), 9));
    assert_eq!(scheduler.next(), run(1, 10));
    scheduler.stop(syscall(Syscall::Signal(1), 9));
    assert_eq!(
        listed(&mut scheduler),
        vec![
            (1, ProcessState::Ready),
            (2, ProcessState::Ready),
            (4, ProcessState::Ready),
            (3, ProcessState::Waiting { event: Some(2) }),
        ]
    );
}

#[test]
fn the_scheduler_sleeps_until_the_first_sleeper_wakes() {
    let mut scheduler = round_robin(10, 1);
    scheduler.stop(syscall(Syscall::Fork(0), 0));
    scheduler.next();
    scheduler.stop(syscall(Syscall::Fork(0), 9));
    scheduler.next();
    scheduler.stop(syscall(Syscall::Sleep(30), 8));
    assert_eq!(scheduler.next(), run(2, 10));
    scheduler.stop(syscall(Syscall::Sleep(7), 9));
    // Process 1 has slept for one unit of its 30, process 2 for none of its 7.
    assert_eq!(scheduler.next(), SchedulingDecision::Sleep(7));
    assert_eq!(timings(&mut scheduler, 1), (3, 2, 0));
    // The sleep is charged when the next action is chosen.
    assert_eq!(scheduler.next(), run(2, 10));
    assert_eq!(timings(&mut scheduler, 1), (10, 2, 0));
    assert_eq!(timings(&mut scheduler, 2), (9, 1, 0));
    scheduler.stop(syscall(Syscall::Exit, 9));
    assert_eq!(scheduler.next(), SchedulingDecision::Sleep(21));
    assert_eq!(scheduler.next(), run(1, 10));
    assert_eq!(timings(&mut scheduler, 1), (32, 2, 0));
}

#[test]
fn a_sleep_of_nothing_ends_at_once() {
    let mut scheduler = round_robin(3, 1);
    scheduler.stop(syscall(Syscall::Fork(0), 0));
    scheduler.next();
    scheduler.stop(syscall(Syscall::Sleep(0), 2));
    assert_eq!(listed(&mut scheduler), vec![(1, ProcessState::Waiting { event: None })]);
    assert_eq!(scheduler.next(), run(1, 3));
}

#[test]
fn a_deadlock_leaves_only_processes_that_wait_for_events() {
    let mut scheduler = round_robin(3, 1);
    scheduler.stop(syscall(Syscall::Fork(0), 0));
    scheduler.next();
    scheduler.stop(syscall(Syscall::Fork(0), 2));
    scheduler.next();
    scheduler.stop(syscall(Syscall::Wait(1), 1));
    assert_eq!(scheduler.next(), run(2, 3));
    scheduler.stop(syscall(Syscall::Wait(2), 2));
    assert_eq!(scheduler.next(), SchedulingDecision::Deadlock);
    assert_eq!(
        listed(&mut scheduler),
        vec![
            (1, ProcessState::Waiting { event: Some(1) }),
            (2, ProcessState::Waiting { event: Some(2) }),
        ]
    );
    assert_eq!(scheduler.next(), SchedulingDecision::Deadlock);
}

#[test]
fn a_panic_stays() {
    let mut scheduler = round_robin(3, 1);
    scheduler.stop(syscall(Syscall::Fork(0), 0));
    scheduler.next();
    scheduler.stop(syscall(Syscall::Fork(0), 2));
    scheduler.next();
    assert_eq!(scheduler.stop(syscall(Syscall::Exit, 1)), SyscallResult::Success);
    for _ in 0..5 {
        assert_eq!(scheduler.next(), SchedulingDecision::Panic);
        assert_eq!(scheduler.stop(syscall(Syscall::Fork(0), 0)), SyscallResult::NoRunningProcess);
    }
    assert_eq!(listed(&mut scheduler), vec![(2, ProcessState::Ready)]);
}

#[test]
fn the_exit_of_the_first_process_alone_is_the_end() {
    let mut scheduler = round_robin(3, 1);
    scheduler.stop(syscall(Syscall::Fork(0), 0));
    scheduler.next();
    scheduler.stop(syscall(Syscall::Exit, 2));
    assert_eq!(scheduler.next(), SchedulingDecision::Done);
    assert!(scheduler.list().is_empty());
}

#[test]
fn the_exit_of_the_first_process_is_a_panic_while_another_waits() {
    let mut scheduler = round_robin(3, 1);
    scheduler.stop(syscall(Syscall::Fork(0), 0));
    scheduler.next();
    scheduler.stop(syscall(Syscall::Fork(0), 0));
    assert_eq!(scheduler.next(), run(2, 3));
    scheduler.stop(syscall(Syscall::Wait(1), 2));
    assert_eq!(scheduler.next(), run(1, 3));
    scheduler.stop(syscall(Syscall::Exit, 2));
    assert_eq!(scheduler.next(), SchedulingDecision::Panic);
}

#[test]
fn what_the_scheduler_cannot_take_it_says() {
    let mut scheduler = round_robin(3, 0);
    scheduler.stop(syscall(Syscall::Fork(0), 0));
    assert_eq!(scheduler.next(), run(1, 3));
    assert!(scheduler.can_stop(StopReason::Expired));
    assert!(scheduler.can_stop(syscall(Syscall::Fork(0), 2)));
    // The call itself takes a time unit of the quantum.
    assert!(!scheduler.can_stop(syscall(Syscall::Fork(0), 3)));
    assert!(!scheduler.can_stop(syscall(Syscall::Exit, 4)));
    // With no minimum a process would go on with a quantum of nothing.
    assert!(!scheduler.can_stop(syscall(Syscall::Fork(0), 0)));
    assert!(!scheduler.can_stop(syscall(Syscall::Signal(1), 0)));
    assert!(scheduler.can_stop(syscall(Syscall::Sleep(1), 0)));
    assert!(scheduler.can_stop(syscall(Syscall::Wait(1), 0)));
    assert!(scheduler.can_stop(syscall(Syscall::Exit, 0)));
    assert!(round_robin(3, 1).can_next());
}

#[test]
fn a_sleep_that_the_counters_cannot_hold_is_not_charged() {
    let mut scheduler = round_robin(3, 1);
    scheduler.stop(syscall(Syscall::Fork(0), 0));
    scheduler.next();
    scheduler.stop(syscall(Syscall::Sleep(usize::MAX), 2));
    assert!(scheduler.can_next());
    assert_eq!(scheduler.next(), SchedulingDecision::Sleep(usize::MAX));
    // The process has a total time of 1 already.
    assert!(!scheduler.can_next());
}

#[test]
fn the_priority_queue_runs_the_highest_priority_first() {
    let mut scheduler = priority_queue(10, 1);
    scheduler.stop(syscall(Syscall::Fork(0), 0));
    assert_eq!(scheduler.next(), run(1, 10));
    scheduler.stop(syscall(Syscall::Fork(2), 9));
    // The child has the higher priority and runs with what is left of the quantum.
    assert_eq!(listed(&mut scheduler), vec![(2, ProcessState::Ready), (1, ProcessState::Ready)]);
    assert_eq!(scheduler.next(), run(2, 9));
    scheduler.stop(syscall(Syscall::Fork(2), 8));
    assert_eq!(scheduler.next(), run(2, 8));
    scheduler.stop(syscall(Syscall::Fork(5), 7));
    assert_eq!(
        listed(&mut scheduler),
        vec![
            (4, ProcessState::Ready),
            (2, ProcessState::Ready),
            (3, ProcessState::Ready),
            (1, ProcessState::Ready),
        ]
    );
    assert_eq!(scheduler.next(), run(4, 7));
    scheduler.stop(syscall(Syscall::Exit, 6));
    assert_eq!(scheduler.next(), run(2, 10));
    // A process whose quantum has expired goes behind those of its own priority only.
    scheduler.stop(StopReason::Expired);
    assert_eq!(
        listed(&mut scheduler),
        vec![(3, ProcessState::Ready), (2, ProcessState::Ready), (1, ProcessState::Ready)]
    );
    assert_eq!(scheduler.list().iter().map(|p| p.priority()).collect::<Vec<i8>>(), vec![2, 2, 0]);
}

#[test]
fn the_priority_of_a_woken_process_is_the_one_it_was_created_with() {
    let mut scheduler = priority_queue(10, 1);
    scheduler.stop(syscall(Syscall::Fork(0), 0));
    scheduler.next();
    scheduler.stop(syscall(Syscall::Fork(-3), 9));
    assert_eq!(scheduler.next(), run(1, 9));
    scheduler.stop(syscall(Syscall::Fork(7), 8));
    assert_eq!(scheduler.next(), run(3, 8));
    scheduler.stop(syscall(Syscall::Wait(1), 7));
    assert_eq!(scheduler.next(), run(1, 10));
    scheduler.stop(syscall(Syscall::Signal(1), 9));
    assert_eq!(scheduler.next(), run(3, 9));
    assert_eq!(scheduler.list().iter().map(|p| p.priority()).collect::<Vec<i8>>(), vec![7, 0, -3]);
}

fn extras(scheduler: &mut CFS) -> Vec<(usize, String)> {
    scheduler.list().iter().map(|p| (p.pid().get(), p.extra())).collect()
}

#[test]
fn the_fair_scheduler_shares_the_cpu_time() {
    let mut scheduler = cfs(10, 1);
    scheduler.stop(syscall(Syscall::Fork(0), 0));
    assert_eq!(scheduler.next(), run(1, 10));
    // The parent goes on with what is left of its quantum.
    scheduler.stop(syscall(Syscall::Fork(0), 9));
    assert_eq!(scheduler.next(), run(1, 9));
    // Two processes can run: each gets 5.
    scheduler.stop(StopReason::Expired);
    assert_eq!(scheduler.next(), run(2, 5));
    // Three processes can run: each gets 3. The child has the virtual runtime
    // of its parent, which comes first of the two.
    scheduler.stop(syscall(Syscall::Fork(0), 0));
    assert_eq!(scheduler.next(), run(2, 3));
    // After the exit of one there are two again.
    scheduler.stop(syscall(Syscall::Exit, 2));
    assert_eq!(scheduler.next(), run(3, 5));
    // A process that sleeps cannot run: the other has all the CPU time.
    scheduler.stop(syscall(Syscall::Sleep(20), 4));
    assert_eq!(scheduler.next(), run(1, 10));
    // The quantum is never nothing, however many processes there are.
    let mut scheduler = cfs(3, 1);
    scheduler.stop(syscall(Syscall::Fork(0), 0));
    assert_eq!(scheduler.next(), run(1, 3));
    scheduler.stop(StopReason::Expired);
    assert_eq!(scheduler.next(), run(1, 3));
    for n in 2..8 {
        assert_eq!(scheduler.stop(syscall(Syscall::Fork(0), 0)), SyscallResult::Pid(Pid::new(n)));
        let share = std::cmp::max(1, 3 / n);
        assert!(matches!(
            scheduler.next(),
            SchedulingDecision::Run { timeslice, .. } if timeslice == share
        ));
    }
}

#[test]
fn the_fair_scheduler_runs_the_lowest_virtual_runtime_first() {
    let mut scheduler = cfs(12, 1);
    scheduler.stop(syscall(Syscall::Fork(0), 0));
    assert_eq!(scheduler.next(), run(1, 12));
    assert_eq!(extras(&mut scheduler), vec![(1, String::from("vruntime=0"))]);
    // The parent has executed for 3 units before the call. Its child is born
    // with the lowest virtual runtime there is, which is the parent's.
    scheduler.stop(syscall(Syscall::Fork(0), 8));
    assert_eq!(
        extras(&mut scheduler),
        vec![(1, String::from("vruntime=3")), (2, String::from("vruntime=3"))]
    );
    // The parent goes on with what it has left of its quantum.
    assert_eq!(scheduler.next(), run(1, 8));
    scheduler.stop(StopReason::Expired);
    assert_eq!(
        extras(&mut scheduler),
        vec![(2, String::from("vruntime=3")), (1, String::from("vruntime=11"))]
    );
    assert_eq!(scheduler.next(), run(2, 6));
    // Process 2 has executed for 2 units before its call.
    scheduler.stop(syscall(Syscall::Fork(0), 3));
    assert_eq!(
        extras(&mut scheduler),
        vec![
            (2, String::from("vruntime=5")),
            (3, String::from("vruntime=5")),
            (1, String::from("vruntime=11")),
        ]
    );
    assert_eq!(scheduler.next(), run(2, 3));
    // The quantum of process 2 expires: process 3 is the lowest now.
    scheduler.stop(StopReason::Expired);
    assert_eq!(
        extras(&mut scheduler),
        vec![
            (3, String::from("vruntime=5")),
            (2, String::from("vruntime=8")),
            (1, String::from("vruntime=11")),
        ]
    );
    assert_eq!(scheduler.next(), run(3, 4));
}

#[test]
fn wake_moves_the_processes_whose_sleep_is_over() {
    let mut scheduler = CFS::new(10, 1);
    scheduler.stop(syscall(Syscall::Fork(0), 0));
    scheduler.next();
    scheduler.stop(syscall(Syscall::Fork(0), 9));
    assert_eq!(scheduler.next(), run(1, 9));
    scheduler.stop(syscall(Syscall::Sleep(0), 8));
    assert_eq!(
        listed(&mut scheduler),
        vec![(2, ProcessState::Ready), (1, ProcessState::Waiting { event: None })]
    );
    scheduler.wake();
    assert_eq!(listed(&mut scheduler), vec![(2, ProcessState::Ready), (1, ProcessState::Ready)]);
    scheduler.wake();
    assert_eq!(listed(&mut scheduler), vec![(2, ProcessState::Ready), (1, ProcessState::Ready)]);
}

#[test]
fn new_schedulers_are_those_of_the_factories() {
    let mut direct = RoundRobin::new(4, 2);
    let mut made = round_robin(4, 2);
    for scheduler in [&mut direct, &mut made] {
        scheduler.stop(syscall(Syscall::Fork(0), 0));
        assert_eq!(scheduler.next(), run(1, 4));
        scheduler.stop(syscall(Syscall::Fork(0), 1));
        assert_eq!(scheduler.next(), run(2, 4));
    }
}

#[test]
fn a_process_control_block_shows_what_it_holds() {
    let pcb = PCB::new(Pid::new(4), ProcessState::Waiting { event: Some(9) }, (7, 2, 3), -5);
    assert_eq!(pcb.pid().get(), 4);
    assert_eq!(pcb.state(), ProcessState::Waiting { event: Some(9) });
    assert_eq!(pcb.timings(), (7, 2, 3));
    assert_eq!(pcb.priority(), -5);
    assert_eq!(pcb.extra(), "");
    assert_eq!(pcb.sleep, 0);
    let fair = PCB { vruntime: Some(1234567890), ..pcb };
    assert_eq!(fair.extra(), "vruntime=1234567890");
}

#[test]
fn pids_are_numbers_above_zero() {
    assert_eq!(Pid::new(3).get(), 3);
    assert_eq!(Pid::new(3).add(4), Pid::new(7));
    assert_eq!(Pid::new(5).add(0), Pid::new(5));
    assert!(Pid::new(2) < Pid::new(10));
    assert_eq!(Pid::new(usize::MAX).get(), usize::MAX);
    let mut reason = StopReason::syscall(Syscall::Wait(3));
    assert_eq!(reason, syscall(Syscall::Wait(3), 0));
    reason.set_remaining(7);
    assert_eq!(reason, syscall(Syscall::Wait(3), 7));
    let mut expired = StopReason::expired();
    expired.set_remaining(7);
    assert_eq!(expired, StopReason::Expired);
    assert!(ProcessState::Waiting { event: None }.is_sleep());
    assert!(!ProcessState::Waiting { event: Some(0) }.is_sleep());
    assert!(!ProcessState::Ready.is_sleep());
}
