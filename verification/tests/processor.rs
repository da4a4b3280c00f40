use scheduler::processor::{record, tabulate};
use scheduler::{
    cfs, round_robin, Log, Pid, ProcessInfo, ProcessState, Processor, SchedulingDecision, StopReason,
    Syscall, SyscallResult,
};

fn run(pid: usize, timeslice: usize) -> SchedulingDecision {
    SchedulingDecision::Run { pid: Pid::new(pid), timeslice }
}

fn info(pid: usize, total: usize) -> ProcessInfo {
    ProcessInfo::new(Pid::new(pid), ProcessState::Ready, (total, 0, 0), 0, String::new())
}

#[test]
fn boot_runs_the_first_process() {
    let mut processor = Processor::new(round_robin(2, 1));
    assert!(processor.is_running());
    assert_eq!(processor.current_process(), None);
    let result = processor.scheduler(StopReason::syscall(Syscall::Fork(0)));
    assert_eq!(result, SyscallResult::Pid(Pid::new(1)));
    assert_eq!(processor.current_process(), Some(Pid::new(1)));
    let logs = processor.get_logs();
    assert_eq!(logs.len(), 1);
    assert_eq!(logs[0].decision, run(1, 2));
    assert_eq!(logs[0].stop_reason, None);
    assert_eq!(logs[0].processes.len(), 1);
    assert_eq!(logs[0].processes[0].state, ProcessState::Running);
}

#[test]
fn exec_counts_the_quantum_down() {
    let mut processor = Processor::new(round_robin(3, 1));
    processor.scheduler(StopReason::syscall(Syscall::Fork(0)));
    assert!(processor.exec());
    assert!(processor.exec());
    // The third unit is the last of the quantum.
    assert!(!processor.exec());
    assert_eq!(processor.scheduler(StopReason::expired()), SyscallResult::Success);
    assert!(processor.exec());
    let logs = processor.get_logs();
    assert_eq!(logs.len(), 2);
    assert_eq!(logs[0].stop_reason, Some((StopReason::Expired, SyscallResult::Success)));
    assert_eq!(logs[1].decision, run(1, 3));
    assert_eq!(logs[1].processes[0].timings, (3, 0, 3));
}

#[test]
fn a_system_call_passes_on_what_is_left_of_the_quantum() {
    let mut processor = Processor::new(round_robin(5, 1));
    processor.scheduler(StopReason::syscall(Syscall::Fork(0)));
    processor.exec();
    processor.exec();
    // Two units are used, the call takes the third: two are left.
    let result = processor.scheduler(StopReason::syscall(Syscall::Fork(3)));
    assert_eq!(result, SyscallResult::Pid(Pid::new(2)));
    let logs = processor.get_logs();
    assert_eq!(
        logs[0].stop_reason,
        Some((
            StopReason::Syscall { syscall: Syscall::Fork(3), remaining: 2 },
            SyscallResult::Pid(Pid::new(2))
        ))
    );
    assert_eq!(logs[1].decision, run(1, 2));
    assert_eq!(logs[1].processes[0].timings, (3, 1, 2));
    assert_eq!(logs[1].processes[1].timings, (0, 0, 0));
    assert_eq!(logs[1].processes[1].priority, 3);
}

#[test]
fn a_sleep_is_logged_and_the_processor_asks_again() {
    let mut processor = Processor::new(round_robin(5, 1));
    processor.scheduler(StopReason::syscall(Syscall::Fork(0)));
    assert_eq!(processor.scheduler(StopReason::syscall(Syscall::Sleep(8))), SyscallResult::Success);
    assert!(processor.is_running());
    assert_eq!(processor.current_process(), Some(Pid::new(1)));
    let logs = processor.get_logs();
    assert_eq!(logs.len(), 3);
    assert_eq!(logs[1].decision, SchedulingDecision::Sleep(8));
    assert_eq!(logs[1].stop_reason, None);
    assert_eq!(logs[1].processes[0].state, ProcessState::Waiting { event: None });
    assert_eq!(logs[1].processes[0].timings, (1, 1, 0));
    assert_eq!(logs[2].decision, run(1, 5));
    assert_eq!(logs[2].processes[0].timings, (9, 1, 0));
}

#[test]
fn the_end_of_the_simulation_stops_the_processor() {
    let mut processor = Processor::new(round_robin(5, 1));
    processor.scheduler(StopReason::syscall(Syscall::Fork(0)));
    assert_eq!(processor.scheduler(StopReason::syscall(Syscall::Exit)), SyscallResult::Success);
    assert!(!processor.is_running());
    assert_eq!(processor.current_process(), None);
    // Nothing happens any more.
    assert!(processor.exec());
    assert_eq!(
        processor.scheduler(StopReason::syscall(Syscall::Fork(0))),
        SyscallResult::NoRunningProcess
    );
    assert_eq!(processor.scheduler(StopReason::expired()), SyscallResult::NoRunningProcess);
    assert_eq!(
        processor.try_scheduler(StopReason::syscall(Syscall::Sleep(1))),
        Some(SyscallResult::NoRunningProcess)
    );
    let logs = processor.get_logs();
    assert_eq!(logs.len(), 2);
    assert_eq!(logs[1].decision, SchedulingDecision::Done);
    assert_eq!(logs[1].stop_reason, None);
}

#[test]
fn a_deadlock_stops_the_processor() {
    let mut processor = Processor::new(cfs(10, 1));
    processor.scheduler(StopReason::syscall(Syscall::Fork(0)));
    processor.scheduler(StopReason::syscall(Syscall::Wait(4)));
    assert!(!processor.is_running());
    let logs = processor.get_logs();
    assert_eq!(logs.last().unwrap().decision, SchedulingDecision::Deadlock);
    assert_eq!(logs.last().unwrap().processes[0].extra, "vruntime=0");
}

#[test]
fn stop_ends_the_simulation() {
    let mut processor = Processor::new(round_robin(5, 1));
    processor.scheduler(StopReason::syscall(Syscall::Fork(0)));
    processor.stop();
    assert!(!processor.is_running());
    assert_eq!(processor.current_process(), Some(Pid::new(1)));
    assert_eq!(processor.scheduler(StopReason::expired()), SyscallResult::NoRunningProcess);
    assert_eq!(processor.get_logs().len(), 1);
}

#[test]
fn the_log_is_handed_out_once() {
    let mut processor = Processor::new(round_robin(5, 1));
    processor.scheduler(StopReason::syscall(Syscall::Fork(0)));
    assert_eq!(processor.get_logs().len(), 1);
    assert!(processor.get_logs().is_empty());
    // With the log handed out there is no entry to attach the stop to.
    processor.scheduler(StopReason::syscall(Syscall::Fork(0)));
    let logs = processor.get_logs();
    assert_eq!(logs.len(), 1);
    assert_eq!(logs[0].stop_reason, None);
}

#[test]
fn what_the_scheduler_cannot_take_the_processor_does_not_try() {
    let mut processor = Processor::new(round_robin(2, 0));
    assert_eq!(
        processor.try_scheduler(StopReason::syscall(Syscall::Fork(0))),
        Some(SyscallResult::Pid(Pid::new(1)))
    );
    assert!(processor.exec());
    // The fork would take the last unit of the quantum and leave the process
    // to go on with a quantum of nothing.
    assert_eq!(processor.try_scheduler(StopReason::syscall(Syscall::Fork(0))), None);
    assert!(processor.is_running());
    assert_eq!(processor.current_process(), Some(Pid::new(1)));
    assert_eq!(processor.get_logs().len(), 1);
    // Without a process that runs, no quantum has expired.
    let mut processor = Processor::new(round_robin(2, 1));
    assert_eq!(processor.try_scheduler(StopReason::expired()), None);
    assert!(processor.get_logs().is_empty());
}

#[test]
fn a_sleep_that_cannot_be_charged_stalls_the_processor() {
    let mut processor = Processor::new(round_robin(2, 1));
    processor.scheduler(StopReason::syscall(Syscall::Fork(0)));
    assert_eq!(processor.try_scheduler(StopReason::syscall(Syscall::Sleep(usize::MAX))), None);
    // The sleep was decided on and logged, but cannot be added to the total
    // time of the process.
    assert!(processor.is_running());
    assert_eq!(processor.current_process(), None);
    let logs = processor.get_logs();
    assert_eq!(logs.len(), 2);
    assert_eq!(logs[1].decision, SchedulingDecision::Sleep(usize::MAX));
}

#[test]
fn rows_are_kept_in_the_order_of_the_pids() {
    let mut rows: Vec<ProcessInfo> = Vec::new();
    record(&mut rows, info(3, 30));
    record(&mut rows, info(1, 10));
    record(&mut rows, info(2, 20));
    record(&mut rows, info(5, 50));
    assert_eq!(rows.iter().map(|row| row.pid.get()).collect::<Vec<usize>>(), vec![1, 2, 3, 5]);
    // A row takes the place of the row with the same PID.
    record(&mut rows, info(2, 21));
    record(&mut rows, info(5, 51));
    record(&mut rows, info(1, 11));
    assert_eq!(
        rows.iter().map(|row| (row.pid.get(), row.timings.0)).collect::<Vec<(usize, usize)>>(),
        vec![(1, 11), (2, 21), (3, 30), (5, 51)]
    );
}

#[test]
fn entries_are_equal_if_they_say_the_same() {
    let entry = |total: usize| Log::new(run(1, 2), None, vec![info(1, total)]);
    assert_eq!(entry(4), entry(4));
    assert_ne!(entry(4), entry(5));
}

#[test]
fn a_table_has_one_row_for_each_pid() {
    let listing = vec![info(4, 40), info(2, 20), info(4, 41), info(1, 10), info(2, 22)];
    let rows = tabulate(&listing);
    assert_eq!(
        rows.iter().map(|row| (row.pid.get(), row.timings.0)).collect::<Vec<(usize, usize)>>(),
        vec![(1, 10), (2, 22), (4, 41)]
    );
    assert!(tabulate(&Vec::new()).is_empty());
    let copy = listing[0].duplicate();
    assert_eq!(copy, listing[0]);
}
