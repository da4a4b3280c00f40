use scheduler::{
    cfs, format_logs, priority_queue, round_robin, Log, ProcessState, Processor, Scheduler,
    SchedulingDecision, StopReason, Syscall, SyscallResult,
};

// The scenarios run with a timeslice of 3, a minimum remaining timeslice of 1
// and, for the fair scheduler, 10 time units of CPU time for an iteration.

/// One action of a simulated process.
#[derive(Clone)]
enum Op {
    Exec,
    Fork(Vec<Op>, i8),
    Sleep(usize),
    Wait(usize),
    Signal(usize),
}

fn execs(n: usize) -> Vec<Op> {
    vec![Op::Exec; n]
}

fn join(parts: Vec<Vec<Op>>) -> Vec<Op> {
    parts.into_iter().flatten().collect()
}

/// Runs the program `root` as the process with PID 1, and the programs that
/// it forks, each action as the process facade would perform it.
fn simulate<S: Scheduler>(scheduler: S, root: Vec<Op>) -> Vec<Log> {
    let mut processor = Processor::new(scheduler);
    let first = processor.scheduler(StopReason::syscall(Syscall::Fork(0)));
    match first {
        SyscallResult::Pid(pid) => assert_eq!(pid.get(), 1),
        _ => panic!("Fork did not return a pid"),
    }
    let mut tasks: Vec<(usize, Vec<Op>, usize)> = vec![(1, root, 0)];
    let mut steps = 0;
    while processor.is_running() {
        steps += 1;
        assert!(steps < 100_000, "the simulation does not end");
        let pid = processor.current_process().unwrap().get();
        let at = tasks.iter().position(|task| task.0 == pid).unwrap();
        if tasks[at].2 == tasks[at].1.len() {
            tasks.remove(at);
            processor.scheduler(StopReason::syscall(Syscall::Exit));
            continue;
        }
        let op = tasks[at].1[tasks[at].2].clone();
        tasks[at].2 += 1;
        match op {
            Op::Exec => {
                if !processor.exec() {
                    processor.scheduler(StopReason::expired());
                }
            }
            Op::Fork(body, priority) => {
                match processor.scheduler(StopReason::syscall(Syscall::Fork(priority))) {
                    SyscallResult::Pid(child) => tasks.push((child.get(), body, 0)),
                    _ => panic!("Fork did not return a pid"),
                }
            }
            Op::Sleep(amount) => {
                processor.scheduler(StopReason::syscall(Syscall::Sleep(amount)));
            }
            Op::Wait(event) => {
                processor.scheduler(StopReason::syscall(Syscall::Wait(event)));
            }
            Op::Signal(event) => {
                processor.scheduler(StopReason::syscall(Syscall::Signal(event)));
            }
        }
    }
    processor.get_logs()
}

/// The decisions of a log, one short word each.
fn trace(logs: &[Log]) -> String {
    let words: Vec<String> = logs
        .iter()
        .map(|log| match log.decision {
            SchedulingDecision::Run { pid, timeslice } => format!("{}:{}", pid.get(), timeslice),
            SchedulingDecision::Sleep(amount) => format!("sleep{}", amount),
            SchedulingDecision::Deadlock => String::from("deadlock"),
            SchedulingDecision::Panic => String::from("panic"),
            SchedulingDecision::Done => String::from("done"),
        })
        .collect();
    words.join(" ")
}

/// What holds of every log: at most one process runs in an entry, the
/// timings of every process are consistent, the rows are in the order of the
/// PIDs, and the total time of a process never decreases.
fn inspect(logs: &[Log]) {
    let mut totals: Vec<(usize, usize)> = Vec::new();
    for log in logs {
        let running = log.processes.iter().filter(|p| p.state == ProcessState::Running).count();
        assert!(running <= 1);
        for pair in log.processes.windows(2) {
            assert!(pair[0].pid.get() < pair[1].pid.get());
        }
        for info in &log.processes {
            assert!(info.timings.0 >= info.timings.1 + info.timings.2);
            match totals.iter_mut().find(|known| known.0 == info.pid.get()) {
                Some(known) => {
                    assert!(known.1 <= info.timings.0);
                    known.1 = info.timings.0;
                }
                None => totals.push((info.pid.get(), info.timings.0)),
            }
        }
    }
}

fn single_process_program() -> Vec<Op> {
    execs(5)
}

fn fork_2_program() -> Vec<Op> {
    join(vec![vec![Op::Fork(execs(5), 0)], execs(10)])
}

fn fork_3_program() -> Vec<Op> {
    let child = join(vec![vec![Op::Fork(execs(5), 0)], execs(5)]);
    join(vec![vec![Op::Fork(child, 0)], execs(10)])
}

fn simple_sleep_program() -> Vec<Op> {
    vec![Op::Sleep(10)]
}

fn work_sleep_program() -> Vec<Op> {
    join(vec![
        execs(3),
        vec![Op::Sleep(10)],
        execs(3),
        vec![Op::Sleep(10)],
        execs(3),
        vec![Op::Sleep(10)],
    ])
}

fn fork_wait_signal_program() -> Vec<Op> {
    vec![Op::Fork(vec![Op::Wait(1)], 0), Op::Sleep(10), Op::Signal(1), Op::Sleep(10)]
}

fn fork_wait_sleep_signal_program() -> Vec<Op> {
    vec![Op::Fork(vec![Op::Wait(1)], 0), Op::Sleep(5), Op::Signal(1), Op::Sleep(10)]
}

fn deadlock_wait_program() -> Vec<Op> {
    join(vec![execs(5), vec![Op::Wait(1)]])
}

fn signal_before_wait_program() -> Vec<Op> {
    join(vec![execs(5), vec![Op::Signal(1), Op::Wait(1)]])
}

fn wait_2_program() -> Vec<Op> {
    let child = join(vec![execs(5), vec![Op::Wait(2)]]);
    vec![Op::Fork(child, 0), Op::Sleep(10), Op::Wait(1), Op::Sleep(10)]
}

fn signal_before_wait_2_program() -> Vec<Op> {
    let child = join(vec![execs(5), vec![Op::Wait(2)]]);
    vec![Op::Fork(child, 0), Op::Signal(2), Op::Wait(2), Op::Sleep(10)]
}

fn wait_3_program() -> Vec<Op> {
    let waiter = |event: usize| join(vec![execs(5), vec![Op::Wait(event)]]);
    vec![
        Op::Fork(waiter(1), 0),
        Op::Fork(waiter(1), 0),
        Op::Fork(waiter(2), 0),
        Op::Sleep(10),
        Op::Signal(1),
        Op::Wait(0),
        Op::Sleep(10),
    ]
}

fn panic_exec_program() -> Vec<Op> {
    vec![Op::Fork(execs(5), 0), Op::Exec]
}

fn panic_sleep_program() -> Vec<Op> {
    vec![Op::Fork(vec![Op::Sleep(5)], 0), Op::Exec]
}

fn panic_wait_program() -> Vec<Op> {
    vec![Op::Fork(vec![Op::Wait(1)], 0), Op::Exec]
}

fn send_receive_program() -> Vec<Op> {
    let child = join(vec![vec![Op::Wait(1)], execs(5)]);
    join(vec![vec![Op::Fork(child, 0)], execs(5), vec![Op::Signal(1), Op::Sleep(10)]])
}

fn workers_program() -> Vec<Op> {
    join(vec![
        vec![
            Op::Fork(vec![Op::Wait(1)], 0),
            Op::Fork(vec![Op::Wait(1)], 0),
            Op::Fork(vec![Op::Wait(2)], 0),
        ],
        execs(10),
        vec![Op::Signal(1), Op::Signal(2), Op::Sleep(10)],
    ])
}

fn senders_program() -> Vec<Op> {
    join(vec![
        vec![
            Op::Fork(vec![Op::Wait(1), Op::Signal(2)], 0),
            Op::Fork(vec![Op::Wait(2), Op::Signal(3)], 0),
            Op::Fork(vec![Op::Wait(3)], 0),
            Op::Fork(vec![Op::Wait(3)], 0),
        ],
        execs(10),
        vec![Op::Signal(1), Op::Sleep(10)],
    ])
}

fn single_worker_program() -> Vec<Op> {
    join(vec![vec![Op::Fork(execs(20), 5)], execs(30)])
}

fn io_rounds(rounds: usize) -> Vec<Op> {
    let mut ops = Vec::new();
    for _ in 0..rounds {
        ops.push(Op::Sleep(1));
        ops.push(Op::Exec);
        ops.push(Op::Exec);
    }
    ops
}

fn worker_io_program() -> Vec<Op> {
    let child = join(vec![execs(10), io_rounds(5)]);
    join(vec![vec![Op::Fork(child, 3)], execs(50)])
}

fn worker_3_program() -> Vec<Op> {
    join(vec![vec![Op::Fork(execs(10), 3), Op::Fork(io_rounds(20), 5)], execs(50)])
}

fn worker_spawning_program() -> Vec<Op> {
    let child = join(vec![execs(20), vec![Op::Fork(execs(20), 5)]]);
    join(vec![vec![Op::Fork(child, 5)], execs(50)])
}

fn sleeper_program() -> Vec<Op> {
    let child = join(vec![
        vec![Op::Fork(execs(20), 5)],
        execs(20),
        vec![Op::Fork(execs(20), 5)],
    ]);
    join(vec![vec![Op::Fork(child, 5), Op::Sleep(110)], execs(50)])
}

/// Runs `program` with each of the three schedulers, holds the three logs to
/// what holds of every log, and returns the decisions that each has taken.
fn decisions(program: fn() -> Vec<Op>) -> (String, String, String) {
    let rr = simulate(round_robin(3, 1), program());
    let pq = simulate(priority_queue(3, 1), program());
    let fair = simulate(cfs(10, 1), program());
    inspect(&rr);
    inspect(&pq);
    inspect(&fair);
    assert_eq!(rr, simulate(round_robin(3, 1), program()));
    assert_eq!(format_logs(&fair), format_logs(&simulate(cfs(10, 1), program())));
    (trace(&rr), trace(&pq), trace(&fair))
}

#[test]
fn deadlock_wait() {
    let (rr, pq, fair) = decisions(deadlock_wait_program);
    assert_eq!(rr, "1:3 1:3 deadlock");
    assert_eq!(pq, "1:3 1:3 deadlock");
    assert_eq!(fair, "1:10 deadlock");
}

#[test]
fn signal_before_wait() {
    let (rr, pq, fair) = decisions(signal_before_wait_program);
    assert_eq!(rr, "1:3 1:3 1:3 deadlock");
    assert_eq!(pq, "1:3 1:3 1:3 deadlock");
    assert_eq!(fair, "1:10 1:4 deadlock");
}

#[test]
fn wait_2() {
    let (rr, pq, fair) = decisions(wait_2_program);
    assert_eq!(rr, "1:3 1:2 2:3 2:3 sleep4 1:3 deadlock");
    assert_eq!(pq, "1:3 1:2 2:3 2:3 sleep4 1:3 deadlock");
    assert_eq!(fair, "1:10 1:9 2:10 sleep4 1:10 deadlock");
}

#[test]
fn signal_before_wait_2() {
    let (rr, pq, fair) = decisions(signal_before_wait_2_program);
    assert_eq!(rr, "1:3 1:2 1:1 2:3 2:3 deadlock");
    assert_eq!(pq, "1:3 1:2 1:1 2:3 2:3 deadlock");
    assert_eq!(fair, "1:10 1:9 1:8 2:10 deadlock");
}

#[test]
fn wait_3() {
    let (rr, pq, fair) = decisions(wait_3_program);
    assert_eq!(rr, "1:3 1:2 1:1 2:3 3:3 4:3 1:3 2:3 3:3 4:3 sleep1 1:3 1:2 2:3 3:3 deadlock");
    assert_eq!(pq, "1:3 1:2 1:1 2:3 3:3 4:3 1:3 2:3 3:3 4:3 sleep1 1:3 1:2 2:3 3:3 deadlock");
    assert_eq!(fair, "1:10 1:9 1:8 1:7 2:3 3:3 4:3 2:3 1:3 1:2 3:3 4:5 2:10 deadlock");
}

#[test]
fn exec() {
    let (rr, pq, fair) = decisions(panic_exec_program);
    assert_eq!(rr, "1:3 1:2 panic");
    assert_eq!(pq, "1:3 1:2 panic");
    assert_eq!(fair, "1:10 1:9 panic");
}

#[test]
fn panic_sleep() {
    let (rr, pq, fair) = decisions(panic_sleep_program);
    assert_eq!(rr, "1:3 1:2 panic");
    assert_eq!(pq, "1:3 1:2 panic");
    assert_eq!(fair, "1:10 1:9 panic");
}

#[test]
fn panic_wait() {
    let (rr, pq, fair) = decisions(panic_wait_program);
    assert_eq!(rr, "1:3 1:2 panic");
    assert_eq!(pq, "1:3 1:2 panic");
    assert_eq!(fair, "1:10 1:9 panic");
}

#[test]
fn single_process() {
    let (rr, pq, fair) = decisions(single_process_program);
    assert_eq!(rr, "1:3 1:3 done");
    assert_eq!(pq, "1:3 1:3 done");
    assert_eq!(fair, "1:10 done");
}

#[test]
fn fork_2() {
    let (rr, pq, fair) = decisions(fork_2_program);
    assert_eq!(rr, "1:3 1:2 2:3 1:3 2:3 1:3 1:3 done");
    assert_eq!(pq, "1:3 1:2 2:3 1:3 2:3 1:3 1:3 done");
    assert_eq!(fair, "1:10 1:9 2:5 2:5 1:10 done");
}

#[test]
fn fork_3() {
    let (rr, pq, fair) = decisions(fork_3_program);
    assert_eq!(rr, "1:3 1:2 2:3 2:2 1:3 3:3 2:3 1:3 3:3 2:3 1:3 done");
    assert_eq!(pq, "1:3 1:2 2:3 2:2 1:3 3:3 2:3 1:3 3:3 2:3 1:3 done");
    assert_eq!(fair, "1:10 1:9 2:5 2:4 3:3 3:3 2:5 1:10 done");
}

#[test]
fn simple_sleep() {
    let (rr, pq, fair) = decisions(simple_sleep_program);
    assert_eq!(rr, "1:3 sleep10 1:3 done");
    assert_eq!(pq, "1:3 sleep10 1:3 done");
    assert_eq!(fair, "1:10 sleep10 1:10 done");
}

#[test]
fn work_sleep() {
    let (rr, pq, fair) = decisions(work_sleep_program);
    assert_eq!(rr, "1:3 1:3 sleep10 1:3 1:3 sleep10 1:3 1:3 sleep10 1:3 done");
    assert_eq!(pq, "1:3 1:3 sleep10 1:3 1:3 sleep10 1:3 1:3 sleep10 1:3 done");
    assert_eq!(fair, "1:10 sleep10 1:10 sleep10 1:10 sleep10 1:10 done");
}

#[test]
fn fork_wait_signal() {
    let (rr, pq, fair) = decisions(fork_wait_signal_program);
    assert_eq!(rr, "1:3 1:2 2:3 sleep9 1:3 1:2 2:3 sleep9 1:3 done");
    assert_eq!(pq, "1:3 1:2 2:3 sleep9 1:3 1:2 2:3 sleep9 1:3 done");
    assert_eq!(fair, "1:10 1:9 2:10 sleep9 1:10 1:9 2:10 sleep9 1:10 done");
}

#[test]
fn fork_wait_sleep_signal() {
    let (rr, pq, fair) = decisions(fork_wait_sleep_signal_program);
    assert_eq!(rr, "1:3 1:2 2:3 sleep4 1:3 1:2 2:3 sleep9 1:3 done");
    assert_eq!(pq, "1:3 1:2 2:3 sleep4 1:3 1:2 2:3 sleep9 1:3 done");
    assert_eq!(fair, "1:10 1:9 2:10 sleep4 1:10 1:9 2:10 sleep9 1:10 done");
}

#[test]
fn send_receive() {
    let (rr, pq, fair) = decisions(send_receive_program);
    assert_eq!(rr, "1:3 1:2 2:3 1:3 1:3 1:2 2:3 2:3 sleep4 1:3 done");
    assert_eq!(pq, "1:3 1:2 2:3 1:3 1:3 1:2 2:3 2:3 sleep4 1:3 done");
    assert_eq!(fair, "1:10 1:9 2:3 1:10 sleep10 1:10 panic");
}

#[test]
fn workers() {
    let (rr, pq, fair) = decisions(workers_program);
    assert_eq!(rr, "1:3 1:2 1:1 2:3 3:3 4:3 1:3 1:3 1:3 1:3 1:1 2:3 3:3 4:3 1:3 sleep10 1:3 done");
    assert_eq!(pq, "1:3 1:2 1:1 2:3 3:3 4:3 1:3 1:3 1:3 1:3 1:1 2:3 3:3 4:3 1:3 sleep10 1:3 done");
    assert_eq!(fair, "1:10 1:9 1:8 1:7 2:2 3:3 4:5 1:10 2:6 3:5 1:10 4:9 1:10 sleep10 1:10 done");
}

#[test]
fn senders() {
    let (rr, pq, fair) = decisions(senders_program);
    assert_eq!(rr, "1:3 1:2 1:1 2:3 3:3 4:3 1:3 1:2 5:3 1:3 1:3 1:3 2:3 2:2 1:3 3:3 3:2 4:3 5:3 sleep6 1:3 done");
    assert_eq!(pq, "1:3 1:2 1:1 2:3 3:3 4:3 1:3 1:2 5:3 1:3 1:3 1:3 2:3 2:2 1:3 3:3 3:2 4:3 5:3 sleep6 1:3 done");
    assert_eq!(fair, "1:10 1:9 1:8 1:7 1:6 2:2 3:2 4:3 5:5 1:10 2:5 2:4 3:5 3:4 4:3 5:5 1:10 sleep10 1:10 done");
}

#[test]
fn single_worker() {
    let (rr, pq, fair) = decisions(single_worker_program);
    assert_eq!(rr, "1:3 1:2 2:3 1:3 2:3 1:3 2:3 1:3 2:3 1:3 2:3 1:3 2:3 1:3 2:3 1:3 1:3 1:3 1:3 done");
    assert_eq!(pq, "1:3 2:2 2:3 2:3 2:3 2:3 2:3 2:3 2:3 1:3 1:3 1:3 1:3 1:3 1:3 1:3 1:3 1:3 1:3 1:3 done");
    assert_eq!(fair, "1:10 1:9 2:5 2:5 1:5 2:5 1:5 2:5 1:5 2:5 1:10 done");
}

#[test]
fn worker_io() {
    let (rr, pq, fair) = decisions(worker_io_program);
    assert_eq!(rr, "1:3 1:2 2:3 1:3 2:3 1:3 2:3 1:3 2:3 1:3 1:3 2:3 1:3 1:3 2:3 1:3 1:3 2:3 1:3 1:3 2:3 1:3 1:3 2:3 1:3 1:3 1:3 1:3 done");
    assert_eq!(pq, "1:3 2:2 2:3 2:3 2:3 1:3 2:3 1:3 2:3 1:3 2:3 1:3 2:3 1:3 2:3 1:3 1:3 1:3 1:3 1:3 1:3 1:3 1:3 1:3 1:3 1:3 1:3 done");
    assert_eq!(fair, "1:10 1:9 2:5 2:5 1:5 2:5 1:10 2:5 1:10 2:5 1:10 2:5 1:10 panic");
}

#[test]
fn worker_3() {
    let (rr, pq, fair) = decisions(worker_3_program);
    assert_eq!(rr, "1:3 1:2 1:1 2:3 3:3 1:3 2:3 1:3 3:3 2:3 1:3 2:3 3:3 1:3 1:3 3:3 1:3 1:3 3:3 1:3 1:3 3:3 1:3 1:3 3:3 1:3 1:3 3:3 1:3 1:3 3:3 1:3 1:3 panic");
    assert_eq!(pq, "1:3 2:2 2:3 2:3 2:3 1:3 3:2 1:3 3:3 1:3 3:3 1:3 3:3 1:3 3:3 1:3 3:3 1:3 3:3 1:3 3:3 1:3 3:3 1:3 3:3 1:3 3:3 1:3 3:3 1:3 3:3 1:3 3:3 1:3 3:3 1:3 3:3 1:3 3:3 1:3 panic");
    assert_eq!(fair, "1:10 1:9 1:8 2:3 3:3 2:5 3:3 1:5 3:3 2:5 3:5 1:10 3:5 1:10 3:5 1:10 3:5 1:10 panic");
}

#[test]
fn worker_spawning() {
    let (rr, pq, fair) = decisions(worker_spawning_program);
    assert_eq!(rr, "1:3 1:2 2:3 1:3 2:3 1:3 2:3 1:3 2:3 1:3 2:3 1:3 2:3 1:3 2:3 1:3 3:3 2:3 1:3 3:3 1:3 3:3 1:3 3:3 1:3 3:3 1:3 3:3 1:3 3:3 1:3 1:3 1:3 1:3 done");
    assert_eq!(pq, "1:3 2:2 2:3 2:3 2:3 2:3 2:3 2:3 2:3 2:2 3:3 3:3 3:3 3:3 3:3 3:3 3:3 1:3 1:3 1:3 1:3 1:3 1:3 1:3 1:3 1:3 1:3 1:3 1:3 1:3 1:3 1:3 1:3 1:3 done");
    assert_eq!(fair, "1:10 1:9 2:5 2:5 1:5 2:5 1:5 2:5 1:5 2:5 2:4 3:5 1:5 3:5 1:5 3:5 1:5 3:5 1:5 3:5 1:10 done");
}

#[test]
fn sleeper() {
    let (rr, pq, fair) = decisions(sleeper_program);
    assert_eq!(rr, "1:3 1:2 2:3 2:2 3:3 2:3 3:3 2:3 3:3 2:3 3:3 2:3 3:3 2:3 3:3 2:3 3:3 2:3 2:2 4:3 4:3 4:3 4:3 4:3 4:3 4:3 sleep45 1:3 1:3 1:3 1:3 1:3 1:3 1:3 1:3 1:3 1:3 1:3 1:3 1:3 1:3 1:3 1:3 1:3 done");
    assert_eq!(pq, "1:3 2:2 2:1 3:3 2:3 3:3 2:3 3:3 2:3 3:3 2:3 3:3 2:3 3:3 2:3 3:3 2:3 2:1 4:3 4:3 4:3 4:3 4:3 4:3 4:3 1:3 sleep110 1:3 1:3 1:3 1:3 1:3 1:3 1:3 1:3 1:3 1:3 1:3 1:3 1:3 1:3 1:3 1:3 1:3 done");
    assert_eq!(fair, "1:10 1:9 2:10 2:9 3:5 3:5 2:5 3:5 2:5 3:5 2:5 4:3 4:3 4:3 4:3 4:3 4:3 4:3 2:5 3:10 sleep45 1:10 1:10 1:10 1:10 1:10 1:10 done");
}

// The scenarios below run with the round robin scheduler, a timeslice of 2
// and a minimum remaining timeslice of 1, where nothing else is said.

#[test]
fn single_process_five_execs() {
    let logs = simulate(round_robin(2, 1), execs(5));
    inspect(&logs);
    assert_eq!(trace(&logs), "1:2 1:2 1:2 done");
    assert_eq!(logs[0].stop_reason, Some((StopReason::Expired, SyscallResult::Success)));
    assert_eq!(logs[1].stop_reason, Some((StopReason::Expired, SyscallResult::Success)));
    assert_eq!(
        logs[2].stop_reason,
        Some((StopReason::Syscall { syscall: Syscall::Exit, remaining: 0 }, SyscallResult::Success))
    );
    assert_eq!(logs[3].stop_reason, None);
    assert_eq!(logs[0].processes[0].timings, (0, 0, 0));
    assert_eq!(logs[1].processes[0].timings, (2, 0, 2));
    assert_eq!(logs[2].processes[0].timings, (4, 0, 4));
    assert!(logs[3].processes.is_empty());
    let heading = "PID\tSTATE\t\tPRI\tTOTAL\tSYSCALL\tEXECUTE\tEXTRA\n";
    let expected = format!(
        "===== Iteration: 1 =====\nRun 1 for 2 slices\n{heading}1\tRUNNING\t\t0\t0\t0\t0\t\nExpired -> Success\n\n\n\
         ===== Iteration: 2 =====\nRun 1 for 2 slices\n{heading}1\tRUNNING\t\t0\t2\t0\t2\t\nExpired -> Success\n\n\n\
         ===== Iteration: 3 =====\nRun 1 for 2 slices\n{heading}1\tRUNNING\t\t0\t4\t0\t4\t\nSyscall Exit, remaining 0 -> Success\n\n\n\
         ===== Iteration: 4 =====\nDone, no more processes\n{heading}\n\n"
    );
    assert_eq!(format_logs(&logs), expected);
}

#[test]
fn fork_child_waits_parent_signals() {
    let child = vec![Op::Exec, Op::Exec, Op::Wait(1)];
    let root = join(vec![
        execs(4),
        vec![Op::Fork(child, 0), Op::Sleep(10), Op::Signal(1), Op::Exec],
    ]);
    let logs = simulate(round_robin(2, 1), root);
    inspect(&logs);
    // The parent runs for two quanta and forks at the start of the third. It
    // goes on with the rest of that quantum to call sleep, and sleeps while
    // the child runs for a quantum and blocks on event 1 in the next. The
    // sleep of 10 has 7 left when nothing can run.
    assert_eq!(trace(&logs), "1:2 1:2 1:2 1:1 2:2 2:2 sleep7 1:2 1:1 2:2 1:2 done");
    // The child is created ready and with zero timings.
    let born = &logs[3].processes[1];
    assert_eq!(born.pid.get(), 2);
    assert_eq!(born.state, ProcessState::Ready);
    assert_eq!(born.timings, (0, 0, 0));
    // The child waits for event 1 while the parent sleeps.
    let asleep = &logs[6];
    assert_eq!(asleep.processes[0].state, ProcessState::Waiting { event: None });
    assert_eq!(asleep.processes[1].state, ProcessState::Waiting { event: Some(1) });
    // The signal makes the child ready again.
    assert_eq!(logs[8].processes[1].state, ProcessState::Ready);
    assert_eq!(
        logs[7].stop_reason,
        Some((StopReason::Syscall { syscall: Syscall::Signal(1), remaining: 1 }, SyscallResult::Success))
    );
}

#[test]
fn wait_only_deadlock() {
    let logs = simulate(round_robin(2, 1), join(vec![execs(5), vec![Op::Wait(1)]]));
    inspect(&logs);
    assert_eq!(trace(&logs), "1:2 1:2 1:2 deadlock");
    let last = logs.last().unwrap();
    assert_eq!(last.processes.len(), 1);
    assert_eq!(last.processes[0].state, ProcessState::Waiting { event: Some(1) });
    assert_eq!(last.processes[0].timings, (6, 1, 5));
}

#[test]
fn signal_before_wait_still_deadlocks() {
    let logs = simulate(
        round_robin(2, 1),
        join(vec![execs(5), vec![Op::Signal(1), Op::Wait(1)]]),
    );
    inspect(&logs);
    assert_eq!(trace(&logs), "1:2 1:2 1:2 1:2 deadlock");
    let last = logs.last().unwrap();
    assert_eq!(last.processes[0].state, ProcessState::Waiting { event: Some(1) });
    assert_eq!(last.processes[0].timings, (7, 2, 5));
}

#[test]
fn exit_of_the_first_process_is_a_panic() {
    let child: Vec<Op> = execs(5);
    let logs = simulate(round_robin(2, 1), vec![Op::Fork(child, 0), Op::Exec]);
    inspect(&logs);
    assert_eq!(trace(&logs), "1:2 1:1 2:2 1:2 panic");
    let last = logs.last().unwrap();
    assert_eq!(last.decision, SchedulingDecision::Panic);
    assert_eq!(last.processes.len(), 1);
    assert_eq!(last.processes[0].pid.get(), 2);
}

fn vruntime(extra: &str) -> usize {
    extra.strip_prefix("vruntime=").unwrap().parse().unwrap()
}

/// Whether the virtual runtimes of the processes of `log` that can run
/// differ by no more than the share of 10 units of CPU time that each gets.
fn close(log: &Log) -> bool {
    let runnable: Vec<usize> = log
        .processes
        .iter()
        .filter(|p| p.state == ProcessState::Ready || p.state == ProcessState::Running)
        .map(|p| vruntime(&p.extra))
        .collect();
    if runnable.is_empty() {
        return true;
    }
    let quantum = std::cmp::max(1, 10 / runnable.len());
    let highest = *runnable.iter().max().unwrap();
    let lowest = *runnable.iter().min().unwrap();
    highest - lowest <= quantum
}

#[test]
fn fair_scheduler_keeps_virtual_runtimes_close() {
    let root = join(vec![vec![Op::Fork(execs(12), 5), Op::Fork(execs(12), 5)], execs(12)]);
    let logs = simulate(cfs(10, 1), root);
    inspect(&logs);
    assert_eq!(trace(&logs), "1:10 1:9 1:8 2:3 3:3 2:3 3:3 2:3 3:3 1:3 2:3 3:3 1:3 panic");
    // The parent goes on with the rest of its first quantum after each fork
    // and is 8 units ahead when that is used up. The children catch up in
    // turn, a share of 3 units at a time; after the seventh iteration no
    // process is ahead of another by more than a share.
    let ahead = logs.iter().rposition(|log| !close(log)).unwrap();
    assert_eq!(ahead, 6);
    assert!(logs[7..].iter().all(close));
    assert_eq!(logs[3].processes[0].extra, "vruntime=8");
    assert_eq!(logs[3].processes[1].extra, "vruntime=0");
    assert_eq!(logs[7].processes[0].extra, "vruntime=8");
    assert_eq!(logs[7].processes[1].extra, "vruntime=6");
    assert_eq!(logs[7].processes[2].extra, "vruntime=6");
}

#[test]
fn same_run_gives_the_same_log() {
    let first = simulate(cfs(10, 1), worker_3_program());
    let second = simulate(cfs(10, 1), worker_3_program());
    assert_eq!(first, second);
    assert_eq!(format_logs(&first), format_logs(&second));
    let first = simulate(priority_queue(3, 1), sleeper_program());
    let second = simulate(priority_queue(3, 1), sleeper_program());
    assert_eq!(format_logs(&first).into_bytes(), format_logs(&second).into_bytes());
}

#[test]
fn children_are_born_with_the_lowest_virtual_runtime() {
    let busy = |n: usize| join(vec![execs(n), vec![Op::Fork(execs(3), 0)], execs(n)]);
    let root = join(vec![
        vec![Op::Fork(busy(4), 0)],
        execs(7),
        vec![Op::Fork(busy(2), 0), Op::Sleep(3), Op::Fork(execs(2), 0)],
        execs(40),
    ]);
    let logs = simulate(cfs(10, 1), root);
    inspect(&logs);
    let mut known: Vec<usize> = Vec::new();
    let mut births: Vec<usize> = Vec::new();
    for log in &logs {
        for info in &log.processes {
            if !known.contains(&info.pid.get()) {
                known.push(info.pid.get());
                // A process shows up in the log as it was born.
                assert_eq!(info.timings, (0, 0, 0));
                let born = vruntime(&info.extra);
                for other in &log.processes {
                    assert!(born <= vruntime(&other.extra));
                }
                births.push(born);
            }
        }
    }
    assert_eq!(known, vec![1, 2, 3, 4, 5, 6]);
    // The lowest virtual runtime never decreases from one fork to the next.
    assert!(births.windows(2).all(|pair| pair[0] <= pair[1]));
    assert!(births.last().unwrap() > births.first().unwrap());
}

/// Reads back the iterations of a log from its text: for each the number,
/// the line of the decision and the rows of the processes.
fn read_back(text: &str) -> Vec<(usize, String, Vec<Vec<String>>)> {
    let mut entries = Vec::new();
    let mut lines = text.split('\n').peekable();
    while let Some(line) = lines.next() {
        if line.is_empty() {
            continue;
        }
        let number = line
            .strip_prefix("===== Iteration: ")
            .and_then(|rest| rest.strip_suffix(" ====="))
            .unwrap()
            .parse()
            .unwrap();
        let decision = String::from(lines.next().unwrap());
        assert_eq!(lines.next().unwrap(), "PID\tSTATE\t\tPRI\tTOTAL\tSYSCALL\tEXECUTE\tEXTRA");
        let mut rows = Vec::new();
        while lines.peek().unwrap().starts_with(|c: char| c.is_ascii_digit()) {
            rows.push(lines.next().unwrap().split('\t').map(String::from).collect());
        }
        entries.push((number, decision, rows));
        if !lines.peek().unwrap().is_empty() {
            lines.next();
        }
    }
    entries
}

#[test]
fn a_log_can_be_read_back_from_its_text() {
    for logs in [
        simulate(round_robin(3, 1), wait_3_program()),
        simulate(priority_queue(3, 1), senders_program()),
        simulate(cfs(10, 1), sleeper_program()),
    ] {
        let read = read_back(&format_logs(&logs));
        assert_eq!(read.len(), logs.len());
        for (at, (log, (number, decision, rows))) in logs.iter().zip(read).enumerate() {
            assert_eq!(number, at + 1);
            assert_eq!(decision, log.decision.to_text());
            assert_eq!(rows.len(), log.processes.len());
            for (info, row) in log.processes.iter().zip(rows) {
                assert_eq!(
                    row,
                    vec![
                        info.pid.get().to_string(),
                        info.state.to_text(),
                        String::new(),
                        info.priority.to_string(),
                        info.timings.0.to_string(),
                        info.timings.1.to_string(),
                        info.timings.2.to_string(),
                        info.extra.clone(),
                    ]
                );
            }
        }
    }
}
