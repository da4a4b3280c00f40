use scheduler::schedulers::machine::Machine;
use scheduler::schedulers::order::Order;
use scheduler::schedulers::queue::{age, fits, release, Wake};
use scheduler::schedulers::state::Policy;
use scheduler::{Pid, ProcessState, SchedulingDecision, StopReason, Syscall, SyscallResult, PCB};

fn pcb(pid: usize, state: ProcessState) -> PCB {
    PCB::new(Pid::new(pid), state, (0, 0, 0), 0)
}

fn sleeper(pid: usize, sleep: i128) -> PCB {
    PCB { sleep, ..pcb(pid, ProcessState::Waiting { event: None }) }
}

fn waiter(pid: usize, event: usize) -> PCB {
    pcb(pid, ProcessState::Waiting { event: Some(event) })
}

fn pids(queue: &[PCB]) -> Vec<usize> {
    queue.iter().map(|p| p.pid.get()).collect()
}

#[test]
fn sorting_by_sleep_keeps_ties_in_place() {
    let mut queue = vec![sleeper(1, 5), sleeper(2, 3), sleeper(3, 5), sleeper(4, 3), sleeper(5, 4)];
    Order::Sleep.sort(&mut queue);
    assert_eq!(pids(&queue), vec![2, 4, 5, 1, 3]);
    // A process that waits for an event is sorted by what it had left to sleep.
    let mut queue = vec![sleeper(1, 2), PCB { sleep: -1, ..waiter(2, 7) }, waiter(3, 7)];
    Order::Sleep.sort(&mut queue);
    assert_eq!(pids(&queue), vec![2, 3, 1]);
    let mut none: Vec<PCB> = Vec::new();
    Order::Sleep.sort(&mut none);
    assert!(none.is_empty());
}

#[test]
fn sorting_by_priority_puts_the_highest_first() {
    let with = |pid: usize, priority: i8| PCB { priority, ..pcb(pid, ProcessState::Ready) };
    let mut queue = vec![with(1, 0), with(2, 5), with(3, -2), with(4, 5), with(5, 0), with(6, 127)];
    Order::Priority.sort(&mut queue);
    assert_eq!(pids(&queue), vec![6, 2, 4, 1, 5, 3]);
    assert!(Order::Priority.comes_before(&with(1, 1), &with(2, 0)));
    assert!(!Order::Priority.comes_before(&with(1, 1), &with(2, 1)));
}

#[test]
fn sorting_by_virtual_runtime_breaks_ties_by_pid() {
    let with = |pid: usize, vruntime: usize| PCB {
        vruntime: Some(vruntime),
        ..pcb(pid, ProcessState::Ready)
    };
    let mut queue = vec![with(4, 7), with(3, 2), with(2, 7), with(1, 9), with(5, 2)];
    Order::Fair.sort(&mut queue);
    assert_eq!(pids(&queue), vec![3, 5, 2, 4, 1]);
    assert!(Order::Fair.comes_before(&with(1, 3), &with(2, 3)));
    assert!(!Order::Fair.comes_before(&with(2, 3), &with(1, 3)));
    assert!(Order::Fair.comes_before(&with(2, 2), &with(1, 3)));
}

#[test]
fn time_passes_for_all_and_sleepers_sleep_less() {
    let mut queue = vec![
        PCB { timings: (4, 1, 2), ..sleeper(1, 10) },
        PCB { timings: (7, 0, 0), sleep: 3, ..waiter(2, 1) },
        PCB { timings: (0, 0, 0), ..sleeper(3, 2) },
    ];
    age(&mut queue, 5);
    assert_eq!(queue[0].timings, (9, 1, 2));
    assert_eq!(queue[0].sleep, 5);
    assert_eq!(queue[1].timings, (12, 0, 0));
    assert_eq!(queue[1].sleep, 3);
    assert_eq!(queue[2].timings, (5, 0, 0));
    assert_eq!(queue[2].sleep, -3);
    assert!(fits(&queue, usize::MAX - 12));
    assert!(!fits(&queue, usize::MAX - 11));
}

#[test]
fn a_wake_moves_whom_it_concerns() {
    let mut waiting = vec![sleeper(1, 0), waiter(2, 4), sleeper(3, 1), sleeper(4, -2), waiter(5, 6)];
    let mut ready = vec![pcb(9, ProcessState::Ready)];
    release(&mut waiting, &mut ready, Wake::Due);
    assert_eq!(pids(&ready), vec![9, 1, 4]);
    assert_eq!(pids(&waiting), vec![2, 3, 5]);
    assert!(ready.iter().all(|p| p.state == ProcessState::Ready));
    release(&mut waiting, &mut ready, Wake::Signal(6));
    assert_eq!(pids(&ready), vec![9, 1, 4, 5]);
    assert_eq!(pids(&waiting), vec![2, 3]);
    release(&mut waiting, &mut ready, Wake::Signal(7));
    assert_eq!(pids(&waiting), vec![2, 3]);
    assert!(Wake::Signal(4).wakes(&waiter(2, 4)));
    assert!(!Wake::Signal(4).wakes(&sleeper(1, 0)));
    assert!(!Wake::Due.wakes(&PCB { sleep: -5, ..waiter(2, 4) }));
}

#[test]
fn the_machine_is_the_scheduler_of_its_policy() {
    let mut machine = Machine::new(Policy::PriorityQueue, 4, 1);
    assert!(machine.can_next());
    assert_eq!(machine.next(), SchedulingDecision::Done);
    let fork = |priority: i8, remaining: usize| StopReason::Syscall {
        syscall: Syscall::Fork(priority),
        remaining,
    };
    assert!(machine.can_stop(fork(0, 0)));
    assert_eq!(machine.stop(fork(0, 0)), SyscallResult::Pid(Pid::new(1)));
    assert_eq!(machine.next(), SchedulingDecision::Run { pid: Pid::new(1), timeslice: 4 });
    assert_eq!(machine.stop(fork(3, 3)), SyscallResult::Pid(Pid::new(2)));
    assert_eq!(pids(&machine.list()), vec![2, 1]);
    assert_eq!(machine.next(), SchedulingDecision::Run { pid: Pid::new(2), timeslice: 3 });
    assert_eq!(pids(&machine.list()), vec![2, 1]);
    assert_eq!(machine.list()[0].state, ProcessState::Running);
}
