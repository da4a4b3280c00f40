//! A process scheduler simulator.
//!
//! The library models a single CPU on which processes issue system calls and
//! consume time, and the schedulers that decide which process runs next.

pub mod format;
pub mod legible;
pub mod processor;
pub mod scheduler;
pub mod schedulers;
pub mod text;

pub use crate::scheduler::{
    Pid, Process, ProcessState, ProcessView, Scheduler, SchedulingDecision, StopReason, Syscall,
    SyscallResult,
};
pub use crate::format::format_logs;
pub use crate::processor::{Log, ProcessInfo, Processor};
pub use crate::schedulers::pcb::PCB;
pub use crate::schedulers::{PriorityQueue, RoundRobin, CFS};

use crate::schedulers::state::{Policy, State};
use vstd::prelude::*;

verus! {

/// Returns a scheduler with a round robin scheduler policy.
///
/// * `timeslice` - the time quanta that a process can run before it is preempted
/// * `minimum_remaining_timeslice` - when a process makes a system call, the scheduler
///   has to decide whether to schedule it again for the remaining time of its quanta,
///   or to schedule a new process. The scheduler will schedule the process again if
///   the remaining quanta is greater or equal to the `minimum_remaining_timeslice`
///   value.
pub fn round_robin(timeslice: usize, minimum_remaining_timeslice: usize) -> (scheduler: RoundRobin)
    requires
        timeslice > 0,
    ensures
        scheduler@ == State::initial(Policy::RoundRobin, timeslice, minimum_remaining_timeslice),
        scheduler.inv(),
{
    RoundRobin::new(timeslice, minimum_remaining_timeslice)
}

/// Returns a scheduler with a priority queue scheduler policy.
///
/// * `timeslice` - the time quanta that a process can run before it is preempted
/// * `minimum_remaining_timeslice` - when a process makes a system call, the scheduler
///   has to decide whether to schedule it again for the remaining time of its quanta,
///   or to schedule a new process. The scheduler will schedule the process again if
///   the remaining quanta is greater or equal to the `minimum_remaining_timeslice`
///   value.
pub fn priority_queue(timeslice: usize, minimum_remaining_timeslice: usize) -> (scheduler:
    PriorityQueue)
    requires
        timeslice > 0,
    ensures
        scheduler@ == State::initial(Policy::PriorityQueue, timeslice, minimum_remaining_timeslice),
        scheduler.inv(),
{
    PriorityQueue::new(timeslice, minimum_remaining_timeslice)
}

/// Returns a scheduler with a simplified completely fair scheduler policy.
///
/// * `cpu_time` - the total time units that the CPU has for an iteration, this is
///   used to compute the `timeslice` of each process.
/// * `minimum_remaining_timeslice` - when a process makes a system call, the scheduler
///   has to decide whether to schedule it again for the remaining time of its quanta,
///   or to schedule a new process. The scheduler will schedule the process again if
///   the remaining quanta is greater or equal to the `minimum_remaining_timeslice`
///   value.
pub fn cfs(cpu_time: usize, minimum_remaining_timeslice: usize) -> (scheduler: CFS)
    requires
        cpu_time > 0,
    ensures
        scheduler@ == State::initial(Policy::Fair, cpu_time, minimum_remaining_timeslice),
        scheduler.inv(),
{
    CFS::new(cpu_time, minimum_remaining_timeslice)
}

} // verus!
