//! The machine that carries out what [`State`] describes: the queues and
//! counters of a scheduler, and the operations on them that the three
//! policies share.

use crate::scheduler::{Pid, ProcessState, SchedulingDecision, StopReason, Syscall, SyscallResult};
use crate::schedulers::order::Order;
use crate::schedulers::pcb::PCB;
use crate::schedulers::queue::{
    age, aged, can_age, fits, lemma_first_sleeper, lemma_within, release, sound, Wake,
};
use crate::schedulers::state::{least_vruntime, Policy, State};
use vstd::prelude::*;

verus! {

/// The queues and counters of a scheduler.
pub struct Machine {
    policy: Policy,
    ready_queue: Vec<PCB>,
    waiting_queue: Vec<PCB>,
    current_process: Option<PCB>,
    next_pid: usize,
    timeslice: usize,
    minimum_remaining_timeslice: usize,
    panic: bool,
    remaining: usize,
    sleep: usize,
    cpu_time: usize,
    minimum_vruntime: usize,
}

/// The process `pcb` after `units` of time on the CPU, `calls` of them in a
/// system call.
fn bill(pcb: PCB, units: usize, calls: usize) -> (billed: PCB)
    requires
        pcb.sound(),
        pcb.can_bill(units as int, calls as int),
        calls <= 1,
        calls <= units,
    ensures
        billed == pcb.billed(units as int, calls as int),
{
    let mut billed = pcb;
    billed.timings.0 = billed.timings.0 + units;
    billed.timings.1 = billed.timings.1 + calls;
    billed.timings.2 = billed.timings.2 + (units - calls);
    if let Some(vruntime) = pcb.vruntime {
        billed.vruntime = Some(vruntime + (units - calls));
    }
    billed
}

/// Whether the counters of `pcb` can grow by `units` of time on the CPU,
/// `calls` of them in a system call.
fn can_bill(pcb: &PCB, units: usize, calls: usize) -> (fit: bool)
    requires
        calls <= 1,
        calls <= units,
    ensures
        fit == pcb.can_bill(units as int, calls as int),
{
    pcb.timings.0 <= usize::MAX - units && match pcb.vruntime {
        Some(v) => v <= usize::MAX - (units - calls),
        None => true,
    }
}

/// The lowest virtual runtime among `floor` and the processes of `queue`.
fn least(queue: &Vec<PCB>, floor: usize) -> (lowest: usize)
    ensures
        lowest == least_vruntime(queue@, floor),
{
    let mut lowest = floor;
    let mut i: usize = 0;
    while i < queue.len()
        invariant
            i <= queue.len(),
            lowest == least_vruntime(queue@.take(i as int), floor),
        decreases queue.len() - i,
    {
        assert(queue@.take(i as int + 1).drop_last() == queue@.take(i as int));
        let vruntime = match queue[i].vruntime {
            Some(v) => v,
            None => 0,
        };
        if vruntime < lowest {
            lowest = vruntime;
        }
        i = i + 1;
    }
    assert(queue@.take(i as int) == queue@);
    lowest
}

impl Machine {
    /// What the machine holds.
    pub closed spec fn view(&self) -> State {
        State {
            policy: self.policy,
            ready: self.ready_queue@,
            waiting: self.waiting_queue@,
            current: self.current_process,
            next_pid: self.next_pid,
            timeslice: self.timeslice,
            minimum_remaining_timeslice: self.minimum_remaining_timeslice,
            remaining: self.remaining,
            panic: self.panic,
            sleep: self.sleep,
            cpu_time: self.cpu_time,
            minimum_vruntime: self.minimum_vruntime,
        }
    }

    /// A machine without processes that grants `timeslice` time units.
    pub fn new(policy: Policy, timeslice: usize, minimum_remaining_timeslice: usize) -> (machine:
        Machine)
        requires
            timeslice > 0,
        ensures
            machine@ == State::initial(policy, timeslice, minimum_remaining_timeslice),
            machine@.inv(),
    {
        Machine {
            policy,
            ready_queue: Vec::new(),
            waiting_queue: Vec::new(),
            current_process: None,
            next_pid: 1,
            timeslice,
            minimum_remaining_timeslice,
            panic: false,
            remaining: timeslice,
            sleep: 0,
            cpu_time: timeslice,
            minimum_vruntime: 0,
        }
    }

    /// Moves the sleeping processes whose time to sleep is over to the end
    /// of the ready queue, in the ready state.
    pub(crate) fn wake(&mut self)
        ensures
            final(self)@ == old(self)@.woken(),
    {
        release(&mut self.waiting_queue, &mut self.ready_queue, Wake::Due);
    }

    /// Counts the time that the running process has used, with `remaining`
    /// left of its quantum, towards the total time of the ready processes.
    fn update_ready_timings(&mut self, remaining: usize)
        requires
            remaining <= old(self)@.remaining,
            can_age(old(self)@.ready, old(self)@.remaining - remaining),
            sound(old(self)@.ready),
        ensures
            final(self)@ == (State {
                ready: aged(old(self)@.ready, old(self)@.remaining - remaining),
                ..old(self)@
            }),
    {
        age(&mut self.ready_queue, self.remaining - remaining);
    }

    /// Counts the time that the running process has used, with `remaining`
    /// left of its quantum, towards the total time of the waiting processes
    /// and against the time that the sleeping ones have left to sleep.
    fn update_waiting_timings(&mut self, remaining: usize)
        requires
            remaining <= old(self)@.remaining,
            can_age(old(self)@.waiting, old(self)@.remaining - remaining),
            sound(old(self)@.waiting),
        ensures
            final(self)@ == (State {
                waiting: aged(old(self)@.waiting, old(self)@.remaining - remaining),
                ..old(self)@
            }),
    {
        age(&mut self.waiting_queue, self.remaining - remaining);
    }

    /// Puts the ready queue in the order of the policy.
    fn arrange(&mut self)
        ensures
            final(self)@ == (State { ready: old(self)@.arranged(old(self)@.ready), ..old(self)@ }),
    {
        match self.policy {
            Policy::RoundRobin => {},
            Policy::PriorityQueue => Order::Priority.sort(&mut self.ready_queue),
            Policy::Fair => Order::Fair.sort(&mut self.ready_queue),
        }
    }

    /// Puts `process`, which goes on being able to run, back in the ready
    /// queue: at the front, to go on with the `remaining` rest of its
    /// quantum, where that is at least the minimum; else at the back, and a
    /// new quantum begins.
    fn reschedule_process(&mut self, remaining: usize, process: PCB)
        ensures
            final(self)@ == old(self)@.rescheduled(remaining, process),
    {
        if remaining >= self.minimum_remaining_timeslice {
            self.ready_queue.insert(0, process);
            assert(self.ready_queue@ =~= seq![process] + old(self)@.ready);
            self.remaining = remaining;
        } else {
            self.ready_queue.push(process);
            self.remaining = self.timeslice;
        }
        self.arrange();
    }

    /// Records the lowest virtual runtime among `current`, the ready and the
    /// waiting processes.
    fn update_minimum_vruntime(&mut self, current: usize)
        ensures
            final(self)@ == (State {
                minimum_vruntime: least_vruntime(
                    old(self)@.waiting,
                    least_vruntime(old(self)@.ready, current),
                ),
                ..old(self)@
            }),
    {
        let lowest = least(&self.ready_queue, current);
        self.minimum_vruntime = least(&self.waiting_queue, lowest);
    }

    /// The quantum when as many processes as `others`, and one more where
    /// `and_one` is set, can run.
    fn quantum(&self, others: usize, and_one: bool) -> (quantum: usize)
        requires
            self@.timeslice >= 1,
        ensures
            quantum == self@.quantum(
                if and_one {
                    (others + 1) as nat
                } else {
                    others as nat
                },
            ),
            quantum >= 1,
    {
        match self.policy {
            Policy::Fair => {
                let share = if and_one {
                    if others >= self.cpu_time {
                        0
                    } else {
                        self.cpu_time / (others + 1)
                    }
                } else if others == 0 {
                    self.cpu_time
                } else {
                    self.cpu_time / others
                };
                proof {
                    if and_one && others >= self.cpu_time {
                        assert(self.cpu_time as int / (others + 1) == 0) by (nonlinear_arith)
                            requires
                                0 <= self.cpu_time <= others,
                        ;
                    }
                }
                if share < 1 {
                    1
                } else {
                    share
                }
            },
            _ => self.timeslice,
        }
    }

    /// Lets the time pass that the running process has used, with
    /// `remaining` left of its quantum, for the processes that do not run,
    /// and makes those ready whose sleep is over; and after that, where
    /// `signal` names an event, those that wait for it. No process runs
    /// afterwards.
    fn settle(&mut self, remaining: usize, signal: Option<usize>)
        requires
            remaining <= old(self)@.remaining,
            can_age(old(self)@.ready, old(self)@.remaining - remaining),
            can_age(old(self)@.waiting, old(self)@.remaining - remaining),
            sound(old(self)@.ready),
            sound(old(self)@.waiting),
        ensures
            final(self)@ == old(self)@.settled(old(self)@.remaining - remaining, signal),
    {
        self.update_ready_timings(remaining);
        self.update_waiting_timings(remaining);
        self.current_process = None;
        self.wake();
        if let Some(event) = signal {
            release(&mut self.waiting_queue, &mut self.ready_queue, Wake::Signal(event));
        }
    }

    /// Creates the process with PID 1, of priority `priority`, while no
    /// process runs.
    fn boot(&mut self, priority: i8) -> (pid: Pid)
        requires
            old(self)@.next_pid == 1,
        ensures
            final(self)@ == old(self)@.booted(priority),
            pid == Pid::of(old(self)@.next_pid),
    {
        let pid = Pid::new(self.next_pid);
        let mut child = PCB::new(pid, ProcessState::Ready, (0, 0, 0), priority);
        if let Policy::Fair = self.policy {
            child.vruntime = Some(self.minimum_vruntime);
        }
        self.ready_queue.push(child);
        self.next_pid = self.next_pid + 1;
        pid
    }

    /// Carries out the fork of a process of priority `priority` by the
    /// running process `current`, which has `remaining` left of its quantum.
    fn fork(&mut self, current: PCB, priority: i8, remaining: usize) -> (pid: Pid)
        requires
            old(self)@.inv(),
            old(self)@.current == Some(current),
            old(self)@.admits(StopReason::Syscall { syscall: Syscall::Fork(priority), remaining }),
        ensures
            final(self)@ == old(self)@.forked(current, priority, remaining),
            pid == Pid::of(old(self)@.next_pid),
    {
        proof {
            old(self)@.lemma_queues_sound();
        }
        let units = self.remaining - remaining;
        let mut parent = bill(current, units, 1);
        parent.state = ProcessState::Ready;
        self.settle(remaining, None);
        let pid = Pid::new(self.next_pid);
        let mut child = PCB::new(pid, ProcessState::Ready, (0, 0, 0), priority);
        if let Policy::Fair = self.policy {
            let vruntime = match parent.vruntime {
                Some(v) => v,
                None => 0,
            };
            self.update_minimum_vruntime(vruntime);
            child.vruntime = Some(self.minimum_vruntime);
        }
        self.ready_queue.push(child);
        self.next_pid = self.next_pid + 1;
        self.timeslice = self.quantum(self.ready_queue.len(), true);
        self.reschedule_process(remaining, parent);
        pid
    }

    /// Informs the scheduler that the running process has stopped for
    /// `reason`, and returns what the scheduler answers to the process.
    pub fn stop(&mut self, reason: StopReason) -> (result: SyscallResult)
        requires
            old(self)@.inv(),
            old(self)@.admits(reason),
        ensures
            final(self)@ == old(self)@.stopped(reason),
            result == old(self)@.outcome(reason),
            final(self)@.inv(),
    {
        proof {
            old(self)@.lemma_stopped_inv(reason);
            old(self)@.lemma_queues_sound();
        }
        let current = match self.current_process {
            Some(pcb) => pcb,
            None => {
                if let StopReason::Syscall { syscall: Syscall::Fork(priority), .. } = reason {
                    if self.next_pid == 1 {
                        return SyscallResult::Pid(self.boot(priority));
                    }
                }
                return SyscallResult::NoRunningProcess;
            },
        };
        match reason {
            StopReason::Syscall { syscall, remaining } => {
                let units = self.remaining - remaining;
                match syscall {
                    Syscall::Fork(priority) => SyscallResult::Pid(
                        self.fork(current, priority, remaining),
                    ),
                    Syscall::Sleep(amount) => {
                        let mut process = bill(current, units, 1);
                        process.state = ProcessState::Waiting { event: None };
                        process.sleep = amount as i128;
                        self.settle(remaining, None);
                        self.timeslice = self.quantum(self.ready_queue.len(), false);
                        self.waiting_queue.push(process);
                        self.remaining = self.timeslice;
                        self.arrange();
                        SyscallResult::Success
                    },
                    Syscall::Wait(event) => {
                        let mut process = bill(current, units, 1);
                        process.state = ProcessState::Waiting { event: Some(event) };
                        self.settle(remaining, None);
                        self.timeslice = self.quantum(self.ready_queue.len(), false);
                        self.waiting_queue.push(process);
                        self.remaining = self.timeslice;
                        self.arrange();
                        SyscallResult::Success
                    },
                    Syscall::Signal(event) => {
                        let mut process = bill(current, units, 1);
                        process.state = ProcessState::Ready;
                        self.settle(remaining, Some(event));
                        self.timeslice = self.quantum(self.ready_queue.len(), true);
                        self.reschedule_process(remaining, process);
                        SyscallResult::Success
                    },
                    Syscall::Exit => {
                        if current.pid.get() == 1 && (self.ready_queue.len() > 0
                            || self.waiting_queue.len() > 0) {
                            self.panic = true;
                        }
                        self.settle(remaining, None);
                        self.timeslice = self.quantum(self.ready_queue.len(), false);
                        self.remaining = self.timeslice;
                        self.arrange();
                        SyscallResult::Success
                    },
                }
            },
            StopReason::Expired => {
                let mut process = bill(current, self.remaining, 0);
                process.state = ProcessState::Ready;
                self.update_ready_timings(0);
                self.update_waiting_timings(0);
                self.current_process = None;
                self.ready_queue.push(process);
                self.wake();
                self.timeslice = self.quantum(self.ready_queue.len(), false);
                self.remaining = self.timeslice;
                self.arrange();
                SyscallResult::Success
            },
        }
    }

    /// Returns the action that the OS has to perform next.
    pub fn next(&mut self) -> (decision: SchedulingDecision)
        requires
            old(self)@.inv(),
            old(self)@.advances(),
        ensures
            final(self)@ == old(self)@.advanced(),
            decision == old(self)@.decision(),
            final(self)@.inv(),
    {
        if self.panic {
            return SchedulingDecision::Panic;
        }
        proof {
            old(self)@.lemma_advanced_inv();
            old(self)@.lemma_awake();
            old(self)@.lemma_queues_sound();
            Order::Sleep.lemma_sorted_holds(old(self)@.waiting);
            lemma_within(
                Order::Sleep.sorted(old(self)@.waiting),
                old(self)@.waiting,
                old(self)@.sleep as int,
            );
        }
        Order::Sleep.sort(&mut self.waiting_queue);
        age(&mut self.waiting_queue, self.sleep);
        self.sleep = 0;
        self.wake();
        assert(self@ == old(self)@.awake());
        if self.current_process.is_none() && self.ready_queue.len() == 0 && self.waiting_queue.len()
            > 0 {
            let mut at: usize = 0;
            while at < self.waiting_queue.len() && !self.waiting_queue[at].state.is_sleep()
                invariant
                    at <= self.waiting_queue.len(),
                    forall|i: int| 0 <= i < at ==> !(#[trigger] self.waiting_queue@[i]).is_sleeping(),
                decreases self.waiting_queue.len() - at,
            {
                at = at + 1;
            }
            proof {
                lemma_first_sleeper(self.waiting_queue@);
            }
            if at < self.waiting_queue.len() {
                assert(self.waiting_queue@.contains(self.waiting_queue@[at as int]));
                let amount = self.waiting_queue[at].sleep as usize;
                self.sleep = amount;
                return SchedulingDecision::Sleep(amount);
            }
            return SchedulingDecision::Deadlock;
        }
        if self.ready_queue.len() > 0 {
            let mut process = self.ready_queue.remove(0);
            process.state = ProcessState::Running;
            self.current_process = Some(process);
            assert(self.ready_queue@ =~= old(self)@.awake().ready.drop_first());
            return SchedulingDecision::Run { pid: process.pid, timeslice: self.remaining };
        }
        if let Some(process) = self.current_process {
            return SchedulingDecision::Run { pid: process.pid, timeslice: self.remaining };
        }
        SchedulingDecision::Done
    }

    /// Returns the list of processes: the running one first, then those
    /// that are ready in the order of their queue, then those that wait.
    pub fn list(&self) -> (processes: Vec<PCB>)
        ensures
            processes@ == self@.processes(),
    {
        let mut processes: Vec<PCB> = Vec::new();
        if let Some(process) = self.current_process {
            processes.push(process);
        }
        let ghost head = processes@;
        let mut i: usize = 0;
        while i < self.ready_queue.len()
            invariant
                i <= self.ready_queue.len(),
                processes@ == head + self.ready_queue@.take(i as int),
            decreases self.ready_queue.len() - i,
        {
            processes.push(self.ready_queue[i]);
            i = i + 1;
            assert(processes@ =~= head + self.ready_queue@.take(i as int));
        }
        assert(self.ready_queue@.take(i as int) == self.ready_queue@);
        let mut j: usize = 0;
        while j < self.waiting_queue.len()
            invariant
                j <= self.waiting_queue.len(),
                processes@ == head + self.ready_queue@ + self.waiting_queue@.take(j as int),
            decreases self.waiting_queue.len() - j,
        {
            processes.push(self.waiting_queue[j]);
            j = j + 1;
            assert(processes@ =~= head + self.ready_queue@ + self.waiting_queue@.take(j as int));
        }
        assert(self.waiting_queue@.take(j as int) == self.waiting_queue@);
        assert(processes@ =~= self@.processes());
        processes
    }

    /// Whether the scheduler can take a stop for `reason`.
    pub fn can_stop(&self, reason: StopReason) -> (admitted: bool)
        ensures
            admitted == self@.admits(reason),
    {
        match self.current_process {
            None => match reason {
                StopReason::Expired => false,
                _ => true,
            },
            Some(pcb) => match reason {
                StopReason::Expired => can_bill(&pcb, self.remaining, 0) && fits(
                    &self.ready_queue,
                    self.remaining,
                ) && fits(&self.waiting_queue, self.remaining),
                StopReason::Syscall { syscall, remaining } => {
                    if remaining >= self.remaining {
                        return false;
                    }
                    let units = self.remaining - remaining;
                    let rest = remaining > 0 || self.minimum_remaining_timeslice > 0;
                    fits(&self.ready_queue, units) && fits(&self.waiting_queue, units)
                        && match syscall {
                        Syscall::Exit => true,
                        Syscall::Fork(_) => can_bill(&pcb, units, 1) && self.next_pid < usize::MAX
                            && rest,
                        Syscall::Signal(_) => can_bill(&pcb, units, 1) && rest,
                        _ => can_bill(&pcb, units, 1),
                    }
                },
            },
        }
    }

    /// Whether the scheduler can choose the next action.
    pub fn can_next(&self) -> (admitted: bool)
        ensures
            admitted == self@.advances(),
    {
        self.panic || fits(&self.waiting_queue, self.sleep)
    }
}

} // verus!
