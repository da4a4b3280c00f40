//! What the schedulers of this library hold, and what their operations do
//! to it.
//!
//! A scheduler holds the processes that are ready to run, those that wait,
//! and the one that runs. [`State::stopped`] says what a stop of the running
//! process does to them, and [`State::advanced`] what the choice of the next
//! action does.

use crate::scheduler::{Pid, ProcessState, SchedulingDecision, StopReason, Syscall, SyscallResult};
use crate::schedulers::order::Order;
use crate::schedulers::pcb::PCB;
use crate::schedulers::queue::{aged, can_age, first_sleeper, released, retained, Wake};
use vstd::prelude::*;

verus! {

/// The policy by which a scheduler orders the ready queue and grants time.
#[derive(Copy, Clone, PartialEq, Eq, Structural, Debug)]
pub enum Policy {
    /// First come, first served, with a fixed quantum.
    RoundRobin,
    /// The highest priority first, with a fixed quantum.
    PriorityQueue,
    /// The lowest virtual runtime first, with the CPU time of an iteration
    /// shared among the processes that can run.
    Fair,
}

/// The share of `cpu_time` that each of `runnable` processes gets: at least
/// one time unit, also where there are more processes than time units or no
/// process at all.
pub open spec fn share(cpu_time: usize, runnable: nat) -> usize {
    let processes: int = if runnable < 1 {
        1
    } else {
        runnable as int
    };
    if cpu_time as int / processes < 1 {
        1
    } else {
        (cpu_time as int / processes) as usize
    }
}

/// The lowest virtual runtime among `floor` and the processes of `queue`.
pub open spec fn least_vruntime(queue: Seq<PCB>, floor: usize) -> usize
    decreases queue.len(),
{
    if queue.len() == 0 {
        floor
    } else {
        let rest = least_vruntime(queue.drop_last(), floor);
        if queue.last().fair_time() < rest {
            queue.last().fair_time()
        } else {
            rest
        }
    }
}

/// What a scheduler holds.
pub struct State {
    /// The policy of the scheduler.
    pub policy: Policy,
    /// The processes that can run, the next one to run first.
    pub ready: Seq<PCB>,
    /// The processes that sleep or wait for an event.
    pub waiting: Seq<PCB>,
    /// The process that runs.
    pub current: Option<PCB>,
    /// The PID that the next new process gets.
    pub next_pid: usize,
    /// The quantum: the time units that a process is granted at most.
    pub timeslice: usize,
    /// What a process must have left of its quantum after a system call to
    /// go on with it.
    pub minimum_remaining_timeslice: usize,
    /// What is left of the quantum that was granted last.
    pub remaining: usize,
    /// The process with PID 1 has exited and left others behind.
    pub panic: bool,
    /// The time units of the sleep that was decided last and that the
    /// waiting processes have not been charged yet.
    pub sleep: usize,
    /// The time units that a fair scheduler shares out in an iteration.
    pub cpu_time: usize,
    /// The lowest virtual runtime that a fair scheduler has seen among its
    /// processes at the last fork.
    pub minimum_vruntime: usize,
}

impl State {
    /// The state of a new scheduler, which holds no process yet and grants
    /// `timeslice` time units.
    pub open spec fn initial(
        policy: Policy,
        timeslice: usize,
        minimum_remaining_timeslice: usize,
    ) -> State {
        State {
            policy,
            ready: Seq::empty(),
            waiting: Seq::empty(),
            current: None,
            next_pid: 1,
            timeslice,
            minimum_remaining_timeslice,
            remaining: timeslice,
            panic: false,
            sleep: 0,
            cpu_time: timeslice,
            minimum_vruntime: 0,
        }
    }

    /// The quantum when `runnable` processes can run.
    pub open spec fn quantum(self, runnable: nat) -> usize {
        if self.policy == Policy::Fair {
            share(self.cpu_time, runnable)
        } else {
            self.timeslice
        }
    }

    /// The ready queue `ready` in the order of the policy.
    pub open spec fn arranged(self, ready: Seq<PCB>) -> Seq<PCB> {
        match self.policy {
            Policy::RoundRobin => ready,
            Policy::PriorityQueue => Order::Priority.sorted(ready),
            Policy::Fair => Order::Fair.sorted(ready),
        }
    }

    /// The process that a fork with priority `priority` creates, given the
    /// lowest virtual runtime `floor` of the processes there are.
    pub open spec fn child(self, priority: i8, floor: usize) -> PCB {
        PCB {
            pid: Pid::of(self.next_pid),
            state: ProcessState::Ready,
            timings: (0, 0, 0),
            priority,
            sleep: 0,
            vruntime: if self.policy == Policy::Fair {
                Some(floor)
            } else {
                None
            },
        }
    }

    /// The state after `units` of time have passed for the processes that
    /// do not run. No process runs in that state.
    pub open spec fn passed(self, units: int) -> State {
        State {
            ready: aged(self.ready, units),
            waiting: aged(self.waiting, units),
            current: None,
            ..self
        }
    }

    /// The state after the sleeping processes whose time to sleep is over
    /// have become ready.
    pub open spec fn woken(self) -> State {
        State {
            ready: self.ready + released(self.waiting, Wake::Due),
            waiting: retained(self.waiting, Wake::Due),
            ..self
        }
    }

    /// The state after `units` of time have passed for the processes that
    /// do not run and those whose sleep is over have become ready; and
    /// after that, where `signal` names an event, those that wait for it.
    /// No process runs in that state.
    pub open spec fn settled(self, units: int, signal: Option<usize>) -> State {
        let awake = self.passed(units).woken();
        match signal {
            Some(event) => State {
                ready: awake.ready + released(awake.waiting, Wake::Signal(event)),
                waiting: retained(awake.waiting, Wake::Signal(event)),
                ..awake
            },
            None => awake,
        }
    }

    /// The state in which the process `pcb`, which goes on being able to
    /// run, is back in the ready queue with `remaining` left of its quantum:
    /// at the front where that is at least the minimum, to go on with what
    /// is left; else at the back, and a new quantum begins.
    pub open spec fn rescheduled(self, remaining: usize, pcb: PCB) -> State {
        if remaining >= self.minimum_remaining_timeslice {
            State { ready: self.arranged(seq![pcb] + self.ready), remaining, ..self }
        } else {
            State { ready: self.arranged(self.ready.push(pcb)), remaining: self.timeslice, ..self }
        }
    }

    /// The state after the very first fork, which creates the process with
    /// PID 1 while no process runs.
    pub open spec fn booted(self, priority: i8) -> State {
        State {
            ready: self.ready.push(self.child(priority, self.minimum_vruntime)),
            next_pid: (self.next_pid + 1) as usize,
            ..self
        }
    }

    /// The state after the running process `pcb` has forked a process of
    /// priority `priority` with `remaining` left of its quantum.
    pub open spec fn forked(self, pcb: PCB, priority: i8, remaining: usize) -> State {
        let units = self.remaining - remaining;
        let parent = pcb.billed(units, 1);
        let settled = self.settled(units, None);
        let floor = if self.policy == Policy::Fair {
            least_vruntime(settled.waiting, least_vruntime(settled.ready, parent.fair_time()))
        } else {
            self.minimum_vruntime
        };
        let ready = settled.ready.push(self.child(priority, floor));
        State {
            ready,
            next_pid: (self.next_pid + 1) as usize,
            timeslice: self.quantum(ready.len() + 1),
            minimum_vruntime: floor,
            ..settled
        }.rescheduled(remaining, parent.readied())
    }

    /// The state after the running process `pcb` has begun to wait, for
    /// `event` or, where that is `None`, for `amount` units of time to pass,
    /// with `remaining` left of its quantum.
    pub open spec fn suspended(
        self,
        pcb: PCB,
        event: Option<usize>,
        amount: usize,
        remaining: usize,
    ) -> State {
        let units = self.remaining - remaining;
        let settled = self.settled(units, None);
        let timeslice = self.quantum(settled.ready.len());
        let waiter = PCB {
            state: ProcessState::Waiting { event },
            sleep: if event is None {
                amount as i128
            } else {
                pcb.sleep
            },
            ..pcb.billed(units, 1)
        };
        State {
            ready: self.arranged(settled.ready),
            waiting: settled.waiting.push(waiter),
            timeslice,
            remaining: timeslice,
            ..settled
        }
    }

    /// The state after the running process `pcb` has signalled `event` with
    /// `remaining` left of its quantum.
    pub open spec fn signalled(self, pcb: PCB, event: usize, remaining: usize) -> State {
        let units = self.remaining - remaining;
        let settled = self.settled(units, Some(event));
        let timeslice = self.quantum(settled.ready.len() + 1);
        State { timeslice, ..settled }.rescheduled(remaining, pcb.billed(units, 1).readied())
    }

    /// The state after the running process `pcb` has exited with
    /// `remaining` left of its quantum. The exit of the process with PID 1
    /// while other processes are left is a panic.
    pub open spec fn exited(self, pcb: PCB, remaining: usize) -> State {
        let units = self.remaining - remaining;
        let settled = self.settled(units, None);
        let timeslice = self.quantum(settled.ready.len());
        State {
            ready: self.arranged(settled.ready),
            timeslice,
            remaining: timeslice,
            panic: self.panic || (pcb.pid.value() == 1 && (self.ready.len() > 0
                || self.waiting.len() > 0)),
            ..settled
        }
    }

    /// The state after the running process `pcb` has used up its quantum:
    /// it goes to the end of the ready queue, ahead of the processes whose
    /// sleep is over by then, and a new quantum begins.
    pub open spec fn preempted(self, pcb: PCB) -> State {
        let units = self.remaining as int;
        let passed = self.passed(units);
        let queued = State {
            ready: passed.ready.push(pcb.billed(units, 0).readied()),
            ..passed
        }.woken();
        let timeslice = self.quantum(queued.ready.len());
        State { ready: self.arranged(queued.ready), timeslice, remaining: timeslice, ..queued }
    }

    /// A stop for `reason` finds the scheduler without a running process
    /// and is not the first fork either: it changes nothing.
    pub open spec fn idles(self, reason: StopReason) -> bool {
        self.current is None && !(self.next_pid == 1 && reason matches StopReason::Syscall {
            syscall: Syscall::Fork(_),
            ..
        })
    }

    /// The state after the running process has stopped for `reason`.
    pub open spec fn stopped(self, reason: StopReason) -> State {
        match (self.current, reason) {
            (None, StopReason::Syscall { syscall: Syscall::Fork(priority), .. }) => {
                if self.next_pid == 1 {
                    self.booted(priority)
                } else {
                    self
                }
            },
            (None, _) => self,
            (Some(pcb), StopReason::Expired) => self.preempted(pcb),
            (Some(pcb), StopReason::Syscall { syscall, remaining }) => match syscall {
                Syscall::Fork(priority) => self.forked(pcb, priority, remaining),
                Syscall::Sleep(amount) => self.suspended(pcb, None, amount, remaining),
                Syscall::Wait(event) => self.suspended(pcb, Some(event), 0, remaining),
                Syscall::Signal(event) => self.signalled(pcb, event, remaining),
                Syscall::Exit => self.exited(pcb, remaining),
            },
        }
    }

    /// What the scheduler answers to a stop for `reason`: the PID of the new
    /// process to a fork, that no process runs where none does (but for the
    /// first fork), and success to everything else.
    pub open spec fn outcome(self, reason: StopReason) -> SyscallResult {
        if self.idles(reason) {
            SyscallResult::NoRunningProcess
        } else if reason matches StopReason::Syscall { syscall: Syscall::Fork(_), .. } {
            SyscallResult::Pid(Pid::of(self.next_pid))
        } else {
            SyscallResult::Success
        }
    }

    /// The state of the queues when the next action is chosen: the waiting
    /// queue is in the order of the time left to sleep, the sleep that was
    /// decided last has been charged, and the processes whose sleep is over
    /// have become ready.
    pub open spec fn awake(self) -> State {
        let waiting = aged(Order::Sleep.sorted(self.waiting), self.sleep as int);
        State {
            ready: self.ready + released(waiting, Wake::Due),
            waiting: retained(waiting, Wake::Due),
            sleep: 0,
            ..self
        }
    }

    /// No process runs or can run, but some wait.
    pub open spec fn is_idle(self) -> bool {
        self.current is None && self.ready.len() == 0 && self.waiting.len() > 0
    }

    /// The time until the first of the sleeping processes wakes up, where
    /// the waiting queue is in the order of the time left to sleep.
    pub open spec fn nap(self) -> usize {
        self.waiting[first_sleeper(self.waiting)].sleep as usize
    }

    /// The action that the scheduler asks for next.
    pub open spec fn decision(self) -> SchedulingDecision {
        let awake = self.awake();
        if self.panic {
            SchedulingDecision::Panic
        } else if awake.is_idle() {
            if first_sleeper(awake.waiting) < awake.waiting.len() {
                SchedulingDecision::Sleep(awake.nap())
            } else {
                SchedulingDecision::Deadlock
            }
        } else if awake.ready.len() > 0 {
            SchedulingDecision::Run { pid: awake.ready[0].pid, timeslice: self.remaining }
        } else if let Some(pcb) = self.current {
            SchedulingDecision::Run { pid: pcb.pid, timeslice: self.remaining }
        } else {
            SchedulingDecision::Done
        }
    }

    /// The state after the scheduler has chosen the next action.
    pub open spec fn advanced(self) -> State {
        let awake = self.awake();
        if self.panic {
            self
        } else if awake.is_idle() {
            if first_sleeper(awake.waiting) < awake.waiting.len() {
                State { sleep: awake.nap(), ..awake }
            } else {
                awake
            }
        } else if awake.ready.len() > 0 {
            State {
                current: Some(awake.ready[0].dispatched()),
                ready: awake.ready.drop_first(),
                ..awake
            }
        } else {
            awake
        }
    }

    /// The processes of the scheduler: the running one first, then those
    /// that are ready in the order of their queue, then those that wait.
    pub open spec fn processes(self) -> Seq<PCB> {
        match self.current {
            Some(pcb) => seq![pcb] + self.ready + self.waiting,
            None => self.ready + self.waiting,
        }
    }

    /// The scheduler can take a stop for `reason`: the running process has
    /// used at least the time unit of its system call, the counters of the
    /// processes can hold the time that has passed, a fork finds a PID that
    /// is free, and a process that goes on with the rest of its quantum has
    /// a rest to go on with. What has expired is the quantum of a process
    /// that runs.
    pub open spec fn admits(self, reason: StopReason) -> bool {
        match (self.current, reason) {
            (None, StopReason::Expired) => false,
            (None, _) => true,
            (Some(pcb), StopReason::Expired) => {
                &&& pcb.can_bill(self.remaining as int, 0)
                &&& can_age(self.ready, self.remaining as int)
                &&& can_age(self.waiting, self.remaining as int)
            },
            (Some(pcb), StopReason::Syscall { syscall, remaining }) => {
                &&& remaining < self.remaining
                &&& can_age(self.ready, self.remaining - remaining)
                &&& can_age(self.waiting, self.remaining - remaining)
                &&& syscall != Syscall::Exit ==> pcb.can_bill(self.remaining - remaining, 1)
                &&& syscall is Fork ==> self.next_pid < usize::MAX
                &&& syscall is Fork || syscall is Signal ==> remaining > 0
                    || self.minimum_remaining_timeslice > 0
            },
        }
    }

    /// The scheduler can choose the next action: the total times of the
    /// waiting processes can hold the sleep that was decided last.
    pub open spec fn advances(self) -> bool {
        !self.panic ==> can_age(self.waiting, self.sleep as int)
    }

    /// The process `pcb` is one that this scheduler can hold: its timings
    /// are consistent, its PID has been given out, and it has a virtual
    /// runtime, not below the lowest seen at the last fork, exactly if the
    /// scheduler is fair.
    pub open spec fn holds(self, pcb: PCB) -> bool {
        &&& pcb.sound()
        &&& 1 <= pcb.pid.value() < self.next_pid
        &&& pcb.vruntime is Some <==> self.policy == Policy::Fair
        &&& self.policy == Policy::Fair ==> pcb.fair_time() >= self.minimum_vruntime
    }

    /// The processes of `queue` are ready and such as this scheduler can hold.
    pub open spec fn ready_ok(self, queue: Seq<PCB>) -> bool {
        forall|p: PCB| #[trigger] queue.contains(p) ==> p.state == ProcessState::Ready && self.holds(p)
    }

    /// The processes of `queue` wait and are such as this scheduler can hold.
    pub open spec fn waiting_ok(self, queue: Seq<PCB>) -> bool {
        forall|p: PCB| #[trigger] queue.contains(p) ==> p.state is Waiting && self.holds(p)
    }

    /// The processes of the waiting queue `queue` that sleep have time left
    /// to sleep.
    pub open spec fn asleep(queue: Seq<PCB>) -> bool {
        forall|p: PCB| #[trigger] queue.contains(p) && p.is_sleeping() ==> p.sleep > 0
    }

    /// What holds of a scheduler between any two of its operations.
    ///
    /// The processes of the ready queue are ready, those of the waiting queue
    /// wait and the one that runs is running, so at most one process is
    /// running. No sleeping process has less than nothing left to sleep.
    /// Quanta are at least one time unit. Before the first fork there is no
    /// process. While a sleep that was decided has not been charged, no
    /// process runs or is ready, every sleeping process has time left to
    /// sleep, and the sleep that was decided ends that of one of them.
    pub open spec fn inv(self) -> bool {
        &&& self.ready_ok(self.ready)
        &&& self.waiting_ok(self.waiting)
        &&& forall|p: PCB| #[trigger] self.waiting.contains(p) && p.is_sleeping() ==> p.sleep >= 0
        &&& self.current matches Some(pcb) ==> pcb.state == ProcessState::Running && self.holds(pcb)
        &&& self.next_pid >= 1
        &&& self.timeslice >= 1
        &&& self.remaining >= 1
        &&& self.cpu_time >= 1
        &&& self.next_pid == 1 ==> self.ready.len() == 0 && self.waiting.len() == 0
        &&& self.sleep > 0 ==> self.current is None && self.ready.len() == 0 && Self::asleep(
            self.waiting,
        ) && exists|p: PCB| #[trigger]
            self.waiting.contains(p) && p.is_sleeping() && p.sleep <= self.sleep
    }
}

} // verus!
