//! The vocabulary shared by schedulers and the processor that drives them:
//! process identifiers, process states, system calls, the reasons for which a
//! process stops and the decisions a scheduler takes.

use vstd::prelude::*;

verus! {

/// The PID of a process.
///
/// The PID cannot be 0, PIDs start from 1.
#[derive(PartialEq, Eq, Structural, Copy, Clone, Hash, PartialOrd, Ord, Debug)]
pub struct Pid(usize);

impl Pid {
    /// The number that this PID stands for.
    pub closed spec fn value(self) -> usize {
        self.0
    }

    /// The PID that stands for the number `pid`.
    pub closed spec fn of(pid: usize) -> Pid {
        Pid(pid)
    }

    #[verifier::type_invariant]
    spec fn positive(self) -> bool {
        self.0 > 0
    }

    /// The PID with the number `pid`.
    pub fn new(pid: usize) -> (id: Pid)
        requires
            pid > 0,
        ensures
            id == Pid::of(pid),
            id.value() == pid,
    {
        Pid(pid)
    }

    /// The number of this PID, which is never 0.
    pub fn get(&self) -> (n: usize)
        ensures
            n == self.value(),
            n > 0,
    {
        proof {
            use_type_invariant(self);
        }
        self.0
    }

    /// The PID that lies `rhs` after this one.
    pub fn add(self, rhs: usize) -> (id: Pid)
        requires
            self.value() + rhs <= usize::MAX,
        ensures
            id.value() == self.value() + rhs,
    {
        proof {
            use_type_invariant(self);
        }
        Pid(self.0 + rhs)
    }
}

/// A PID is known by its number: two PIDs with the same number are the same
/// PID, and the PID made of a number stands for that number.
pub broadcast proof fn lemma_pid_of_value(pid: Pid)
    ensures
        #[trigger] Pid::of(pid.value()) == pid,
{
}

/// The PID made of a number stands for that number.
pub broadcast proof fn lemma_pid_value_of(n: usize)
    ensures
        #[trigger] Pid::of(n).value() == n,
{
}

pub broadcast group group_pid {
    lemma_pid_of_value,
    lemma_pid_value_of,
}

/// The action that the scheduler asks the OS to take.
///
/// This is returned by [`Scheduler::next`].
#[derive(Debug, Copy, Clone, PartialEq, Eq, Structural)]
pub enum SchedulingDecision {
    /// Run the process with PID `pid` for a maximum of `timeslice` time units.
    Run { pid: Pid, timeslice: usize },
    /// Sleep the amount of specified time units.
    Sleep(usize),
    /// The OS cannot continue anymore, as all the processes are waiting for events.
    ///
    /// In this case there is no other process that can fire any events, which means
    /// that all the processes will wait indefinitely.
    Deadlock,
    /// The process with PID 1 has stopped.
    Panic,
    /// There are no more processes to schedule.
    Done,
}

/// A system call that processes make towards the scheduler.
#[derive(Debug, Copy, Clone, PartialEq, Eq, Structural)]
pub enum Syscall {
    /// Create a new process with the given priority and return its PID.
    /// Some scheduling algorithms ignore the priority.
    Fork(i8),
    /// Ask the scheduler to suspend the process for an amount of time. The
    /// process is placed in the [`ProcessState::Waiting`] state for that long.
    Sleep(usize),
    /// Wait for the event with the given number. The process is placed in the
    /// [`ProcessState::Waiting`] state until another process issues a
    /// [`Syscall::Signal`] with this event number.
    Wait(usize),
    /// Signal all processes that wait for the event with the given number.
    /// They are woken up and placed in the [`ProcessState::Ready`] state.
    Signal(usize),
    /// Ask the scheduler to finish the process.
    ///
    /// The process will never be scheduled again and is deleted from the
    /// list of processes that the scheduler keeps track of.
    Exit,
}

/// The result returned by a system call.
#[derive(Debug, Copy, Clone, PartialEq, Eq, Structural)]
pub enum SyscallResult {
    /// Returned after a [`Syscall::Fork`]: the PID of the new process.
    Pid(Pid),
    /// The system call was successful.
    ///
    /// This is the value returned by most system calls.
    Success,
    /// The system call was issued while no process was scheduled.
    NoRunningProcess,
}

/// The reason that a process has stopped and the OS has called the scheduler.
#[derive(Debug, Copy, Clone, PartialEq, Eq, Structural)]
pub enum StopReason {
    /// The process sent a [`Syscall`] system call.
    Syscall {
        /// The system call.
        syscall: Syscall,
        /// The number of time units that the process has not used from its quanta.
        remaining: usize,
    },
    /// The timeslice allocated for the process has expired and the process
    /// has been preempted.
    Expired,
}

impl StopReason {
    /// This reason with `remaining` as the unused part of the quanta.
    /// [`StopReason::Expired`] carries none and stays as it is.
    pub open spec fn with_remaining(self, remaining: usize) -> StopReason {
        match self {
            StopReason::Syscall { syscall, .. } => StopReason::Syscall { syscall, remaining },
            StopReason::Expired => StopReason::Expired,
        }
    }

    /// The process has stopped for `syscall`, with nothing of its quanta
    /// recorded as unused yet.
    pub fn syscall(syscall: Syscall) -> (reason: StopReason)
        ensures
            reason == (StopReason::Syscall { syscall, remaining: 0 }),
    {
        StopReason::Syscall { syscall, remaining: 0 }
    }

    /// Records `remaining` as the unused part of the quanta.
    pub fn set_remaining(&mut self, remaining: usize)
        ensures
            *final(self) == old(self).with_remaining(remaining),
    {
        if let StopReason::Syscall { syscall, .. } = *self {
            *self = StopReason::Syscall { syscall, remaining };
        }
    }

    /// The process has used up its quanta.
    pub fn expired() -> (reason: StopReason)
        ensures
            reason == StopReason::Expired,
    {
        StopReason::Expired
    }
}

/// The state of a process.
#[derive(Copy, Clone, Debug, PartialEq, Eq, Structural)]
pub enum ProcessState {
    /// The process is ready to be scheduled.
    Ready,
    /// The process is currently scheduled.
    Running,
    /// The process is waiting for an event or sleeping.
    Waiting {
        /// The event that the process is waiting for.
        ///
        /// If the event is [`None`], the process is sleeping.
        event: Option<usize>,
    },
}

impl ProcessState {
    /// Whether this is the state of a process that sleeps: one that waits,
    /// but for no event.
    pub fn is_sleep(&self) -> (sleeps: bool)
        ensures
            sleeps == (*self == (ProcessState::Waiting { event: None })),
    {
        match self {
            ProcessState::Waiting { event: None } => true,
            _ => false,
        }
    }
}

/// What a process shows of itself to the OS.
pub struct ProcessView {
    /// The PID of the process.
    pub pid: Pid,
    /// The state of the process.
    pub state: ProcessState,
    /// The process timings: total time, system call time, running time.
    pub timings: (usize, usize, usize),
    /// The process priority.
    pub priority: i8,
    /// The details that its scheduler adds.
    pub extra: Seq<char>,
}

/// The trait that the Process Control Block (PCB) has to implement.
///
/// The PCB can be implemented with any data structure as long as
/// it implements this trait.
pub trait Process {
    /// What the process shows of itself.
    spec fn view(&self) -> ProcessView;

    /// Returns the PID of the process.
    fn pid(&self) -> (pid: Pid)
        ensures
            pid == self.view().pid,
    ;

    /// Returns the state of the process.
    fn state(&self) -> (state: ProcessState)
        ensures
            state == self.view().state,
    ;

    /// Returns process timings as a tuple of (total, syscalls, execution).
    fn timings(&self) -> (timings: (usize, usize, usize))
        ensures
            timings == self.view().timings,
    ;

    /// Returns the process priority.
    fn priority(&self) -> (priority: i8)
        ensures
            priority == self.view().priority,
    ;

    /// Returns details information.
    fn extra(&self) -> (extra: String)
        ensures
            extra@ == self.view().extra,
    ;
}

/// What the processes of `listing` show of themselves, in their order.
pub open spec fn shown<P: Process>(listing: Seq<P>) -> Seq<ProcessView> {
    Seq::new(listing.len(), |i: int| listing[i].view())
}

/// At most one of the processes `processes` is running.
pub open spec fn one_running(processes: Seq<ProcessView>) -> bool {
    forall|i: int, j: int|
        0 <= i < j < processes.len() ==> !((#[trigger] processes[i]).state == ProcessState::Running
            && (#[trigger] processes[j]).state == ProcessState::Running)
}

/// The trait that any scheduler has to implement.
///
/// A scheduler says what it holds ([`Scheduler::view`]) and what each of its
/// operations does to that, and its operations do as it says.
pub trait Scheduler: Send {
    /// The process control block that the scheduler keeps for a process.
    type Pcb: Process;

    /// What the scheduler holds, as far as its decisions depend on it.
    type Model;

    /// What the scheduler holds.
    spec fn view(&self) -> Self::Model;

    /// What holds of the scheduler between any two of its operations.
    spec fn inv(&self) -> bool;

    /// The scheduler that holds `model` can choose the next action.
    spec fn advances(model: Self::Model) -> bool;

    /// The action that the scheduler that holds `model` asks for next.
    spec fn decision(model: Self::Model) -> SchedulingDecision;

    /// What the scheduler holds after it has chosen the next action.
    spec fn advanced(model: Self::Model) -> Self::Model;

    /// The scheduler that holds `model` can take a stop for `reason`.
    spec fn admits(model: Self::Model, reason: StopReason) -> bool;

    /// What the scheduler that holds `model` answers to a stop for `reason`.
    spec fn outcome(model: Self::Model, reason: StopReason) -> SyscallResult;

    /// What the scheduler holds after a stop for `reason`.
    spec fn stopped(model: Self::Model, reason: StopReason) -> Self::Model;

    /// What the processes of the scheduler that holds `model` show of
    /// themselves, in the order in which it lists them.
    spec fn processes(model: Self::Model) -> Seq<ProcessView>;

    /// A scheduler does not ask for a sleep twice in a row: after the sleep
    /// some process can run.
    proof fn lemma_sleep_once(&self)
        requires
            self.inv(),
            Self::advances(self.view()),
            Self::decision(self.view()) is Sleep,
        ensures
            !(Self::decision(Self::advanced(self.view())) is Sleep),
    ;

    /// At most one of the processes of a scheduler is running.
    proof fn lemma_one_running(&self)
        requires
            self.inv(),
        ensures
            one_running(Self::processes(self.view())),
    ;

    /// Returns the action that the OS has to perform next.
    fn next(&mut self) -> (decision: SchedulingDecision)
        requires
            old(self).inv(),
            Self::advances(old(self).view()),
        ensures
            final(self).inv(),
            final(self).view() == Self::advanced(old(self).view()),
            decision == Self::decision(old(self).view()),
    ;

    /// The scheduler is informed about the stopping of a process
    /// and the reason.
    fn stop(&mut self, reason: StopReason) -> (result: SyscallResult)
        requires
            old(self).inv(),
            Self::admits(old(self).view(), reason),
        ensures
            final(self).inv(),
            final(self).view() == Self::stopped(old(self).view(), reason),
            result == Self::outcome(old(self).view(), reason),
    ;

    /// Returns the list of processes.
    fn list(&mut self) -> (processes: Vec<Self::Pcb>)
        requires
            old(self).inv(),
        ensures
            final(self).inv(),
            final(self).view() == old(self).view(),
            shown(processes@) == Self::processes(old(self).view()),
    ;

    /// Whether the scheduler can take a stop for `reason`.
    fn can_stop(&self, reason: StopReason) -> (admitted: bool)
        requires
            self.inv(),
        ensures
            admitted == Self::admits(self.view(), reason),
    ;

    /// Whether the scheduler can choose the next action.
    fn can_next(&self) -> (admitted: bool)
        requires
            self.inv(),
        ensures
            admitted == Self::advances(self.view()),
    ;
}

} // verus!
