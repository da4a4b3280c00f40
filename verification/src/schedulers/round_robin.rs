//! The round robin scheduler.

use crate::scheduler::{
    shown, ProcessView, Scheduler, SchedulingDecision, StopReason, SyscallResult,
};
use crate::schedulers::machine::Machine;
use crate::schedulers::pcb::PCB;
use crate::schedulers::state::{Policy, State};
use vstd::prelude::*;

verus! {

/// A scheduler that runs the ready processes in turn, each for a quantum of
/// the same length.
pub struct RoundRobin {
    machine: Machine,
}

impl RoundRobin {
    /// A round robin scheduler without processes.
    ///
    /// * `timeslice` - the time quanta that a process can run before it is preempted
    /// * `minimum_remaining_timeslice` - what a process must have left of its quanta
    ///   after a system call to be scheduled again for the rest of it
    pub fn new(timeslice: usize, minimum_remaining_timeslice: usize) -> (scheduler: RoundRobin)
        requires
            timeslice > 0,
        ensures
            scheduler@ == State::initial(
                Policy::RoundRobin,
                timeslice,
                minimum_remaining_timeslice,
            ),
            scheduler.inv(),
    {
        RoundRobin {
            machine: Machine::new(Policy::RoundRobin, timeslice, minimum_remaining_timeslice),
        }
    }
}

impl Scheduler for RoundRobin {
    type Pcb = PCB;

    type Model = State;

    closed spec fn view(&self) -> State {
        self.machine@
    }

    open spec fn inv(&self) -> bool {
        self@.inv() && self@.policy == Policy::RoundRobin
    }

    open spec fn advances(model: State) -> bool {
        model.advances()
    }

    open spec fn decision(model: State) -> SchedulingDecision {
        model.decision()
    }

    open spec fn advanced(model: State) -> State {
        model.advanced()
    }

    open spec fn admits(model: State, reason: StopReason) -> bool {
        model.admits(reason)
    }

    open spec fn outcome(model: State, reason: StopReason) -> SyscallResult {
        model.outcome(reason)
    }

    open spec fn stopped(model: State, reason: StopReason) -> State {
        model.stopped(reason)
    }

    open spec fn processes(model: State) -> Seq<ProcessView> {
        shown(model.processes())
    }

    proof fn lemma_sleep_once(&self) {
        self@.lemma_sleep_once();
    }

    proof fn lemma_one_running(&self) {
        self@.lemma_one_running();
    }

    fn next(&mut self) -> (decision: SchedulingDecision) {
        proof {
            old(self)@.lemma_policy_kept(StopReason::Expired);
        }
        self.machine.next()
    }

    fn stop(&mut self, reason: StopReason) -> (result: SyscallResult) {
        proof {
            old(self)@.lemma_policy_kept(reason);
        }
        self.machine.stop(reason)
    }

    fn list(&mut self) -> (processes: Vec<PCB>) {
        self.machine.list()
    }

    fn can_stop(&self, reason: StopReason) -> (admitted: bool) {
        self.machine.can_stop(reason)
    }

    fn can_next(&self) -> (admitted: bool) {
        self.machine.can_next()
    }
}

} // verus!
