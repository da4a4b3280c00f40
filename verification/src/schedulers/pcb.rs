//! The process control block that the schedulers of this library keep.

use crate::scheduler::{Pid, Process, ProcessState, ProcessView};
use crate::text::{decimal, decimal_text};
use vstd::prelude::*;
use vstd::string::*;

verus! {

/// The record that a scheduler keeps of one process.
#[derive(Copy, Clone, PartialEq, Eq, Debug)]
pub struct PCB {
    /// The PID of the process.
    pub pid: Pid,
    /// Whether the process is ready, running or waiting.
    pub state: ProcessState,
    /// The time units since the process was created, the system calls that it
    /// has made and the time units for which it has run.
    pub timings: (usize, usize, usize),
    /// The priority that the process was created with.
    pub priority: i8,
    /// The time units that a sleeping process still has to sleep. At zero or
    /// below the process is woken up.
    pub sleep: i128,
    /// The virtual runtime of the process, where the scheduler keeps one.
    pub vruntime: Option<usize>,
}

impl PCB {
    /// The process sleeps: it waits for no event, only for time to pass.
    pub open spec fn is_sleeping(self) -> bool {
        self.state == (ProcessState::Waiting { event: None })
    }

    /// The process waits for the event `event`.
    pub open spec fn awaits(self, event: usize) -> bool {
        self.state == (ProcessState::Waiting { event: Some(event) })
    }

    /// The process sleeps and its time to sleep is over.
    pub open spec fn is_due(self) -> bool {
        self.is_sleeping() && self.sleep <= 0
    }

    /// The process in the ready state.
    pub open spec fn readied(self) -> PCB {
        PCB { state: ProcessState::Ready, ..self }
    }

    /// The process in the running state.
    pub open spec fn dispatched(self) -> PCB {
        PCB { state: ProcessState::Running, ..self }
    }

    /// The process after `units` of time have passed while it did not run:
    /// they count towards its total time, and a sleeping process has that
    /// much less to sleep.
    pub open spec fn aged(self, units: int) -> PCB {
        PCB {
            timings: ((self.timings.0 + units) as usize, self.timings.1, self.timings.2),
            sleep: if self.is_sleeping() {
                (self.sleep - units) as i128
            } else {
                self.sleep
            },
            ..self
        }
    }

    /// The process after it has held the CPU for `units` of time, `calls` of
    /// which (none or one) went into a system call. The rest it has executed,
    /// and its virtual runtime, if it has one, grows by what it has executed.
    pub open spec fn billed(self, units: int, calls: int) -> PCB {
        PCB {
            timings: (
                (self.timings.0 + units) as usize,
                (self.timings.1 + calls) as usize,
                (self.timings.2 + units - calls) as usize,
            ),
            vruntime: match self.vruntime {
                Some(v) => Some((v + units - calls) as usize),
                None => None,
            },
            ..self
        }
    }

    /// The timings are consistent: system calls and execution are part of
    /// the total time. The time left to sleep is within what a system call
    /// can ask for or a quantum can overshoot.
    pub open spec fn sound(self) -> bool {
        &&& self.timings.0 >= self.timings.1 + self.timings.2
        &&& -(usize::MAX as int) <= self.sleep <= usize::MAX as int
    }

    /// The total time of the process can grow by `units`.
    pub open spec fn can_age(self, units: int) -> bool {
        self.timings.0 + units <= usize::MAX
    }

    /// The counters of the process can grow by `units` of time on the CPU,
    /// `calls` of them in a system call.
    pub open spec fn can_bill(self, units: int, calls: int) -> bool {
        &&& self.timings.0 + units <= usize::MAX
        &&& match self.vruntime {
            Some(v) => v + units - calls <= usize::MAX,
            None => true,
        }
    }

    /// The virtual runtime of the process, zero where the scheduler keeps none.
    pub open spec fn fair_time(self) -> usize {
        match self.vruntime {
            Some(v) => v,
            None => 0,
        }
    }

    /// The details that the process shows: its virtual runtime, if it has one.
    pub open spec fn details(self) -> Seq<char> {
        match self.vruntime {
            Some(v) => "vruntime="@ + decimal(v as nat),
            None => Seq::empty(),
        }
    }

    /// A process control block without time to sleep and without virtual runtime.
    pub fn new(pid: Pid, state: ProcessState, timings: (usize, usize, usize), priority: i8) -> (pcb:
        PCB)
        ensures
            pcb == (PCB { pid, state, timings, priority, sleep: 0, vruntime: None }),
    {
        PCB { pid, state, timings, priority, sleep: 0, vruntime: None }
    }
}

impl Process for PCB {
    open spec fn view(&self) -> ProcessView {
        ProcessView {
            pid: self.pid,
            state: self.state,
            timings: self.timings,
            priority: self.priority,
            extra: self.details(),
        }
    }

    fn pid(&self) -> (pid: Pid) {
        self.pid
    }

    fn state(&self) -> (state: ProcessState) {
        self.state
    }

    fn timings(&self) -> (timings: (usize, usize, usize)) {
        self.timings
    }

    fn priority(&self) -> (priority: i8) {
        self.priority
    }

    fn extra(&self) -> (extra: String) {
        match self.vruntime {
            Some(v) => {
                let digits = decimal_text(v);
                String::from_str("vruntime=").concat(digits.as_str())
            },
            None => String::new(),
        }
    }
}

} // verus!
