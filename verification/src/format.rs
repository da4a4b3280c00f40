//! The text of decisions, stops, process rows and logs.

use crate::processor::{entries, table, tabulate, views, Log, LogView, ProcessInfo};
use crate::scheduler::{
    Pid, ProcessState, ProcessView, SchedulingDecision, StopReason, Syscall, SyscallResult,
};
use crate::text::{decimal, decimal_text, signed_decimal, signed_decimal_text};
use vstd::prelude::*;
use vstd::string::*;

verus! {

impl Pid {
    /// The text of the PID: its number.
    pub open spec fn text(self) -> Seq<char> {
        decimal(self.value() as nat)
    }

    /// Writes the PID.
    pub fn to_text(&self) -> (text: String)
        ensures
            text@ == self.text(),
    {
        decimal_text(self.get())
    }
}

impl SchedulingDecision {
    /// The text of the decision.
    pub open spec fn text(self) -> Seq<char> {
        match self {
            SchedulingDecision::Run { pid, timeslice } => "Run "@ + pid.text() + " for "@ + decimal(
                timeslice as nat,
            ) + " slices"@,
            SchedulingDecision::Sleep(amount) => "Sleep for "@ + decimal(amount as nat)
                + " slices"@,
            SchedulingDecision::Deadlock => "Deadlock, unable to schedule anymore processes"@,
            SchedulingDecision::Panic => "Panic, process 1 has stopped"@,
            SchedulingDecision::Done => "Done, no more processes"@,
        }
    }

    /// Writes the decision.
    pub fn to_text(&self) -> (text: String)
        ensures
            text@ == self.text(),
    {
        match self {
            SchedulingDecision::Run { pid, timeslice } => {
                let mut text = String::from_str("Run ");
                text.append(pid.to_text().as_str());
                text.append(" for ");
                text.append(decimal_text(*timeslice).as_str());
                text.append(" slices");
                text
            },
            SchedulingDecision::Sleep(amount) => {
                let mut text = String::from_str("Sleep for ");
                text.append(decimal_text(*amount).as_str());
                text.append(" slices");
                text
            },
            SchedulingDecision::Deadlock => String::from_str(
                "Deadlock, unable to schedule anymore processes",
            ),
            SchedulingDecision::Panic => String::from_str("Panic, process 1 has stopped"),
            SchedulingDecision::Done => String::from_str("Done, no more processes"),
        }
    }
}

impl ProcessState {
    /// The text of the state.
    pub open spec fn text(self) -> Seq<char> {
        match self {
            ProcessState::Ready => "READY"@,
            ProcessState::Running => "RUNNING"@,
            ProcessState::Waiting { event: Some(event) } => "EVENT "@ + decimal(event as nat),
            ProcessState::Waiting { event: None } => "SLEEP"@,
        }
    }

    /// Writes the state.
    pub fn to_text(&self) -> (text: String)
        ensures
            text@ == self.text(),
    {
        match self {
            ProcessState::Ready => String::from_str("READY"),
            ProcessState::Running => String::from_str("RUNNING"),
            ProcessState::Waiting { event: Some(event) } => {
                let mut text = String::from_str("EVENT ");
                text.append(decimal_text(*event).as_str());
                text
            },
            ProcessState::Waiting { event: None } => String::from_str("SLEEP"),
        }
    }
}

impl Syscall {
    /// The text of the system call.
    pub open spec fn text(self) -> Seq<char> {
        match self {
            Syscall::Fork(priority) => "Fork("@ + signed_decimal(priority as int) + ")"@,
            Syscall::Sleep(amount) => "Sleep("@ + decimal(amount as nat) + ")"@,
            Syscall::Wait(event) => "Wait("@ + decimal(event as nat) + ")"@,
            Syscall::Signal(event) => "Signal("@ + decimal(event as nat) + ")"@,
            Syscall::Exit => "Exit"@,
        }
    }

    /// Writes the system call.
    pub fn to_text(&self) -> (text: String)
        ensures
            text@ == self.text(),
    {
        match self {
            Syscall::Fork(priority) => {
                let mut text = String::from_str("Fork(");
                text.append(signed_decimal_text(*priority).as_str());
                text.append(")");
                text
            },
            Syscall::Sleep(amount) => {
                let mut text = String::from_str("Sleep(");
                text.append(decimal_text(*amount).as_str());
                text.append(")");
                text
            },
            Syscall::Wait(event) => {
                let mut text = String::from_str("Wait(");
                text.append(decimal_text(*event).as_str());
                text.append(")");
                text
            },
            Syscall::Signal(event) => {
                let mut text = String::from_str("Signal(");
                text.append(decimal_text(*event).as_str());
                text.append(")");
                text
            },
            Syscall::Exit => String::from_str("Exit"),
        }
    }
}

impl SyscallResult {
    /// The text of the result.
    pub open spec fn text(self) -> Seq<char> {
        match self {
            SyscallResult::Pid(pid) => "Pid("@ + pid.text() + ")"@,
            SyscallResult::Success => "Success"@,
            SyscallResult::NoRunningProcess => "NoRunningProcess"@,
        }
    }

    /// Writes the result.
    pub fn to_text(&self) -> (text: String)
        ensures
            text@ == self.text(),
    {
        match self {
            SyscallResult::Pid(pid) => {
                let mut text = String::from_str("Pid(");
                text.append(pid.to_text().as_str());
                text.append(")");
                text
            },
            SyscallResult::Success => String::from_str("Success"),
            SyscallResult::NoRunningProcess => String::from_str("NoRunningProcess"),
        }
    }
}

impl StopReason {
    /// The text of the reason.
    pub open spec fn text(self) -> Seq<char> {
        match self {
            StopReason::Syscall { syscall, remaining } => "Syscall "@ + syscall.text()
                + ", remaining "@ + decimal(remaining as nat),
            StopReason::Expired => "Expired"@,
        }
    }

    /// Writes the reason.
    pub fn to_text(&self) -> (text: String)
        ensures
            text@ == self.text(),
    {
        match self {
            StopReason::Syscall { syscall, remaining } => {
                let mut text = String::from_str("Syscall ");
                text.append(syscall.to_text().as_str());
                text.append(", remaining ");
                text.append(decimal_text(*remaining).as_str());
                text
            },
            StopReason::Expired => String::from_str("Expired"),
        }
    }
}

impl ProcessView {
    /// The row of the process in the table of a log entry: its columns with
    /// tabs between them, two behind the state.
    #[verifier::opaque]
    pub open spec fn text(self) -> Seq<char> {
        self.pid.text() + "\t"@ + self.state.text() + "\t\t"@ + signed_decimal(self.priority as int)
            + "\t"@ + decimal(self.timings.0 as nat) + "\t"@ + decimal(self.timings.1 as nat)
            + "\t"@ + decimal(self.timings.2 as nat) + "\t"@ + self.extra
    }
}

impl ProcessInfo {
    /// Writes the row of the process.
    pub fn to_text(&self) -> (text: String)
        ensures
            text@ == self@.text(),
    {
        let mut text = self.pid.to_text();
        text.append("\t");
        text.append(self.state.to_text().as_str());
        text.append("\t\t");
        text.append(signed_decimal_text(self.priority).as_str());
        text.append("\t");
        text.append(decimal_text(self.timings.0).as_str());
        text.append("\t");
        text.append(decimal_text(self.timings.1).as_str());
        text.append("\t");
        text.append(decimal_text(self.timings.2).as_str());
        text.append("\t");
        text.append(self.extra.as_str());
        proof {
            reveal(ProcessView::text);
        }
        text
    }
}

/// The rows `rows`, each on a line of its own.
pub open spec fn rows_text(rows: Seq<ProcessView>) -> Seq<char>
    decreases rows.len(),
{
    if rows.len() == 0 {
        Seq::empty()
    } else {
        rows_text(rows.drop_last()) + rows.last().text() + "\n"@
    }
}

impl LogView {
    /// The last line of the entry: the stop that followed the decision and
    /// what the scheduler answered to it, where they are known.
    pub open spec fn stop_text(self) -> Seq<char> {
        match self.stop_reason {
            Some((reason, result)) => reason.text() + " -> "@ + result.text() + "\n"@,
            None => Seq::empty(),
        }
    }

    /// The text of the entry: the decision, the heading of the table, the
    /// rows of the processes in the order of their PIDs, the stop where it
    /// is known, and an empty line.
    #[verifier::opaque]
    pub open spec fn text(self) -> Seq<char> {
        self.decision.text() + "\n"@ + "PID\tSTATE\t\tPRI\tTOTAL\tSYSCALL\tEXECUTE\tEXTRA\n"@
            + rows_text(table(self.processes)) + self.stop_text() + "\n"@
    }
}

impl Log {
    /// Writes the entry.
    pub fn to_text(&self) -> (text: String)
        ensures
            text@ == self@.text(),
    {
        let mut text = self.decision.to_text();
        text.append("\n");
        text.append("PID\tSTATE\t\tPRI\tTOTAL\tSYSCALL\tEXECUTE\tEXTRA\n");
        let ghost head = text@;
        let table = tabulate(&self.processes);
        let ghost rows = views(table@);
        let mut i: usize = 0;
        while i < table.len()
            invariant
                i <= table.len(),
                rows == views(table@),
                text@ == head + rows_text(rows.take(i as int)),
            decreases table.len() - i,
        {
            assert(rows.take(i as int + 1).drop_last() == rows.take(i as int));
            assert(rows.take(i as int + 1).last() == table@[i as int]@);
            text.append(table[i].to_text().as_str());
            text.append("\n");
            i = i + 1;
            assert(text@ =~= head + rows_text(rows.take(i as int)));
        }
        assert(rows.take(i as int) == rows);
        if let Some((reason, result)) = self.stop_reason {
            text.append(reason.to_text().as_str());
            text.append(" -> ");
            text.append(result.to_text().as_str());
            text.append("\n");
        }
        text.append("\n");
        assert(text@ =~= self@.text()) by {
            reveal(LogView::text);
        }
        text
    }
}

/// The text of the entry `log` of the iteration `number` in the text of a
/// log: a heading with the number of the iteration, the text of the entry,
/// and an empty line.
#[verifier::opaque]
pub open spec fn block(log: LogView, number: nat) -> Seq<char> {
    "===== Iteration: "@ + decimal(number) + " =====\n"@ + log.text() + "\n"@
}

/// The text of the log `logs` whose first entry is that of the iteration
/// after `done` others: the entries one after the other, each under the
/// heading of its iteration.
pub open spec fn formatted_from(logs: Seq<LogView>, done: nat) -> Seq<char>
    decreases logs.len(),
{
    if logs.len() == 0 {
        Seq::empty()
    } else {
        formatted_from(logs.drop_last(), done) + block(logs.last(), done + logs.len())
    }
}

/// The text of the log `logs`, whose iterations are counted from 1.
pub open spec fn formatted(logs: Seq<LogView>) -> Seq<char> {
    formatted_from(logs, 0)
}

/// Format the [`Processor`](crate::processor::Processor)'s logs to a [`String`].
///
/// * `logs` - the logs returned by the processor.
pub fn format_logs(logs: &[Log]) -> (text: String)
    ensures
        text@ == formatted(entries(logs@)),
{
    let mut text = String::new();
    let ghost all = entries(logs@);
    let mut i: usize = 0;
    while i < logs.len()
        invariant
            i <= logs.len(),
            all == entries(logs@),
            text@ == formatted(all.take(i as int)),
        decreases logs.len() - i,
    {
        assert(all.take(i as int + 1).drop_last() == all.take(i as int));
        assert(all.take(i as int + 1).last() == logs@[i as int]@);
        text.append("===== Iteration: ");
        text.append(decimal_text(i + 1).as_str());
        text.append(" =====\n");
        text.append(logs[i].to_text().as_str());
        text.append("\n");
        i = i + 1;
        assert(text@ =~= formatted(all.take(i as int))) by {
            reveal(block);
        }
    }
    assert(all.take(i as int) == all);
    text
}

} // verus!
