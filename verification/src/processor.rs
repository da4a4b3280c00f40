//! The processor that drives a scheduler.
//!
//! The processor hands every stop of the running process to the scheduler,
//! asks it for the next action until a process can run or the simulation is
//! over, and keeps a log of the decisions taken.

use crate::format::formatted;
use crate::scheduler::{
    group_pid, one_running, shown, Pid, Process, ProcessState, ProcessView, Scheduler,
    SchedulingDecision, StopReason, SyscallResult,
};
use vstd::prelude::*;

verus! {

/// Information about a process state.
#[derive(Debug, PartialEq, Eq)]
pub struct ProcessInfo {
    /// The PID of the process.
    pub pid: Pid,
    /// The process state.
    pub state: ProcessState,
    /// The process timings (total time, system call time, running time).
    pub timings: (usize, usize, usize),
    /// The process priority.
    pub priority: i8,
    /// Extra details about the process.
    pub extra: String,
}

impl ProcessInfo {
    /// What the information says of the process.
    pub open spec fn view(&self) -> ProcessView {
        ProcessView {
            pid: self.pid,
            state: self.state,
            timings: self.timings,
            priority: self.priority,
            extra: self.extra@,
        }
    }

    /// The information about a process.
    pub fn new(
        pid: Pid,
        state: ProcessState,
        timings: (usize, usize, usize),
        priority: i8,
        extra: String,
    ) -> (info: ProcessInfo)
        ensures
            info@ == (ProcessView { pid, state, timings, priority, extra: extra@ }),
    {
        ProcessInfo { pid, state, timings, priority, extra }
    }

    /// The same information once more.
    pub fn duplicate(&self) -> (copy: ProcessInfo)
        ensures
            copy@ == self@,
    {
        ProcessInfo {
            pid: self.pid,
            state: self.state,
            timings: self.timings,
            priority: self.priority,
            extra: self.extra.clone(),
        }
    }
}

/// The rows `rows`, which are in the order of their PIDs, with the row `row`
/// in its place among them. It takes the place of a row with the same PID.
pub open spec fn recorded(rows: Seq<ProcessView>, row: ProcessView) -> Seq<ProcessView>
    decreases rows.len(),
{
    if rows.len() == 0 || rows.last().pid.value() < row.pid.value() {
        rows.push(row)
    } else if rows.last().pid.value() == row.pid.value() {
        rows.drop_last().push(row)
    } else {
        recorded(rows.drop_last(), row).push(rows.last())
    }
}

/// The table of the processes of `listing`: one row for each PID, in the
/// order of the PIDs. Of two processes with the same PID the one that is
/// listed later has the row.
pub open spec fn table(listing: Seq<ProcessView>) -> Seq<ProcessView>
    decreases listing.len(),
{
    if listing.len() == 0 {
        listing
    } else {
        recorded(table(listing.drop_last()), listing.last())
    }
}

/// The rows are in the order of their PIDs, and no two of them have the same
/// PID.
pub open spec fn ascending(rows: Seq<ProcessView>) -> bool {
    forall|i: int, j: int|
        0 <= i < j < rows.len() ==> (#[trigger] rows[i]).pid.value() < (#[trigger] rows[j]).pid.value()
}

/// What the rows `rows` say of their processes.
pub open spec fn views(rows: Seq<ProcessInfo>) -> Seq<ProcessView> {
    Seq::new(rows.len(), |i: int| rows[i]@)
}

/// Putting a row in its place is putting it where the rows with a higher PID
/// begin, in place of the row before them if that has the same PID.
pub proof fn lemma_recorded_at(rows: Seq<ProcessView>, row: ProcessView, at: int)
    requires
        0 <= at <= rows.len(),
        forall|k: int| at <= k < rows.len() ==> (#[trigger] rows[k]).pid.value() > row.pid.value(),
        at > 0 ==> rows[at - 1].pid.value() <= row.pid.value(),
    ensures
        recorded(rows, row) == if at > 0 && rows[at - 1].pid.value() == row.pid.value() {
            rows.update(at - 1, row)
        } else {
            rows.insert(at, row)
        },
    decreases rows.len() - at,
{
    if at == rows.len() {
        if at > 0 && rows[at - 1].pid.value() == row.pid.value() {
            assert(rows.drop_last().push(row) =~= rows.update(at - 1, row));
        } else {
            assert(rows.push(row) =~= rows.insert(at, row));
        }
    } else {
        let front = rows.drop_last();
        lemma_recorded_at(front, row, at);
        if at > 0 && rows[at - 1].pid.value() == row.pid.value() {
            assert(front.update(at - 1, row).push(rows.last()) =~= rows.update(at - 1, row));
        } else {
            assert(front.insert(at, row).push(rows.last()) =~= rows.insert(at, row));
        }
    }
}

/// A row that is put in its place among rows in the order of their PIDs
/// leaves them in that order. The rows then are the row itself and those of
/// before that have another PID.
pub proof fn lemma_recorded(rows: Seq<ProcessView>, row: ProcessView)
    requires
        ascending(rows),
    ensures
        ascending(recorded(rows, row)),
        forall|r: ProcessView| #[trigger]
            recorded(rows, row).contains(r) <==> r == row || (rows.contains(r) && r.pid.value()
                != row.pid.value()),
    decreases rows.len(),
{
    let out = recorded(rows, row);
    if rows.len() == 0 || rows.last().pid.value() < row.pid.value() {
        assert forall|r: ProcessView| #[trigger] out.contains(r) <==> r == row || (rows.contains(r)
            && r.pid.value() != row.pid.value()) by {
            if out.contains(r) {
                let i = choose|i: int| 0 <= i < out.len() && out[i] == r;
                if i < rows.len() {
                    assert(rows[i] == r);
                }
            }
            if r == row {
                assert(out[out.len() - 1] == r);
            }
            if rows.contains(r) {
                let i = choose|i: int| 0 <= i < rows.len() && rows[i] == r;
                assert(out[i] == r);
            }
        }
    } else if rows.last().pid.value() == row.pid.value() {
        let front = rows.drop_last();
        assert forall|r: ProcessView| #[trigger] out.contains(r) <==> r == row || (rows.contains(r)
            && r.pid.value() != row.pid.value()) by {
            if out.contains(r) {
                let i = choose|i: int| 0 <= i < out.len() && out[i] == r;
                if i < front.len() {
                    assert(rows[i] == r);
                }
            }
            if r == row {
                assert(out[out.len() - 1] == r);
            }
            if rows.contains(r) && r.pid.value() != row.pid.value() {
                let i = choose|i: int| 0 <= i < rows.len() && rows[i] == r;
                assert(out[i] == r);
            }
        }
    } else {
        let front = rows.drop_last();
        lemma_recorded(front, row);
        let inner = recorded(front, row);
        assert forall|i: int, j: int| 0 <= i < j < out.len() implies (#[trigger] out[i]).pid.value()
            < (#[trigger] out[j]).pid.value() by {
            if j == out.len() - 1 {
                assert(inner.contains(inner[i]));
                if inner[i] != row {
                    let k = choose|k: int| 0 <= k < front.len() && front[k] == inner[i];
                    assert(rows[k] == inner[i]);
                }
            }
        }
        assert forall|r: ProcessView| #[trigger] out.contains(r) <==> r == row || (rows.contains(r)
            && r.pid.value() != row.pid.value()) by {
            if out.contains(r) {
                let i = choose|i: int| 0 <= i < out.len() && out[i] == r;
                if i < inner.len() {
                    assert(inner[i] == r);
                    assert(inner.contains(r));
                    if r != row {
                        let k = choose|k: int| 0 <= k < front.len() && front[k] == r;
                        assert(rows[k] == r);
                    }
                } else {
                    assert(rows[rows.len() - 1] == r);
                }
            }
            if r == row {
                assert(inner.contains(r));
                let i = choose|i: int| 0 <= i < inner.len() && inner[i] == r;
                assert(out[i] == r);
            }
            if rows.contains(r) && r.pid.value() != row.pid.value() {
                let k = choose|k: int| 0 <= k < rows.len() && rows[k] == r;
                if k < front.len() {
                    assert(front[k] == r);
                    assert(front.contains(r));
                    assert(inner.contains(r));
                    let i = choose|i: int| 0 <= i < inner.len() && inner[i] == r;
                    assert(out[i] == r);
                } else {
                    assert(out[out.len() - 1] == r);
                }
            }
        }
    }
}

/// The table of a listing is in the order of the PIDs, without a PID twice,
/// and every row of it is a process of the listing.
pub proof fn lemma_table(listing: Seq<ProcessView>)
    ensures
        ascending(table(listing)),
        forall|r: ProcessView| #[trigger] table(listing).contains(r) ==> listing.contains(r),
        forall|r: ProcessView| #[trigger]
            listing.contains(r) ==> exists|t: ProcessView| #[trigger]
                table(listing).contains(t) && t.pid == r.pid,
    decreases listing.len(),
{
    broadcast use group_pid;

    if listing.len() > 0 {
        let front = listing.drop_last();
        let last = listing.last();
        lemma_table(front);
        lemma_recorded(table(front), last);
        assert forall|r: ProcessView| #[trigger] table(listing).contains(r) implies listing.contains(
            r,
        ) by {
            if r == last {
                assert(listing[listing.len() - 1] == r);
            } else {
                assert(table(front).contains(r));
                assert(front.contains(r));
                let k = choose|k: int| 0 <= k < front.len() && front[k] == r;
                assert(listing[k] == r);
            }
        }
        assert forall|r: ProcessView| #[trigger] listing.contains(r) implies exists|t: ProcessView| #[trigger]
            table(listing).contains(t) && t.pid == r.pid by {
            let k = choose|k: int| 0 <= k < listing.len() && listing[k] == r;
            if r.pid.value() == last.pid.value() {
                assert(table(listing).contains(last));
                assert(Pid::of(r.pid.value()) == Pid::of(last.pid.value()));
            } else {
                assert(front[k] == r);
                assert(front.contains(r));
                let t = choose|t: ProcessView| #[trigger] table(front).contains(t) && t.pid == r.pid;
                assert(table(listing).contains(t));
            }
        }
    }
}

/// Puts the information `info` in its place among `rows`, which are in the
/// order of their PIDs. It takes the place of the information with the same
/// PID.
pub fn record(rows: &mut Vec<ProcessInfo>, info: ProcessInfo)
    ensures
        views(final(rows)@) == recorded(views(old(rows)@), info@),
{
    let pid = info.pid.get();
    let ghost before = views(rows@);
    let mut at: usize = rows.len();
    while at > 0 && rows[at - 1].pid.get() > pid
        invariant
            at <= rows.len(),
            rows@ == old(rows)@,
            pid == info@.pid.value(),
            forall|k: int| at <= k < rows.len() ==> (#[trigger] views(rows@)[k]).pid.value() > pid,
        decreases at,
    {
        at = at - 1;
    }
    proof {
        lemma_recorded_at(before, info@, at as int);
    }
    if at > 0 && rows[at - 1].pid.get() == pid {
        let ghost row = info@;
        rows.remove(at - 1);
        rows.insert(at - 1, info);
        assert(views(rows@) =~= before.update(at - 1, row));
    } else {
        let ghost row = info@;
        rows.insert(at, info);
        assert(views(rows@) =~= before.insert(at as int, row));
    }
}

/// Rows that are in the order of their PIDs, no two with the same PID, are
/// their own table.
pub proof fn lemma_table_of_ascending(rows: Seq<ProcessView>)
    requires
        ascending(rows),
    ensures
        table(rows) == rows,
    decreases rows.len(),
{
    if rows.len() > 0 {
        let front = rows.drop_last();
        assert(ascending(front)) by {
            assert forall|i: int, j: int| 0 <= i < j < front.len() implies (
            #[trigger] front[i]).pid.value() < (#[trigger] front[j]).pid.value() by {
                assert(front[i] == rows[i] && front[j] == rows[j]);
            }
        }
        lemma_table_of_ascending(front);
        if front.len() > 0 {
            assert(front.last() == rows[rows.len() - 2]);
            assert(rows[rows.len() - 2].pid.value() < rows[rows.len() - 1].pid.value());
        }
        assert(front.push(rows.last()) =~= rows);
    } else {
        assert(table(rows) =~= rows);
    }
}

/// The table of the processes of `listing`: one row for each PID, in the
/// order of the PIDs.
pub fn tabulate(listing: &Vec<ProcessInfo>) -> (rows: Vec<ProcessInfo>)
    ensures
        views(rows@) == table(views(listing@)),
{
    let mut rows: Vec<ProcessInfo> = Vec::new();
    let mut i: usize = 0;
    assert(views(rows@) =~= table(views(listing@).take(0)));
    while i < listing.len()
        invariant
            i <= listing.len(),
            views(rows@) == table(views(listing@).take(i as int)),
        decreases listing.len() - i,
    {
        assert(views(listing@).take(i as int + 1).drop_last() == views(listing@).take(i as int));
        record(&mut rows, listing[i].duplicate());
        i = i + 1;
    }
    assert(views(listing@).take(i as int) == views(listing@));
    rows
}

/// Running iteration log.
#[derive(Debug, PartialEq, Eq)]
pub struct Log {
    /// The action requested by the scheduler.
    pub decision: SchedulingDecision,
    /// The reason that a process has stopped, and what the scheduler
    /// answered.
    pub stop_reason: Option<(StopReason, SyscallResult)>,
    /// The processes and their states as the scheduler listed them after its
    /// decision. The processor keeps one entry for each PID, in the order of
    /// the PIDs.
    pub processes: Vec<ProcessInfo>,
}

/// What a log entry says.
pub struct LogView {
    /// The action requested by the scheduler.
    pub decision: SchedulingDecision,
    /// The reason that a process has stopped, and what the scheduler
    /// answered.
    pub stop_reason: Option<(StopReason, SyscallResult)>,
    /// What the processes showed of themselves.
    pub processes: Seq<ProcessView>,
}

impl Log {
    /// What the log entry says.
    pub open spec fn view(&self) -> LogView {
        LogView {
            decision: self.decision,
            stop_reason: self.stop_reason,
            processes: views(self.processes@),
        }
    }

    /// A log entry.
    pub fn new(
        decision: SchedulingDecision,
        stop_reason: Option<(StopReason, SyscallResult)>,
        processes: Vec<ProcessInfo>,
    ) -> (log: Log)
        ensures
            log@ == (LogView { decision, stop_reason, processes: views(processes@) }),
    {
        Log { decision, stop_reason, processes }
    }
}

/// The rows of the entry `log` are in the order of their PIDs, no PID has two
/// rows, and at most one process is running.
pub open spec fn orderly(log: LogView) -> bool {
    ascending(log.processes) && one_running(log.processes)
}

/// The table of a listing in which at most one process is running has at
/// most one running process.
pub proof fn lemma_table_one_running(listing: Seq<ProcessView>)
    requires
        one_running(listing),
    ensures
        one_running(table(listing)),
{
    lemma_table(listing);
    let rows = table(listing);
    assert forall|i: int, j: int| 0 <= i < j < rows.len() implies !((#[trigger] rows[i]).state
        == ProcessState::Running && (#[trigger] rows[j]).state == ProcessState::Running) by {
        assert(rows.contains(rows[i]) && rows.contains(rows[j]));
        let a = choose|a: int| 0 <= a < listing.len() && listing[a] == rows[i];
        let b = choose|b: int| 0 <= b < listing.len() && listing[b] == rows[j];
        assert(rows[i].pid.value() < rows[j].pid.value());
        if a < b {
            assert(!(listing[a].state == ProcessState::Running && listing[b].state
                == ProcessState::Running));
        } else if b < a {
            assert(!(listing[b].state == ProcessState::Running && listing[a].state
                == ProcessState::Running));
        }
    }
}

/// What the log entries `logs` say.
pub open spec fn entries(logs: Seq<Log>) -> Seq<LogView> {
    Seq::new(logs.len(), |i: int| logs[i]@)
}

/// What a processor holds.
pub struct ProcessorView<M> {
    /// What its scheduler holds.
    pub scheduler: M,
    /// The process that the scheduler has chosen to run.
    pub current_process: Option<Pid>,
    /// What is left of the quantum of the running process.
    pub remaining: usize,
    /// The log: one entry for each decision of the scheduler.
    pub logs: Seq<LogView>,
    /// The simulation goes on: the scheduler has not decided on a deadlock,
    /// a panic or the end.
    pub running: bool,
}

/// The count `n` less one. The count below zero is the highest count.
pub open spec fn decremented(n: usize) -> usize {
    if n == 0 {
        usize::MAX
    } else {
        (n - 1) as usize
    }
}

/// The log `logs` with the stop `reason` and what the scheduler answered
/// to it, `result`, attached to the last entry, if there is one and nothing
/// is attached to it yet.
pub open spec fn annotated(
    logs: Seq<LogView>,
    reason: StopReason,
    result: SyscallResult,
) -> Seq<LogView> {
    if logs.len() > 0 && logs.last().stop_reason is None {
        logs.update(logs.len() - 1, LogView { stop_reason: Some((reason, result)), ..logs.last() })
    } else {
        logs
    }
}

/// The processor simulator.
pub struct Processor<S: Scheduler> {
    scheduler: S,
    current_process: Option<Pid>,
    remaining: usize,
    logs: Vec<Log>,
    running: bool,
}

impl<S: Scheduler> Processor<S> {
    /// What the processor holds.
    pub closed spec fn view(&self) -> ProcessorView<S::Model> {
        ProcessorView {
            scheduler: self.scheduler.view(),
            current_process: self.current_process,
            remaining: self.remaining,
            logs: entries(self.logs@),
            running: self.running,
        }
    }

    /// What holds of the processor between any two of its operations: the
    /// invariant of its scheduler, and that the entries of the log are
    /// [in order](orderly).
    pub closed spec fn inv(&self) -> bool {
        &&& self.scheduler.inv()
        &&& forall|i: int| 0 <= i < self.logs@.len() ==> orderly((#[trigger] self.logs@[i])@)
    }

    /// In every entry of the log the rows are in the order of their PIDs,
    /// no PID has two rows, and at most one process is running.
    pub proof fn lemma_entries_orderly(&self)
        requires
            self.inv(),
        ensures
            forall|i: int| 0 <= i < self@.logs.len() ==> orderly(#[trigger] self@.logs[i]),
    {
        assert forall|i: int| 0 <= i < self@.logs.len() implies orderly(#[trigger] self@.logs[i]) by {
            assert(orderly(self.logs@[i]@));
        }
    }

    /// The log is a function of what the processor is asked to do: what a
    /// processor holds and answers after a stop depends on nothing but what
    /// it held before and the reason of the stop. Two processors that hold
    /// the same and are told the same hold the same afterwards, and their
    /// logs have the same text.
    pub proof fn lemma_same_stop_same_log(first: &Self, second: &Self, reason: StopReason)
        requires
            first@ == second@,
        ensures
            Self::stepped(first@, reason) == Self::stepped(second@, reason),
            Self::answer(first@, reason) == Self::answer(second@, reason),
            Self::executed(first@) == Self::executed(second@),
            formatted(Self::stepped(first@, reason).logs) == formatted(
                Self::stepped(second@, reason).logs,
            ),
    {
    }

    /// What a processor holds before the first process is created: the
    /// scheduler that it was given, an empty log, and one time unit for the
    /// fork of the first process.
    pub open spec fn initial(scheduler: S::Model) -> ProcessorView<S::Model> {
        ProcessorView {
            scheduler,
            current_process: None,
            remaining: 1,
            logs: Seq::empty(),
            running: true,
        }
    }

    /// The log entry for the decision `decision` that left the scheduler
    /// holding `model`.
    pub open spec fn entry(model: S::Model, decision: SchedulingDecision) -> LogView {
        LogView { decision, stop_reason: None, processes: table(S::processes(model)) }
    }

    /// What the processor holds after it has asked the scheduler for the
    /// next action once. The decision is logged with the processes as the
    /// scheduler lists them after it. A process to run becomes the current
    /// one and gets its quantum, a sleep changes nothing else, and any other
    /// decision ends the simulation.
    pub open spec fn dispatched(before: ProcessorView<S::Model>) -> ProcessorView<S::Model> {
        let decision = S::decision(before.scheduler);
        let scheduler = S::advanced(before.scheduler);
        let logs = before.logs.push(Self::entry(scheduler, decision));
        match decision {
            SchedulingDecision::Run { pid, timeslice } => ProcessorView {
                scheduler,
                current_process: Some(pid),
                remaining: timeslice,
                logs,
                ..before
            },
            SchedulingDecision::Sleep(_) => ProcessorView { scheduler, logs, ..before },
            _ => ProcessorView { scheduler, logs, running: false, ..before },
        }
    }

    /// What the processor holds after it has asked the scheduler for the
    /// next action until that was no sleep: once, or twice where the first
    /// answer was a sleep.
    pub open spec fn drained(before: ProcessorView<S::Model>) -> ProcessorView<S::Model> {
        if S::decision(before.scheduler) is Sleep {
            Self::dispatched(Self::dispatched(before))
        } else {
            Self::dispatched(before)
        }
    }

    /// The stop reason that the scheduler is given for `reason`: the time
    /// unit of the stop itself is taken off what is left of the quantum.
    pub open spec fn charged(before: ProcessorView<S::Model>, reason: StopReason) -> StopReason {
        reason.with_remaining(decremented(before.remaining))
    }

    /// What the processor answers to a stop for `reason`: what the scheduler
    /// answers, or, when the simulation is over, that no process runs.
    pub open spec fn answer(before: ProcessorView<S::Model>, reason: StopReason) -> SyscallResult {
        if before.running {
            S::outcome(before.scheduler, Self::charged(before, reason))
        } else {
            SyscallResult::NoRunningProcess
        }
    }

    /// What the processor holds after the running process has stopped for
    /// `reason`. The scheduler is told, the last log entry gets the reason
    /// and the answer, and the scheduler is asked for the next action until
    /// a process can run or the simulation is over. When the simulation is
    /// over already, nothing changes.
    pub open spec fn stepped(before: ProcessorView<S::Model>, reason: StopReason) -> ProcessorView<
        S::Model,
    > {
        if before.running {
            Self::drained(Self::halted(before, reason))
        } else {
            before
        }
    }

    /// What the processor holds after the scheduler has been told of the
    /// stop for `reason`, before it is asked for the next action: the last
    /// log entry has the reason and the answer, and no process is the
    /// current one.
    pub open spec fn halted(before: ProcessorView<S::Model>, reason: StopReason) -> ProcessorView<
        S::Model,
    > {
        let reason = Self::charged(before, reason);
        ProcessorView {
            scheduler: S::stopped(before.scheduler, reason),
            current_process: None,
            remaining: decremented(before.remaining),
            logs: annotated(before.logs, reason, S::outcome(before.scheduler, reason)),
            running: true,
        }
    }

    /// What the processor holds when its scheduler could not go on with the
    /// stop for `reason`: what it held before, where the scheduler cannot
    /// take the stop; else what it held when the scheduler could not choose
    /// the next action, after the stop or after a sleep.
    pub open spec fn stalled(before: ProcessorView<S::Model>, reason: StopReason) -> ProcessorView<
        S::Model,
    > {
        let halted = Self::halted(before, reason);
        if !S::admits(before.scheduler, Self::charged(before, reason)) {
            before
        } else if !S::advances(halted.scheduler) {
            halted
        } else {
            Self::dispatched(halted)
        }
    }

    /// The scheduler can take the stop for `reason` and choose the actions
    /// that follow it.
    pub open spec fn accepts(before: ProcessorView<S::Model>, reason: StopReason) -> bool {
        before.running ==> {
            let reason = Self::charged(before, reason);
            let stopped = S::stopped(before.scheduler, reason);
            &&& S::admits(before.scheduler, reason)
            &&& S::advances(stopped)
            &&& S::decision(stopped) is Sleep ==> S::advances(S::advanced(stopped))
        }
    }

    /// What the processor holds after the running process has executed for
    /// one time unit.
    pub open spec fn executed(before: ProcessorView<S::Model>) -> ProcessorView<S::Model> {
        if before.running {
            ProcessorView { remaining: decremented(before.remaining), ..before }
        } else {
            before
        }
    }

    /// A processor for a simulation with `scheduler`.
    pub fn new(scheduler: S) -> (processor: Processor<S>)
        requires
            scheduler.inv(),
        ensures
            processor@ == Self::initial(scheduler.view()),
            processor.inv(),
    {
        let processor = Processor {
            scheduler,
            current_process: None,
            remaining: 1,
            logs: Vec::new(),
            running: true,
        };
        assert(processor@.logs =~= Seq::empty());
        processor
    }

    /// Executes one time unit of the running process. Returns whether the
    /// process has some of its quantum left; when it has not, its stop for
    /// [`StopReason::Expired`] is due. When the simulation is over, nothing
    /// is counted.
    pub fn exec(&mut self) -> (left: bool)
        requires
            old(self).inv(),
        ensures
            final(self)@ == Self::executed(old(self)@),
            left == (!old(self)@.running || decremented(old(self)@.remaining) != 0),
            final(self).inv(),
    {
        if self.is_running() {
            self.remaining = if self.remaining == 0 {
                usize::MAX
            } else {
                self.remaining - 1
            };
            self.remaining != 0
        } else {
            true
        }
    }

    /// Logs the processes that the scheduler lists after it has taken the
    /// decision `decision`.
    fn log(&mut self, decision: SchedulingDecision)
        requires
            old(self).inv(),
        ensures
            final(self)@ == (ProcessorView {
                logs: old(self)@.logs.push(Self::entry(old(self)@.scheduler, decision)),
                ..old(self)@
            }),
            final(self).inv(),
    {
        proof {
            self.scheduler.lemma_one_running();
            lemma_table(S::processes(self.scheduler.view()));
            lemma_table_one_running(S::processes(self.scheduler.view()));
        }
        let listing = self.scheduler.list();
        let mut rows: Vec<ProcessInfo> = Vec::new();
        let mut i: usize = 0;
        assert(views(rows@) =~= table(shown(listing@).take(0)));
        while i < listing.len()
            invariant
                i <= listing.len(),
                views(rows@) == table(shown(listing@).take(i as int)),
            decreases listing.len() - i,
        {
            let process = &listing[i];
            let info = ProcessInfo::new(
                process.pid(),
                process.state(),
                process.timings(),
                process.priority(),
                process.extra(),
            );
            assert(shown(listing@).take(i as int + 1).drop_last() == shown(listing@).take(i as int));
            record(&mut rows, info);
            i = i + 1;
        }
        assert(shown(listing@).take(i as int) == shown(listing@));
        let ghost logs = self@.logs;
        let entry = Log::new(decision, None, rows);
        self.logs.push(entry);
        assert(self@.logs =~= logs.push(Self::entry(old(self)@.scheduler, decision)));
    }

    /// Asks the scheduler for the next action once, logs it and does what
    /// it asks of the processor.
    fn dispatch(&mut self) -> (decision: SchedulingDecision)
        requires
            old(self).inv(),
            S::advances(old(self)@.scheduler),
        ensures
            final(self)@ == Self::dispatched(old(self)@),
            decision == S::decision(old(self)@.scheduler),
            final(self).inv(),
    {
        let next = self.scheduler.next();
        self.log(next);
        match next {
            SchedulingDecision::Run { pid, timeslice } => {
                self.remaining = timeslice;
                self.current_process = Some(pid);
            },
            SchedulingDecision::Sleep(_) => {},
            _ => {
                self.stop();
            },
        }
        next
    }

    /// Attaches the stop `reason` and the answer `result` of the scheduler
    /// to the last log entry, if there is one and nothing is attached to it
    /// yet.
    fn annotate(&mut self, reason: StopReason, result: SyscallResult)
        requires
            old(self).inv(),
        ensures
            final(self)@ == (ProcessorView {
                logs: annotated(old(self)@.logs, reason, result),
                ..old(self)@
            }),
            final(self).inv(),
    {
        let ghost logs = self@.logs;
        match self.logs.pop() {
            Some(mut last) => {
                assert(self.logs@ =~= old(self).logs@.drop_last());
                if last.stop_reason.is_none() {
                    last.stop_reason = Some((reason, result));
                }
                self.logs.push(last);
                assert(self@.logs =~= annotated(logs, reason, result));
            },
            None => {
                assert(self@.logs =~= annotated(logs, reason, result));
            },
        }
    }

    /// Tells the scheduler that the running process has stopped for
    /// `reason`, attaches the reason and the answer to the last log entry,
    /// and leaves the processor without a current process. Returns the
    /// reason as the scheduler was given it, and its answer.
    fn halt(&mut self, reason: StopReason) -> (told: (StopReason, SyscallResult))
        requires
            old(self).inv(),
            old(self)@.running,
            S::admits(old(self)@.scheduler, Self::charged(old(self)@, reason)),
        ensures
            final(self)@ == Self::halted(old(self)@, reason),
            told.0 == Self::charged(old(self)@, reason),
            told.1 == Self::answer(old(self)@, reason),
            final(self).inv(),
    {
        self.remaining = if self.remaining == 0 {
            usize::MAX
        } else {
            self.remaining - 1
        };
        let mut reason = reason;
        reason.set_remaining(self.remaining);
        let result = self.scheduler.stop(reason);
        self.annotate(reason, result);
        self.current_process = None;
        (reason, result)
    }

    /// Tells the scheduler that the running process has stopped for
    /// `reason`, and asks it for the next action until a process can run or
    /// the simulation is over. Returns what the scheduler answered to the
    /// stop, or, when the simulation is over, that no process runs.
    pub fn scheduler(&mut self, reason: StopReason) -> (result: SyscallResult)
        requires
            old(self).inv(),
            Self::accepts(old(self)@, reason),
        ensures
            final(self)@ == Self::stepped(old(self)@, reason),
            result == Self::answer(old(self)@, reason),
            final(self).inv(),
    {
        if !self.is_running() {
            return SyscallResult::NoRunningProcess;
        }
        let (_, result) = self.halt(reason);
        let ghost start = self@;
        let ghost mut slept = false;
        let ghost mut done = false;
        while self.running && self.current_process.is_none()
            invariant
                self.inv(),
                start.running && start.current_process is None,
                S::advances(start.scheduler),
                S::decision(start.scheduler) is Sleep ==> S::advances(S::advanced(start.scheduler)),
                done ==> self@ == Self::drained(start) && !(self.running
                    && self.current_process is None),
                !done && !slept ==> self@ == start,
                !done && slept ==> self@ == Self::dispatched(start) && S::decision(
                    start.scheduler,
                ) is Sleep && !(S::decision(S::advanced(start.scheduler)) is Sleep),
            decreases
                    if done {
                        0int
                    } else if slept {
                        1int
                    } else {
                        2int
                    },
        {
            let ghost before = self.scheduler;
            let decision = self.dispatch();
            proof {
                if decision is Sleep {
                    before.lemma_sleep_once();
                    slept = true;
                } else {
                    done = true;
                }
            }
        }
        result
    }

    /// Does what [`Processor::scheduler`] does, as far as the scheduler can
    /// take the stop for `reason` and choose the actions that follow it.
    /// Returns `None` where it cannot; the processor then holds what it held
    /// when the scheduler could not go on.
    pub fn try_scheduler(&mut self, reason: StopReason) -> (result: Option<SyscallResult>)
        requires
            old(self).inv(),
        ensures
            final(self).inv(),
            result is Some <==> Self::accepts(old(self)@, reason),
            result matches Some(answer) ==> answer == Self::answer(old(self)@, reason)
                && final(self)@ == Self::stepped(old(self)@, reason),
            result is None ==> final(self)@ == Self::stalled(old(self)@, reason),
    {
        if !self.is_running() {
            return Some(SyscallResult::NoRunningProcess);
        }
        let mut charged = reason;
        charged.set_remaining(
            if self.remaining == 0 {
                usize::MAX
            } else {
                self.remaining - 1
            },
        );
        if !self.scheduler.can_stop(charged) {
            return None;
        }
        let (_, result) = self.halt(reason);
        let ghost start = self@;
        let ghost mut slept = false;
        let ghost mut done = false;
        while self.running && self.current_process.is_none()
            invariant
                self.inv(),
                old(self)@.running,
                S::admits(old(self)@.scheduler, Self::charged(old(self)@, reason)),
                start == Self::halted(old(self)@, reason),
                start.running && start.current_process is None,
                done ==> self@ == Self::drained(start) && !(self.running
                    && self.current_process is None),
                done ==> S::advances(start.scheduler) && (S::decision(start.scheduler) is Sleep
                    ==> S::advances(S::advanced(start.scheduler))),
                !done && !slept ==> self@ == start,
                !done && slept ==> self@ == Self::dispatched(start) && S::decision(
                    start.scheduler,
                ) is Sleep && !(S::decision(S::advanced(start.scheduler)) is Sleep)
                    && S::advances(start.scheduler),
            decreases
                    if done {
                        0int
                    } else if slept {
                        1int
                    } else {
                        2int
                    },
        {
            if !self.scheduler.can_next() {
                return None;
            }
            let ghost before = self.scheduler;
            let decision = self.dispatch();
            proof {
                if decision is Sleep {
                    before.lemma_sleep_once();
                    slept = true;
                } else {
                    done = true;
                }
            }
        }
        Some(result)
    }

    /// Hands out the log and leaves the processor with an empty one.
    pub fn get_logs(&mut self) -> (logs: Vec<Log>)
        requires
            old(self).inv(),
        ensures
            entries(logs@) == old(self)@.logs,
            final(self)@ == (ProcessorView { logs: Seq::empty(), ..old(self)@ }),
            final(self).inv(),
    {
        let mut logs: Vec<Log> = Vec::new();
        core::mem::swap(&mut logs, &mut self.logs);
        assert(self@.logs =~= Seq::empty());
        logs
    }

    /// Ends the simulation.
    pub fn stop(&mut self)
        requires
            old(self).inv(),
        ensures
            final(self)@ == (ProcessorView { running: false, ..old(self)@ }),
            final(self).inv(),
    {
        self.running = false;
    }

    /// Whether the simulation goes on.
    pub fn is_running(&self) -> (running: bool)
        ensures
            running == self@.running,
    {
        self.running
    }

    /// The process that the scheduler has chosen to run.
    pub fn current_process(&self) -> (current: Option<Pid>)
        ensures
            current == self@.current_process,
    {
        self.current_process
    }
}

} // verus!
