//! What holds of every scheduler of this library, whatever it is asked to do.

use crate::scheduler::{
    group_pid, Pid, ProcessState, SchedulingDecision, StopReason, Syscall, SyscallResult,
};
use crate::schedulers::order::Order;
use crate::schedulers::pcb::PCB;
use crate::schedulers::queue::{
    aged, can_age, first_sleeper, lemma_first_sleeper, lemma_released, lemma_retained,
    lemma_within, released, retained, Wake,
};
use crate::schedulers::state::{least_vruntime, Policy, State};
use crate::schedulers::wellformed::{lemma_aged, lemma_joined, lemma_least_vruntime, lemma_pushed};
use vstd::prelude::*;

verus! {

/// The process `later` is the process `earlier` at a later time: it has the
/// same PID, and its total time is not less.
pub open spec fn succeeds(later: PCB, earlier: PCB) -> bool {
    later.pid == earlier.pid && later.timings.0 >= earlier.timings.0
}

/// Every process of `later` is a process of `earlier` at a later time.
pub open spec fn follows(later: Seq<PCB>, earlier: Seq<PCB>) -> bool {
    forall|q: PCB| #[trigger]
        later.contains(q) ==> exists|p: PCB| #[trigger] earlier.contains(p) && succeeds(q, p)
}

/// What follows a queue that follows another follows that other.
pub proof fn lemma_follows_on(last: Seq<PCB>, middle: Seq<PCB>, first: Seq<PCB>)
    requires
        follows(last, middle),
        follows(middle, first),
    ensures
        follows(last, first),
{
    assert forall|q: PCB| #[trigger] last.contains(q) implies exists|p: PCB| #[trigger]
        first.contains(p) && succeeds(q, p) by {
        let m = choose|m: PCB| #[trigger] middle.contains(m) && succeeds(q, m);
        let p = choose|p: PCB| #[trigger] first.contains(p) && succeeds(m, p);
        assert(first.contains(p) && succeeds(q, p));
    }
}

/// A queue whose processes are all processes of another follows it.
pub proof fn lemma_follows_within(inner: Seq<PCB>, outer: Seq<PCB>)
    requires
        forall|p: PCB| #[trigger] inner.contains(p) ==> outer.contains(p),
    ensures
        follows(inner, outer),
{
    assert forall|q: PCB| #[trigger] inner.contains(q) implies exists|p: PCB| #[trigger]
        outer.contains(p) && succeeds(q, p) by {
        assert(outer.contains(q) && succeeds(q, q));
    }
}

/// Two queues one after the other follow what each of them follows.
pub proof fn lemma_follows_joined(front: Seq<PCB>, back: Seq<PCB>, earlier: Seq<PCB>)
    requires
        follows(front, earlier),
        follows(back, earlier),
    ensures
        follows(front + back, earlier),
{
    lemma_joined(front, back);
}

/// The queue after time has passed follows the queue, where the total times
/// can hold the time.
pub proof fn lemma_follows_aged(queue: Seq<PCB>, units: int)
    requires
        can_age(queue, units),
        0 <= units,
    ensures
        follows(aged(queue, units), queue),
{
    lemma_aged(queue, units);
    assert forall|q: PCB| #[trigger] aged(queue, units).contains(q) implies exists|p: PCB| #[trigger]
        queue.contains(p) && succeeds(q, p) by {
        let p = choose|p: PCB| #[trigger] queue.contains(p) && q == p.aged(units);
        let i = choose|i: int| 0 <= i < queue.len() && queue[i] == p;
        assert(queue[i].can_age(units));
        assert(queue.contains(p) && succeeds(q, p));
    }
}

/// The processes that are woken up and those that are not follow the queue
/// that they waited in, and are as many as it held.
pub proof fn lemma_follows_split(queue: Seq<PCB>, wake: Wake)
    ensures
        follows(released(queue, wake), queue),
        follows(retained(queue, wake), queue),
        released(queue, wake).len() + retained(queue, wake).len() == queue.len(),
    decreases queue.len(),
{
    lemma_released(queue, wake);
    lemma_retained(queue, wake);
    assert forall|q: PCB| #[trigger] released(queue, wake).contains(q) implies exists|p: PCB| #[trigger]
        queue.contains(p) && succeeds(q, p) by {
        let p = choose|p: PCB| #[trigger] queue.contains(p) && wake.concerns(p) && q == p.readied();
        assert(queue.contains(p) && succeeds(q, p));
    }
    lemma_follows_within(retained(queue, wake), queue);
    if queue.len() > 0 {
        lemma_follows_split(queue.drop_last(), wake);
    }
}

/// The sleeping processes of `queue` stand in the order of the time that
/// they have left to sleep.
pub open spec fn sleepers_in_order(queue: Seq<PCB>) -> bool {
    forall|i: int, j: int|
        0 <= i < j < queue.len() && (#[trigger] queue[i]).is_sleeping() && (
        #[trigger] queue[j]).is_sleeping() ==> queue[i].sleep <= queue[j].sleep
}

/// The processes that go on waiting keep the order in which they stood.
pub proof fn lemma_retained_sleepers(queue: Seq<PCB>, wake: Wake)
    requires
        sleepers_in_order(queue),
    ensures
        sleepers_in_order(retained(queue, wake)),
    decreases queue.len(),
{
    if queue.len() > 0 {
        let front = queue.drop_last();
        let last = queue.last();
        assert(sleepers_in_order(front)) by {
            assert forall|i: int, j: int|
                0 <= i < j < front.len() && (#[trigger] front[i]).is_sleeping() && (
                #[trigger] front[j]).is_sleeping() implies front[i].sleep <= front[j].sleep by {
                assert(front[i] == queue[i] && front[j] == queue[j]);
            }
        }
        lemma_retained_sleepers(front, wake);
        lemma_retained(front, wake);
        let inner = retained(front, wake);
        let out = retained(queue, wake);
        if !wake.concerns(last) {
            assert forall|i: int, j: int|
                0 <= i < j < out.len() && (#[trigger] out[i]).is_sleeping() && (
                #[trigger] out[j]).is_sleeping() implies out[i].sleep <= out[j].sleep by {
                if j == out.len() - 1 {
                    assert(inner.contains(inner[i]));
                    let k = choose|k: int| 0 <= k < front.len() && front[k] == inner[i];
                    assert(queue[k] == inner[i]);
                    assert(queue[queue.len() - 1] == out[j]);
                } else {
                    assert(out[i] == inner[i] && out[j] == inner[j]);
                }
            }
        }
    }
}

/// A call of one of the two operations of a scheduler.
pub enum Call {
    /// The scheduler is asked for the next action.
    Next,
    /// The scheduler is told that the running process has stopped.
    Stop(StopReason),
}

impl State {
    /// The processes in the queues of the scheduler.
    pub open spec fn queued(self) -> Seq<PCB> {
        self.ready + self.waiting
    }

    /// The queues after time and wake-ups follow the queues of before, and
    /// hold as many processes.
    pub proof fn lemma_follows_settled(self, units: int, signal: Option<usize>)
        requires
            can_age(self.ready, units),
            can_age(self.waiting, units),
            0 <= units,
        ensures
            follows(self.settled(units, signal).ready, self.queued()),
            follows(self.settled(units, signal).waiting, self.queued()),
            self.settled(units, signal).ready.len() + self.settled(units, signal).waiting.len()
                == self.ready.len() + self.waiting.len(),
    {
        let ready = aged(self.ready, units);
        let waiting = aged(self.waiting, units);
        lemma_follows_aged(self.ready, units);
        lemma_follows_aged(self.waiting, units);
        lemma_joined(self.ready, self.waiting);
        lemma_follows_within(self.ready, self.queued());
        lemma_follows_within(self.waiting, self.queued());
        lemma_follows_on(ready, self.ready, self.queued());
        lemma_follows_on(waiting, self.waiting, self.queued());
        lemma_follows_split(waiting, Wake::Due);
        lemma_follows_on(released(waiting, Wake::Due), waiting, self.queued());
        lemma_follows_on(retained(waiting, Wake::Due), waiting, self.queued());
        lemma_follows_joined(ready, released(waiting, Wake::Due), self.queued());
        if let Some(event) = signal {
            let wake = Wake::Signal(event);
            let rest = retained(waiting, Wake::Due);
            lemma_follows_split(rest, wake);
            lemma_follows_on(released(rest, wake), rest, self.queued());
            lemma_follows_on(retained(rest, wake), rest, self.queued());
            lemma_follows_joined(
                ready + released(waiting, Wake::Due),
                released(rest, wake),
                self.queued(),
            );
        }
    }

    /// At most one of the processes of a scheduler is running: the first
    /// that it lists, if any.
    pub proof fn lemma_one_running(self)
        requires
            self.inv(),
        ensures
            forall|i: int|
                0 < i < self.processes().len() ==> (#[trigger] self.processes()[i]).state
                    != ProcessState::Running,
            forall|i: int, j: int|
                0 <= i < j < self.processes().len() ==> !((#[trigger] self.processes()[i]).state
                    == ProcessState::Running && (#[trigger] self.processes()[j]).state
                    == ProcessState::Running),
    {
        assert forall|i: int| 0 <= i < self.ready.len() implies (#[trigger] self.ready[i]).state
            == ProcessState::Ready by {
            assert(self.ready.contains(self.ready[i]));
        }
        assert forall|i: int| 0 <= i < self.waiting.len() implies (#[trigger] self.waiting[i]).state is Waiting by {
            assert(self.waiting.contains(self.waiting[i]));
        }
    }

    /// The total time of every process of a scheduler is at least the time
    /// of its system calls and the time for which it has run.
    pub proof fn lemma_total_covers(self)
        requires
            self.inv(),
        ensures
            forall|i: int|
                0 <= i < self.processes().len() ==> (#[trigger] self.processes()[i]).timings.0
                    >= self.processes()[i].timings.1 + self.processes()[i].timings.2,
    {
        assert forall|i: int| 0 <= i < self.ready.len() implies (#[trigger] self.ready[i]).sound() by {
            assert(self.ready.contains(self.ready[i]));
        }
        assert forall|i: int| 0 <= i < self.waiting.len() implies (#[trigger] self.waiting[i]).sound() by {
            assert(self.waiting.contains(self.waiting[i]));
        }
    }

    /// A panic stays: a scheduler that has panicked answers every question
    /// for the next action with a panic, and no operation ends the panic.
    pub proof fn lemma_panic_latched(self, reason: StopReason)
        requires
            self.panic,
        ensures
            self.decision() == SchedulingDecision::Panic,
            self.advanced().panic,
            self.stopped(reason).panic,
    {
    }

    /// After the scheduler has decided on a deadlock, no process is ready,
    /// none runs, and every process that waits, waits for an event.
    pub proof fn lemma_deadlock(self)
        requires
            self.inv(),
            self.advances(),
            self.decision() == SchedulingDecision::Deadlock,
        ensures
            self.advanced().ready.len() == 0,
            self.advanced().current is None,
            self.advanced().waiting.len() > 0,
            forall|i: int|
                0 <= i < self.advanced().waiting.len() ==> (#[trigger] self.advanced().waiting[i]).state
                    matches ProcessState::Waiting { event: Some(_) },
    {
        self.lemma_advanced_inv();
        let after = self.advanced();
        lemma_first_sleeper(after.waiting);
        assert forall|i: int| 0 <= i < after.waiting.len() implies (#[trigger] after.waiting[i]).state
            matches ProcessState::Waiting { event: Some(_) } by {
            assert(after.waiting.contains(after.waiting[i]));
            assert(!after.waiting[i].is_sleeping());
        }
    }

    /// PIDs are given out in turn: a scheduler answers a fork with the PID
    /// that is next, the first time with 1, and then the PID after it is
    /// next. Nothing else changes which PID is next.
    pub proof fn lemma_pids_in_turn(self, reason: StopReason)
        requires
            self.inv(),
            self.admits(reason),
        ensures
            State::initial(self.policy, self.timeslice, self.minimum_remaining_timeslice).next_pid
                == 1,
            self.outcome(reason) matches SyscallResult::Pid(pid) ==> pid.value() == self.next_pid
                && self.stopped(reason).next_pid == self.next_pid + 1,
            !(self.outcome(reason) is Pid) ==> self.stopped(reason).next_pid == self.next_pid,
            self.advanced().next_pid == self.next_pid,
    {
        broadcast use group_pid;

    }

    /// The process `pcb` has just been created by a fork: it has the PID
    /// that was next, has used no time, and is ready.
    pub open spec fn born(self, pcb: PCB) -> bool {
        &&& pcb.pid == Pid::of(self.next_pid)
        &&& pcb.timings == (0usize, 0usize, 0usize)
        &&& pcb.state == ProcessState::Ready
    }

    /// Every process of `later` is a process of this scheduler at a later
    /// time, or has just been created.
    pub open spec fn stems(self, later: Seq<PCB>) -> bool {
        forall|q: PCB| #[trigger]
            later.contains(q) ==> self.born(q) || exists|p: PCB| #[trigger]
                self.processes().contains(p) && succeeds(q, p)
    }

    /// What follows the queues of the scheduler stems from the scheduler.
    pub proof fn lemma_stems_from_queues(self, later: Seq<PCB>)
        requires
            follows(later, self.queued()),
        ensures
            self.stems(later),
    {
        assert forall|q: PCB| #[trigger] later.contains(q) implies self.born(q) || exists|p: PCB| #[trigger]
            self.processes().contains(p) && succeeds(q, p) by {
            let p = choose|p: PCB| #[trigger] self.queued().contains(p) && succeeds(q, p);
            self.lemma_queued_listed(p);
            assert(self.processes().contains(p) && succeeds(q, p));
        }
    }

    /// The scheduler lists the processes of its queues.
    pub proof fn lemma_queued_listed(self, p: PCB)
        requires
            self.queued().contains(p),
        ensures
            self.processes().contains(p),
    {
        match self.current {
            Some(pcb) => {
                assert(self.processes() =~= seq![pcb] + self.queued());
                lemma_joined(seq![pcb], self.queued());
            },
            None => {},
        }
    }

    /// The scheduler lists the process that runs.
    pub proof fn lemma_current_listed(self, pcb: PCB)
        requires
            self.current == Some(pcb),
        ensures
            self.processes().contains(pcb),
    {
        assert(self.processes()[0] == pcb);
    }

    /// Queues that stem from the scheduler, one after the other, stem from
    /// it.
    pub proof fn lemma_stems_joined(self, front: Seq<PCB>, back: Seq<PCB>)
        requires
            self.stems(front),
            self.stems(back),
        ensures
            self.stems(front + back),
    {
        lemma_joined(front, back);
    }

    /// A queue with one process only, which is the running process at a
    /// later time or has just been created, stems from the scheduler.
    pub proof fn lemma_stems_one(self, pcb: PCB)
        requires
            self.born(pcb) || (self.current matches Some(p) && succeeds(pcb, p)),
        ensures
            self.stems(seq![pcb]),
    {
        assert forall|q: PCB| #[trigger] seq![pcb].contains(q) implies self.born(q) || exists|p: PCB| #[trigger]
            self.processes().contains(p) && succeeds(q, p) by {
            assert(q == pcb);
            if !self.born(pcb) {
                self.lemma_current_listed(self.current->0);
                assert(self.processes().contains(self.current->0) && succeeds(q, self.current->0));
            }
        }
    }

    /// The ready queue in the order of the policy stems from the scheduler
    /// if the ready queue does.
    pub proof fn lemma_stems_arranged(self, ready: Seq<PCB>)
        requires
            self.stems(ready),
        ensures
            self.stems(self.arranged(ready)),
            self.arranged(ready).len() == ready.len(),
    {
        Order::Priority.lemma_sorted_holds(ready);
        Order::Fair.lemma_sorted_holds(ready);
    }

    /// Across a stop the total time of a process does not decrease: every
    /// process that the scheduler holds after the stop is one that it held
    /// before, with a total time that is not less, or has just been created.
    pub proof fn lemma_totals_grow_on_stop(self, reason: StopReason)
        requires
            self.inv(),
            self.admits(reason),
        ensures
            self.stems(self.stopped(reason).processes()),
    {
        broadcast use group_pid;

        let after = self.stopped(reason);
        match (self.current, reason) {
            (None, StopReason::Syscall { syscall: Syscall::Fork(priority), .. }) => {
                if self.next_pid == 1 {
                    let child = self.child(priority, self.minimum_vruntime);
                    self.lemma_stems_one(child);
                    assert(after.processes() =~= seq![child]);
                } else {
                    lemma_follows_within(after.processes(), self.processes());
                }
            },
            (None, _) => {
                lemma_follows_within(after.processes(), self.processes());
            },
            (Some(pcb), StopReason::Expired) => {
                let units = self.remaining as int;
                let settled = self.settled(units, None);
                self.lemma_follows_settled(units, None);
                let ready = aged(self.ready, units);
                let woken = released(aged(self.waiting, units), Wake::Due);
                lemma_follows_aged(self.ready, units);
                lemma_joined(self.ready, self.waiting);
                lemma_follows_within(self.ready, self.queued());
                lemma_follows_on(ready, self.ready, self.queued());
                lemma_follows_split(aged(self.waiting, units), Wake::Due);
                lemma_follows_aged(self.waiting, units);
                lemma_follows_within(self.waiting, self.queued());
                lemma_follows_on(aged(self.waiting, units), self.waiting, self.queued());
                lemma_follows_on(woken, aged(self.waiting, units), self.queued());
                self.lemma_stems_from_queues(ready);
                self.lemma_stems_from_queues(woken);
                self.lemma_stems_from_queues(settled.waiting);
                let back = pcb.billed(units, 0).readied();
                self.lemma_stems_one(back);
                self.lemma_stems_joined(ready, seq![back]);
                assert(ready.push(back) =~= ready + seq![back]);
                self.lemma_stems_joined(ready.push(back), woken);
                self.lemma_stems_arranged(ready.push(back) + woken);
                self.lemma_stems_joined(after.ready, after.waiting);
            },
            (Some(pcb), StopReason::Syscall { syscall, remaining }) => {
                let units = self.remaining - remaining;
                let billed = pcb.billed(units, 1);
                match syscall {
                    Syscall::Fork(priority) => {
                        let settled = self.settled(units, None);
                        self.lemma_follows_settled(units, None);
                        self.lemma_stems_from_queues(settled.ready);
                        self.lemma_stems_from_queues(settled.waiting);
                        let floor = if self.policy == Policy::Fair {
                            least_vruntime(
                                settled.waiting,
                                least_vruntime(settled.ready, billed.fair_time()),
                            )
                        } else {
                            self.minimum_vruntime
                        };
                        let child = self.child(priority, floor);
                        let parent = billed.readied();
                        self.lemma_stems_one(child);
                        self.lemma_stems_one(parent);
                        let ready = settled.ready.push(child);
                        assert(ready =~= settled.ready + seq![child]);
                        self.lemma_stems_joined(settled.ready, seq![child]);
                        self.lemma_stems_joined(seq![parent], ready);
                        self.lemma_stems_joined(ready, seq![parent]);
                        assert(ready.push(parent) =~= ready + seq![parent]);
                        self.lemma_stems_arranged(seq![parent] + ready);
                        self.lemma_stems_arranged(ready.push(parent));
                        self.lemma_stems_joined(after.ready, after.waiting);
                    },
                    Syscall::Sleep(_) | Syscall::Wait(_) => {
                        let settled = self.settled(units, None);
                        self.lemma_follows_settled(units, None);
                        self.lemma_stems_from_queues(settled.ready);
                        self.lemma_stems_from_queues(settled.waiting);
                        let waiter = after.waiting.last();
                        self.lemma_stems_one(waiter);
                        self.lemma_stems_joined(settled.waiting, seq![waiter]);
                        assert(after.waiting =~= settled.waiting + seq![waiter]);
                        self.lemma_stems_arranged(settled.ready);
                        self.lemma_stems_joined(after.ready, after.waiting);
                    },
                    Syscall::Signal(event) => {
                        let settled = self.settled(units, Some(event));
                        self.lemma_follows_settled(units, Some(event));
                        self.lemma_stems_from_queues(settled.ready);
                        self.lemma_stems_from_queues(settled.waiting);
                        let back = billed.readied();
                        self.lemma_stems_one(back);
                        self.lemma_stems_joined(seq![back], settled.ready);
                        self.lemma_stems_joined(settled.ready, seq![back]);
                        assert(settled.ready.push(back) =~= settled.ready + seq![back]);
                        self.lemma_stems_arranged(seq![back] + settled.ready);
                        self.lemma_stems_arranged(settled.ready.push(back));
                        self.lemma_stems_joined(after.ready, after.waiting);
                    },
                    Syscall::Exit => {
                        let settled = self.settled(units, None);
                        self.lemma_follows_settled(units, None);
                        self.lemma_stems_from_queues(settled.ready);
                        self.lemma_stems_from_queues(settled.waiting);
                        self.lemma_stems_arranged(settled.ready);
                        self.lemma_stems_joined(after.ready, after.waiting);
                    },
                }
            },
        }
    }

    /// Across the choice of the next action the total time of a process
    /// does not decrease: every process that the scheduler holds after it is
    /// one that it held before, with a total time that is not less.
    pub proof fn lemma_totals_grow_on_next(self)
        requires
            self.inv(),
            self.advances(),
        ensures
            follows(self.advanced().processes(), self.processes()),
    {
        let after = self.advanced();
        if self.panic {
            lemma_follows_within(after.processes(), self.processes());
        } else {
            let awake = self.awake();
            let sorted = Order::Sleep.sorted(self.waiting);
            Order::Sleep.lemma_sorted_holds(self.waiting);
            lemma_within(sorted, self.waiting, self.sleep as int);
            lemma_follows_within(sorted, self.waiting);
            lemma_follows_aged(sorted, self.sleep as int);
            let waiting = aged(sorted, self.sleep as int);
            lemma_follows_on(waiting, sorted, self.waiting);
            lemma_follows_split(waiting, Wake::Due);
            lemma_follows_on(released(waiting, Wake::Due), waiting, self.waiting);
            lemma_follows_on(retained(waiting, Wake::Due), waiting, self.waiting);
            lemma_joined(self.ready, self.waiting);
            lemma_follows_within(self.ready, self.queued());
            lemma_follows_within(self.waiting, self.queued());
            lemma_follows_on(released(waiting, Wake::Due), self.waiting, self.queued());
            lemma_follows_on(awake.waiting, self.waiting, self.queued());
            lemma_follows_joined(self.ready, released(waiting, Wake::Due), self.queued());
            assert forall|p: PCB| #[trigger] self.queued().contains(p) implies self.processes().contains(
                p,
            ) by {
                self.lemma_queued_listed(p);
            }
            lemma_follows_within(self.queued(), self.processes());
            lemma_follows_on(awake.ready, self.queued(), self.processes());
            lemma_follows_on(awake.waiting, self.queued(), self.processes());
            if !awake.is_idle() && awake.ready.len() > 0 {
                let first = awake.ready[0];
                assert(awake.ready.contains(first));
                let p = choose|p: PCB| #[trigger] self.processes().contains(p) && succeeds(first, p);
                assert forall|q: PCB| #[trigger] after.ready.contains(q) implies awake.ready.contains(
                    q,
                ) by {
                    let i = choose|i: int| 0 <= i < after.ready.len() && after.ready[i] == q;
                    assert(awake.ready[i + 1] == q);
                }
                lemma_follows_within(after.ready, awake.ready);
                lemma_follows_on(after.ready, awake.ready, self.processes());
                assert(follows(seq![first.dispatched()], self.processes())) by {
                    assert forall|q: PCB| #[trigger]
                        seq![first.dispatched()].contains(q) implies exists|p: PCB| #[trigger]
                        self.processes().contains(p) && succeeds(q, p) by {
                        assert(q == first.dispatched());
                        assert(self.processes().contains(p) && succeeds(q, p));
                    }
                }
                lemma_follows_joined(seq![first.dispatched()], after.ready, self.processes());
                lemma_follows_joined(
                    seq![first.dispatched()] + after.ready,
                    after.waiting,
                    self.processes(),
                );
            } else {
                match self.current {
                    Some(pcb) => {
                        self.lemma_current_listed(pcb);
                        assert(follows(seq![pcb], self.processes())) by {
                            assert forall|q: PCB| #[trigger] seq![pcb].contains(q) implies exists|p: PCB| #[trigger]
                                self.processes().contains(p) && succeeds(q, p) by {
                                assert(q == pcb);
                                assert(self.processes().contains(pcb) && succeeds(q, pcb));
                            }
                        }
                        lemma_follows_joined(seq![pcb], after.ready, self.processes());
                        lemma_follows_joined(
                            seq![pcb] + after.ready,
                            after.waiting,
                            self.processes(),
                        );
                    },
                    None => {
                        lemma_follows_joined(after.ready, after.waiting, self.processes());
                    },
                }
            }
        }
    }

    /// A fork that the scheduler carries out creates one process: the
    /// scheduler then holds one process more, and among the ready ones the
    /// new one, with the PID that was next and without any time used. In a
    /// fair scheduler it has the lowest virtual runtime that the scheduler
    /// records at the fork.
    pub proof fn lemma_fork_creates(self, priority: i8, remaining: usize)
        requires
            self.inv(),
            self.admits(StopReason::Syscall { syscall: Syscall::Fork(priority), remaining }),
            self.current is Some || self.next_pid == 1,
        ensures
            ({
                let after = self.stopped(
                    StopReason::Syscall { syscall: Syscall::Fork(priority), remaining },
                );
                &&& after.processes().len() == self.processes().len() + 1
                &&& after.ready.contains(after.newborn(self.next_pid, priority))
                &&& self.born(after.newborn(self.next_pid, priority))
            }),
    {
        broadcast use group_pid;

        let reason = StopReason::Syscall { syscall: Syscall::Fork(priority), remaining };
        let after = self.stopped(reason);
        match self.current {
            None => {
                let child = self.child(priority, self.minimum_vruntime);
                assert(after.ready.last() == child);
            },
            Some(pcb) => {
                let units = self.remaining - remaining;
                let settled = self.settled(units, None);
                self.lemma_follows_settled(units, None);
                let child = self.child(priority, after.minimum_vruntime);
                let parent = pcb.billed(units, 1).readied();
                let ready = settled.ready.push(child);
                lemma_pushed(settled.ready, child);
                lemma_joined(seq![parent], ready);
                lemma_pushed(ready, parent);
                Order::Priority.lemma_sorted_holds(seq![parent] + ready);
                Order::Fair.lemma_sorted_holds(seq![parent] + ready);
                Order::Priority.lemma_sorted_holds(ready.push(parent));
                Order::Fair.lemma_sorted_holds(ready.push(parent));
                assert(ready.contains(child));
                assert((seq![parent] + ready).contains(child));
                assert(ready.push(parent).contains(child));
            },
        }
    }

    /// The process that a fork has just created in this scheduler, if it
    /// was given the PID `pid` and the priority `priority`.
    pub open spec fn newborn(self, pid: usize, priority: i8) -> PCB {
        PCB {
            pid: Pid::of(pid),
            state: ProcessState::Ready,
            timings: (0, 0, 0),
            priority,
            sleep: 0,
            vruntime: if self.policy == Policy::Fair {
                Some(self.minimum_vruntime)
            } else {
                None
            },
        }
    }

    /// The lowest virtual runtime that a scheduler records never decreases.
    pub proof fn lemma_minimum_vruntime_grows(self, reason: StopReason)
        requires
            self.inv(),
            self.admits(reason),
        ensures
            self.stopped(reason).minimum_vruntime >= self.minimum_vruntime,
            self.advanced().minimum_vruntime == self.minimum_vruntime,
    {
        if let (Some(pcb), StopReason::Syscall { syscall: Syscall::Fork(priority), remaining }) = (
            self.current,
            reason,
        ) {
            let units = self.remaining - remaining;
            let settled = self.settled(units, None);
            self.lemma_settled(units, None);
            let parent = pcb.billed(units, 1);
            lemma_least_vruntime(settled.ready, parent.fair_time());
            lemma_least_vruntime(settled.waiting, least_vruntime(settled.ready, parent.fair_time()));
        }
    }

    /// A sleep that the scheduler decides on is the shortest that ends the
    /// sleep of a process: it is some time, the time that one of the sleeping
    /// processes has left to sleep, and no sleeping process has less left.
    /// It is the sleep that is charged when the next action is chosen.
    pub proof fn lemma_sleep_is_shortest(self)
        requires
            self.inv(),
            self.advances(),
            self.decision() is Sleep,
        ensures
            self.decision()->Sleep_0 > 0,
            self.advanced().sleep == self.decision()->Sleep_0,
            exists|i: int|
                0 <= i < self.advanced().waiting.len() && (#[trigger] self.advanced().waiting[i]).is_sleeping()
                    && self.advanced().waiting[i].sleep == self.decision()->Sleep_0,
            forall|i: int|
                0 <= i < self.advanced().waiting.len() && (#[trigger] self.advanced().waiting[i]).is_sleeping()
                    ==> self.advanced().waiting[i].sleep >= self.decision()->Sleep_0,
    {
        let units = self.sleep as int;
        let sorted = Order::Sleep.sorted(self.waiting);
        Order::Sleep.lemma_sorted_holds(self.waiting);
        if sorted.len() > 0 {
            Order::Sleep.lemma_sorted(self.waiting, sorted[0]);
        }
        let waiting = aged(sorted, units);
        assert(sleepers_in_order(waiting)) by {
            assert forall|i: int, j: int|
                0 <= i < j < waiting.len() && (#[trigger] waiting[i]).is_sleeping() && (
                #[trigger] waiting[j]).is_sleeping() implies waiting[i].sleep <= waiting[j].sleep by {
                assert(sorted.contains(sorted[i]) && sorted.contains(sorted[j]));
                assert(self.waiting.contains(sorted[i]) && self.waiting.contains(sorted[j]));
                assert(!Order::Sleep.ranks_before(sorted[j], sorted[i]));
            }
        }
        lemma_retained_sleepers(waiting, Wake::Due);
        self.lemma_awake();
        let awake = self.awake();
        lemma_first_sleeper(awake.waiting);
        let at = first_sleeper(awake.waiting);
        assert(awake.waiting.contains(awake.waiting[at]));
        assert(self.advanced().waiting == awake.waiting);
        assert forall|i: int|
            0 <= i < awake.waiting.len() && (#[trigger] awake.waiting[i]).is_sleeping() implies awake.waiting[i].sleep
            >= self.decision()->Sleep_0 by {
            if i != at {
                assert(at < i);
            }
        }
    }

    /// The state after the one call `call`.
    pub open spec fn called(self, call: Call) -> State {
        match call {
            Call::Next => self.advanced(),
            Call::Stop(reason) => self.stopped(reason),
        }
    }

    /// The scheduler can take the one call `call`.
    pub open spec fn takes(self, call: Call) -> bool {
        match call {
            Call::Next => self.advances(),
            Call::Stop(reason) => self.admits(reason),
        }
    }

    /// The state after the calls `calls`, one after the other.
    pub open spec fn after(self, calls: Seq<Call>) -> State
        decreases calls.len(),
    {
        if calls.len() == 0 {
            self
        } else {
            self.after(calls.drop_last()).called(calls.last())
        }
    }

    /// The scheduler can take the calls `calls`, one after the other.
    pub open spec fn takes_all(self, calls: Seq<Call>) -> bool
        decreases calls.len(),
    {
        calls.len() > 0 ==> self.takes_all(calls.drop_last()) && self.after(calls.drop_last()).takes(
            calls.last(),
        )
    }

    /// The number of the calls `calls` that the scheduler answers with the
    /// PID of a new process.
    pub open spec fn forks(self, calls: Seq<Call>) -> nat
        decreases calls.len(),
    {
        if calls.len() == 0 {
            0
        } else {
            let before = self.forks(calls.drop_last());
            match calls.last() {
                Call::Stop(reason) if self.after(calls.drop_last()).outcome(reason) is Pid => before
                    + 1,
                _ => before,
            }
        }
    }

    /// Whatever a scheduler is asked to do and can take, it keeps its
    /// invariant.
    pub proof fn lemma_after_inv(self, calls: Seq<Call>)
        requires
            self.inv(),
            self.takes_all(calls),
        ensures
            self.after(calls).inv(),
        decreases calls.len(),
    {
        if calls.len() > 0 {
            self.lemma_after_inv(calls.drop_last());
            let before = self.after(calls.drop_last());
            match calls.last() {
                Call::Next => before.lemma_advanced_inv(),
                Call::Stop(reason) => before.lemma_stopped_inv(reason),
            }
        }
    }

    /// PIDs are given out densely and in turn: after any calls the PID that
    /// is next is one more than the number of forks that the scheduler has
    /// answered with a PID, and it answers a fork with the PID that is next.
    /// So a new scheduler answers the first fork with 1 and the n-th with n.
    pub proof fn lemma_nth_fork(self, calls: Seq<Call>, reason: StopReason)
        requires
            self.inv(),
            self.takes_all(calls),
            self.after(calls).admits(reason),
        ensures
            self.after(calls).next_pid == self.next_pid + self.forks(calls),
            self.after(calls).outcome(reason) matches SyscallResult::Pid(pid) ==> pid.value()
                == self.next_pid + self.forks(calls),
    {
        broadcast use group_pid;

        self.lemma_next_pid(calls);
        self.lemma_after_inv(calls);
        self.after(calls).lemma_pids_in_turn(reason);
    }

    /// A new scheduler answers the first fork with the PID 1, and the fork
    /// that follows n - 1 forks that it has answered with the PID n,
    /// whatever else it was asked to do in between.
    pub proof fn lemma_forks_count_from_one(
        policy: Policy,
        timeslice: usize,
        minimum_remaining_timeslice: usize,
        calls: Seq<Call>,
        reason: StopReason,
    )
        requires
            timeslice > 0,
            State::initial(policy, timeslice, minimum_remaining_timeslice).takes_all(calls),
            State::initial(policy, timeslice, minimum_remaining_timeslice).after(calls).admits(
                reason,
            ),
        ensures
            ({
                let new = State::initial(policy, timeslice, minimum_remaining_timeslice);
                new.after(calls).outcome(reason) matches SyscallResult::Pid(pid) ==> pid.value()
                    == new.forks(calls) + 1
            }),
    {
        let new = State::initial(policy, timeslice, minimum_remaining_timeslice);
        new.lemma_nth_fork(calls, reason);
    }

    /// After any calls the PID that is next is one more than the number of
    /// forks that the scheduler has answered with a PID.
    pub proof fn lemma_next_pid(self, calls: Seq<Call>)
        requires
            self.inv(),
            self.takes_all(calls),
        ensures
            self.after(calls).next_pid == self.next_pid + self.forks(calls),
        decreases calls.len(),
    {
        if calls.len() > 0 {
            let before = self.after(calls.drop_last());
            self.lemma_after_inv(calls.drop_last());
            self.lemma_next_pid(calls.drop_last());
            match calls.last() {
                Call::Next => {
                    assert(before.advanced().next_pid == before.next_pid);
                },
                Call::Stop(stop) => {
                    before.lemma_pids_in_turn(stop);
                },
            }
        }
    }

    /// Once a scheduler has panicked, it answers every question for the next
    /// action with a panic, whatever it is asked to do in between.
    pub proof fn lemma_panic_forever(self, calls: Seq<Call>)
        requires
            self.panic,
        ensures
            self.after(calls).panic,
            self.after(calls).decision() == SchedulingDecision::Panic,
        decreases calls.len(),
    {
        if calls.len() > 0 {
            self.lemma_panic_forever(calls.drop_last());
            let before = self.after(calls.drop_last());
            match calls.last() {
                Call::Next => before.lemma_panic_latched(StopReason::Expired),
                Call::Stop(reason) => before.lemma_panic_latched(reason),
            }
        }
    }

    /// The lowest virtual runtime that a scheduler records never decreases,
    /// whatever the scheduler is asked to do.
    pub proof fn lemma_minimum_vruntime_never_falls(self, calls: Seq<Call>)
        requires
            self.inv(),
            self.takes_all(calls),
        ensures
            self.after(calls).minimum_vruntime >= self.minimum_vruntime,
        decreases calls.len(),
    {
        if calls.len() > 0 {
            self.lemma_minimum_vruntime_never_falls(calls.drop_last());
            self.lemma_after_inv(calls.drop_last());
            let before = self.after(calls.drop_last());
            match calls.last() {
                Call::Next => {
                    assert(before.advanced().minimum_vruntime == before.minimum_vruntime);
                },
                Call::Stop(reason) => before.lemma_minimum_vruntime_grows(reason),
            }
        }
    }
}

} // verus!
