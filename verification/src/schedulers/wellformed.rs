//! Why the operations of a scheduler keep its invariant.

use crate::scheduler::{group_pid, ProcessState, StopReason, Syscall};
use crate::schedulers::order::Order;
use crate::schedulers::pcb::PCB;
use crate::schedulers::queue::{
    aged, can_age, first_sleeper, lemma_first_sleeper, lemma_released, lemma_retained,
    lemma_within, released, retained, sound, Wake,
};
use crate::schedulers::state::{least_vruntime, Policy, State};
use vstd::prelude::*;

verus! {

/// The queue after time has passed holds the aged forms of the processes of
/// the queue, and no others.
pub proof fn lemma_aged(queue: Seq<PCB>, units: int)
    ensures
        aged(queue, units).len() == queue.len(),
        forall|p: PCB| #[trigger]
            aged(queue, units).contains(p) ==> exists|q: PCB| #[trigger]
                queue.contains(q) && p == q.aged(units),
        forall|q: PCB| #[trigger] queue.contains(q) ==> aged(queue, units).contains(q.aged(units)),
{
    let out = aged(queue, units);
    assert forall|p: PCB| #[trigger] out.contains(p) implies exists|q: PCB| #[trigger]
        queue.contains(q) && p == q.aged(units) by {
        let i = choose|i: int| 0 <= i < out.len() && out[i] == p;
        assert(queue.contains(queue[i]));
    }
    assert forall|q: PCB| #[trigger] queue.contains(q) implies out.contains(q.aged(units)) by {
        let i = choose|i: int| 0 <= i < queue.len() && queue[i] == q;
        assert(out[i] == q.aged(units));
    }
}

/// Two queues one after the other hold the processes of both, and no others.
pub proof fn lemma_joined(front: Seq<PCB>, back: Seq<PCB>)
    ensures
        forall|p: PCB| #[trigger]
            (front + back).contains(p) <==> front.contains(p) || back.contains(p),
{
    let both = front + back;
    assert forall|p: PCB| #[trigger] both.contains(p) <==> front.contains(p) || back.contains(
        p,
    ) by {
        if both.contains(p) {
            let i = choose|i: int| 0 <= i < both.len() && both[i] == p;
            if i < front.len() {
                assert(front[i] == p);
            } else {
                assert(back[i - front.len()] == p);
            }
        }
        if front.contains(p) {
            let i = choose|i: int| 0 <= i < front.len() && front[i] == p;
            assert(both[i] == p);
        }
        if back.contains(p) {
            let i = choose|i: int| 0 <= i < back.len() && back[i] == p;
            assert(both[front.len() + i] == p);
        }
    }
}

/// A queue with one more process at its end holds that process and those of
/// the queue, and no others.
pub proof fn lemma_pushed(queue: Seq<PCB>, pcb: PCB)
    ensures
        forall|p: PCB| #[trigger] queue.push(pcb).contains(p) <==> p == pcb || queue.contains(p),
{
    assert(queue.push(pcb) =~= queue + seq![pcb]);
    lemma_joined(queue, seq![pcb]);
    assert forall|p: PCB| #[trigger] seq![pcb].contains(p) <==> p == pcb by {
        if p == pcb {
            assert(seq![pcb][0] == p);
        }
    }
}

/// The lowest virtual runtime is that of `floor` or of a process of the
/// queue, and none of them is below it.
pub proof fn lemma_least_vruntime(queue: Seq<PCB>, floor: usize)
    ensures
        least_vruntime(queue, floor) <= floor,
        forall|p: PCB| #[trigger] queue.contains(p) ==> least_vruntime(queue, floor) <= p.fair_time(),
        least_vruntime(queue, floor) == floor || exists|p: PCB| #[trigger]
            queue.contains(p) && least_vruntime(queue, floor) == p.fair_time(),
    decreases queue.len(),
{
    if queue.len() > 0 {
        let front = queue.drop_last();
        lemma_least_vruntime(front, floor);
        assert(queue =~= front.push(queue.last()));
        lemma_pushed(front, queue.last());
        if least_vruntime(queue, floor) != floor {
            if least_vruntime(queue, floor) == queue.last().fair_time() {
                assert(queue.contains(queue.last()));
            } else {
                let p = choose|p: PCB| #[trigger]
                    front.contains(p) && least_vruntime(front, floor) == p.fair_time();
                assert(queue.contains(p));
            }
        }
    }
}

impl State {
    /// Ready processes stay what they are while time passes.
    pub proof fn lemma_aged_ready(self, queue: Seq<PCB>, units: int)
        requires
            self.ready_ok(queue),
            can_age(queue, units),
            0 <= units,
        ensures
            self.ready_ok(aged(queue, units)),
    {
        lemma_aged(queue, units);
        assert forall|p: PCB| #[trigger] aged(queue, units).contains(p) implies p.state
            == ProcessState::Ready && self.holds(p) by {
            let q = choose|q: PCB| #[trigger] queue.contains(q) && p == q.aged(units);
            let i = choose|i: int| 0 <= i < queue.len() && queue[i] == q;
            assert(queue[i].can_age(units));
        }
    }

    /// Waiting processes stay what they are while time passes, though a
    /// sleeping one may have overslept.
    pub proof fn lemma_aged_waiting(self, queue: Seq<PCB>, units: int)
        requires
            self.waiting_ok(queue),
            forall|p: PCB| #[trigger] queue.contains(p) && p.is_sleeping() ==> p.sleep >= 0,
            can_age(queue, units),
            0 <= units <= usize::MAX,
        ensures
            self.waiting_ok(aged(queue, units)),
    {
        lemma_aged(queue, units);
        assert forall|p: PCB| #[trigger] aged(queue, units).contains(p) implies p.state is Waiting
            && self.holds(p) by {
            let q = choose|q: PCB| #[trigger] queue.contains(q) && p == q.aged(units);
            let i = choose|i: int| 0 <= i < queue.len() && queue[i] == q;
            assert(queue[i].can_age(units));
        }
    }

    /// The processes that are woken up are ready, those that are not go on
    /// waiting, and after those whose sleep is over have been woken up, the
    /// sleeping ones have time left to sleep.
    pub proof fn lemma_released_ok(self, queue: Seq<PCB>, wake: Wake)
        requires
            self.waiting_ok(queue),
        ensures
            self.ready_ok(released(queue, wake)),
            self.waiting_ok(retained(queue, wake)),
            wake == Wake::Due ==> Self::asleep(retained(queue, wake)),
    {
        lemma_released(queue, wake);
        lemma_retained(queue, wake);
        assert forall|p: PCB| #[trigger] released(queue, wake).contains(p) implies p.state
            == ProcessState::Ready && self.holds(p) by {
            let q = choose|q: PCB| #[trigger]
                queue.contains(q) && wake.concerns(q) && p == q.readied();
        }
    }

    /// Ready queues one after the other are a ready queue.
    pub proof fn lemma_joined_ready(self, front: Seq<PCB>, back: Seq<PCB>)
        requires
            self.ready_ok(front),
            self.ready_ok(back),
        ensures
            self.ready_ok(front + back),
    {
        lemma_joined(front, back);
    }

    /// The ready queue in the order of the policy is a ready queue of the
    /// same length.
    pub proof fn lemma_arranged_ok(self, queue: Seq<PCB>)
        requires
            self.ready_ok(queue),
        ensures
            self.ready_ok(self.arranged(queue)),
            self.arranged(queue).len() == queue.len(),
    {
        Order::Priority.lemma_sorted_holds(queue);
        Order::Fair.lemma_sorted_holds(queue);
    }

    /// What time and wake-ups leave of the queues of a scheduler are a ready
    /// queue and a waiting queue in which the sleeping processes have time
    /// left to sleep.
    pub proof fn lemma_settled(self, units: int, signal: Option<usize>)
        requires
            self.inv(),
            0 <= units <= usize::MAX,
            can_age(self.ready, units),
            can_age(self.waiting, units),
        ensures
            self.ready_ok(self.settled(units, signal).ready),
            self.waiting_ok(self.settled(units, signal).waiting),
            Self::asleep(self.settled(units, signal).waiting),
    {
        let ready = aged(self.ready, units);
        let waiting = aged(self.waiting, units);
        self.lemma_aged_ready(self.ready, units);
        self.lemma_aged_waiting(self.waiting, units);
        self.lemma_released_ok(waiting, Wake::Due);
        self.lemma_joined_ready(ready, released(waiting, Wake::Due));
        if let Some(event) = signal {
            let wake = Wake::Signal(event);
            let rest = retained(waiting, Wake::Due);
            self.lemma_released_ok(rest, wake);
            self.lemma_joined_ready(ready + released(waiting, Wake::Due), released(rest, wake));
            lemma_retained(rest, wake);
        }
    }

    /// What this scheduler can hold, `other` can hold too if it has the same
    /// policy, has given out at least the same PIDs, and has recorded the
    /// same lowest virtual runtime or one that is not above that of any
    /// process of the queue.
    pub proof fn lemma_reframed(self, other: State, queue: Seq<PCB>)
        requires
            other.policy == self.policy,
            other.next_pid >= self.next_pid,
            other.minimum_vruntime == self.minimum_vruntime || forall|p: PCB| #[trigger]
                queue.contains(p) ==> other.minimum_vruntime <= p.fair_time(),
        ensures
            self.ready_ok(queue) ==> other.ready_ok(queue),
            self.waiting_ok(queue) ==> other.waiting_ok(queue),
    {
    }

    /// A process that goes back to the ready queue of a scheduler whose
    /// queues are in order leaves them in order.
    pub proof fn lemma_rescheduled(self, remaining: usize, pcb: PCB)
        requires
            self.ready_ok(self.ready),
            pcb.state == ProcessState::Ready,
            self.holds(pcb),
        ensures
            self.ready_ok(self.rescheduled(remaining, pcb).ready),
            self.rescheduled(remaining, pcb).ready.len() == self.ready.len() + 1,
    {
        lemma_pushed(self.ready, pcb);
        lemma_joined(seq![pcb], self.ready);
        assert forall|p: PCB| #[trigger] seq![pcb].contains(p) implies p == pcb by {}
        self.lemma_arranged_ok(seq![pcb] + self.ready);
        self.lemma_arranged_ok(self.ready.push(pcb));
    }

    /// A stop that the scheduler can take keeps its invariant.
    pub proof fn lemma_stopped_inv(self, reason: StopReason)
        requires
            self.inv(),
            self.admits(reason),
        ensures
            self.stopped(reason).inv(),
    {
        broadcast use group_pid;

        match (self.current, reason) {
            (None, StopReason::Syscall { syscall: Syscall::Fork(priority), .. }) => {
                if self.next_pid == 1 {
                    lemma_pushed(self.ready, self.child(priority, self.minimum_vruntime));
                    assert(self.waiting =~= Seq::empty());
                    assert(self.ready =~= Seq::empty());
                }
            },
            (None, _) => {},
            (Some(pcb), StopReason::Expired) => {
                self.lemma_preempted_inv(pcb);
            },
            (Some(pcb), StopReason::Syscall { syscall, remaining }) => match syscall {
                Syscall::Fork(priority) => self.lemma_forked_inv(pcb, priority, remaining),
                Syscall::Sleep(amount) => self.lemma_suspended_inv(pcb, None, amount, remaining),
                Syscall::Wait(event) => self.lemma_suspended_inv(pcb, Some(event), 0, remaining),
                Syscall::Signal(event) => self.lemma_signalled_inv(pcb, event, remaining),
                Syscall::Exit => self.lemma_exited_inv(pcb, remaining),
            },
        }
    }

    /// The end of a quantum keeps the invariant.
    pub proof fn lemma_preempted_inv(self, pcb: PCB)
        requires
            self.inv(),
            self.current == Some(pcb),
            self.admits(StopReason::Expired),
        ensures
            self.preempted(pcb).inv(),
    {
        let units = self.remaining as int;
        let after = self.preempted(pcb);
        let ready = aged(self.ready, units);
        let waiting = aged(self.waiting, units);
        let back = pcb.billed(units, 0).readied();
        self.lemma_aged_ready(self.ready, units);
        self.lemma_aged_waiting(self.waiting, units);
        lemma_pushed(ready, back);
        self.lemma_released_ok(waiting, Wake::Due);
        self.lemma_joined_ready(ready.push(back), released(waiting, Wake::Due));
        self.lemma_arranged_ok(ready.push(back) + released(waiting, Wake::Due));
        self.lemma_reframed(after, after.ready);
        self.lemma_reframed(after, after.waiting);
    }

    /// A fork by the running process keeps the invariant.
    pub proof fn lemma_forked_inv(self, pcb: PCB, priority: i8, remaining: usize)
        requires
            self.inv(),
            self.current == Some(pcb),
            self.admits(StopReason::Syscall { syscall: Syscall::Fork(priority), remaining }),
        ensures
            self.forked(pcb, priority, remaining).inv(),
    {
        broadcast use group_pid;

        let units = self.remaining - remaining;
        let parent = pcb.billed(units, 1);
        let settled = self.settled(units, None);
        self.lemma_settled(units, None);
        let floor = if self.policy == Policy::Fair {
            least_vruntime(settled.waiting, least_vruntime(settled.ready, parent.fair_time()))
        } else {
            self.minimum_vruntime
        };
        lemma_least_vruntime(settled.ready, parent.fair_time());
        lemma_least_vruntime(settled.waiting, least_vruntime(settled.ready, parent.fair_time()));
        let child = self.child(priority, floor);
        let ready = settled.ready.push(child);
        let before = State {
            ready,
            next_pid: (self.next_pid + 1) as usize,
            timeslice: self.quantum(ready.len() + 1),
            minimum_vruntime: floor,
            ..settled
        };
        let after = before.rescheduled(remaining, parent.readied());
        assert(after == self.forked(pcb, priority, remaining));
        self.lemma_reframed(before, settled.ready);
        self.lemma_reframed(before, settled.waiting);
        lemma_pushed(settled.ready, child);
        assert(before.holds(child));
        assert(before.holds(parent.readied()));
        before.lemma_rescheduled(remaining, parent.readied());
        before.lemma_reframed(after, after.ready);
        before.lemma_reframed(after, after.waiting);
    }

    /// A process that begins to sleep or to wait for an event keeps the
    /// invariant.
    pub proof fn lemma_suspended_inv(
        self,
        pcb: PCB,
        event: Option<usize>,
        amount: usize,
        remaining: usize,
    )
        requires
            self.inv(),
            self.current == Some(pcb),
            self.admits(
                StopReason::Syscall {
                    syscall: if event is Some {
                        Syscall::Wait(event->0)
                    } else {
                        Syscall::Sleep(amount)
                    },
                    remaining,
                },
            ),
        ensures
            self.suspended(pcb, event, amount, remaining).inv(),
    {
        let units = self.remaining - remaining;
        let settled = self.settled(units, None);
        let after = self.suspended(pcb, event, amount, remaining);
        self.lemma_settled(units, None);
        self.lemma_arranged_ok(settled.ready);
        let waiter = after.waiting.last();
        lemma_pushed(settled.waiting, waiter);
        self.lemma_reframed(after, after.ready);
        self.lemma_reframed(after, settled.waiting);
        assert(after.holds(waiter));
    }

    /// A signal by the running process keeps the invariant.
    pub proof fn lemma_signalled_inv(self, pcb: PCB, event: usize, remaining: usize)
        requires
            self.inv(),
            self.current == Some(pcb),
            self.admits(StopReason::Syscall { syscall: Syscall::Signal(event), remaining }),
        ensures
            self.signalled(pcb, event, remaining).inv(),
    {
        let units = self.remaining - remaining;
        let settled = self.settled(units, Some(event));
        self.lemma_settled(units, Some(event));
        let timeslice = self.quantum(settled.ready.len() + 1);
        let before = State { timeslice, ..settled };
        let back = pcb.billed(units, 1).readied();
        let after = before.rescheduled(remaining, back);
        self.lemma_reframed(before, settled.ready);
        self.lemma_reframed(before, settled.waiting);
        before.lemma_rescheduled(remaining, back);
        before.lemma_reframed(after, after.ready);
        before.lemma_reframed(after, after.waiting);
    }

    /// The exit of the running process keeps the invariant.
    pub proof fn lemma_exited_inv(self, pcb: PCB, remaining: usize)
        requires
            self.inv(),
            self.current == Some(pcb),
            self.admits(StopReason::Syscall { syscall: Syscall::Exit, remaining }),
        ensures
            self.exited(pcb, remaining).inv(),
    {
        let units = self.remaining - remaining;
        let settled = self.settled(units, None);
        let after = self.exited(pcb, remaining);
        self.lemma_settled(units, None);
        self.lemma_arranged_ok(settled.ready);
        self.lemma_reframed(after, after.ready);
        self.lemma_reframed(after, after.waiting);
    }

    /// When the next action is chosen, the queues are a ready queue and a
    /// waiting queue in which the sleeping processes have time left to
    /// sleep; and if a sleep had been decided, it has made a process ready.
    pub proof fn lemma_awake(self)
        requires
            self.inv(),
            self.advances(),
            !self.panic,
        ensures
            self.ready_ok(self.awake().ready),
            self.waiting_ok(self.awake().waiting),
            Self::asleep(self.awake().waiting),
            self.sleep > 0 ==> self.awake().ready.len() > 0,
    {
        let units = self.sleep as int;
        let sorted = Order::Sleep.sorted(self.waiting);
        Order::Sleep.lemma_sorted_holds(self.waiting);
        lemma_within(sorted, self.waiting, units);
        self.lemma_aged_waiting(sorted, units);
        let waiting = aged(sorted, units);
        self.lemma_released_ok(waiting, Wake::Due);
        self.lemma_joined_ready(self.ready, released(waiting, Wake::Due));
        if self.sleep > 0 {
            let p = choose|p: PCB| #[trigger]
                self.waiting.contains(p) && p.is_sleeping() && p.sleep <= self.sleep;
            assert(sorted.contains(p));
            lemma_aged(sorted, units);
            assert(waiting.contains(p.aged(units)));
            lemma_released(waiting, Wake::Due);
            assert(Wake::Due.concerns(p.aged(units)));
            assert(released(waiting, Wake::Due).contains(p.aged(units).readied()));
        }
    }

    /// The choice of the next action keeps the invariant.
    pub proof fn lemma_advanced_inv(self)
        requires
            self.inv(),
            self.advances(),
        ensures
            self.advanced().inv(),
    {
        if !self.panic {
            self.lemma_awake();
            let awake = self.awake();
            let after = self.advanced();
            lemma_first_sleeper(awake.waiting);
            self.lemma_reframed(awake, awake.ready);
            self.lemma_reframed(awake, awake.waiting);
            if awake.is_idle() {
                let at = first_sleeper(awake.waiting);
                if at < awake.waiting.len() {
                    assert(awake.waiting.contains(awake.waiting[at]));
                }
            } else if awake.ready.len() > 0 {
                assert(awake.ready.contains(awake.ready[0]));
                assert forall|p: PCB| #[trigger] after.ready.contains(p) implies awake.ready.contains(
                    p,
                ) by {
                    let i = choose|i: int| 0 <= i < after.ready.len() && after.ready[i] == p;
                    assert(awake.ready[i + 1] == p);
                }
            }
            if self.next_pid == 1 {
                assert(awake.ready.len() > 0 ==> awake.ready.contains(awake.ready[0]));
                assert(awake.waiting.len() > 0 ==> awake.waiting.contains(awake.waiting[0]));
            }
        }
    }

    /// A scheduler does not ask for a sleep twice in a row.
    pub proof fn lemma_sleep_once(self)
        requires
            self.inv(),
            self.advances(),
            self.decision() is Sleep,
        ensures
            !(self.advanced().decision() is Sleep),
    {
        self.lemma_awake();
        self.lemma_advanced_inv();
        let awake = self.awake();
        lemma_first_sleeper(awake.waiting);
        let at = first_sleeper(awake.waiting);
        assert(awake.waiting.contains(awake.waiting[at]));
        assert(self.advanced().sleep > 0);
        self.advanced().lemma_sleep_wakes();
    }

    /// After a sleep has been decided, the next choice finds a process
    /// ready.
    pub proof fn lemma_sleep_wakes(self)
        requires
            self.inv(),
            self.sleep > 0,
            !self.panic,
        ensures
            self.awake().ready.len() > 0,
    {
        let units = self.sleep as int;
        let sorted = Order::Sleep.sorted(self.waiting);
        Order::Sleep.lemma_sorted_holds(self.waiting);
        let waiting = aged(sorted, units);
        let p = choose|p: PCB| #[trigger]
            self.waiting.contains(p) && p.is_sleeping() && p.sleep <= self.sleep;
        assert(sorted.contains(p));
        lemma_aged(sorted, units);
        assert(waiting.contains(p.aged(units)));
        lemma_released(waiting, Wake::Due);
        assert(Wake::Due.concerns(p.aged(units)));
        assert(released(waiting, Wake::Due).contains(p.aged(units).readied()));
    }

    /// The processes in the queues of a scheduler are sound.
    pub proof fn lemma_queues_sound(self)
        requires
            self.inv(),
        ensures
            sound(self.ready),
            sound(self.waiting),
    {
        assert forall|i: int| 0 <= i < self.ready.len() implies (#[trigger] self.ready[i]).sound() by {
            assert(self.ready.contains(self.ready[i]));
        }
        assert forall|i: int| 0 <= i < self.waiting.len() implies (#[trigger] self.waiting[i]).sound() by {
            assert(self.waiting.contains(self.waiting[i]));
        }
    }

    /// Waking up the processes whose sleep is over keeps the invariant.
    pub proof fn lemma_woken_inv(self)
        requires
            self.inv(),
        ensures
            self.woken().inv(),
    {
        let after = self.woken();
        self.lemma_released_ok(self.waiting, Wake::Due);
        self.lemma_joined_ready(self.ready, released(self.waiting, Wake::Due));
        lemma_released(self.waiting, Wake::Due);
        lemma_retained(self.waiting, Wake::Due);
        self.lemma_reframed(after, after.ready);
        self.lemma_reframed(after, after.waiting);
        if self.sleep > 0 {
            let woken = released(self.waiting, Wake::Due);
            if woken.len() > 0 {
                assert(woken.contains(woken[0]));
            }
            let p = choose|p: PCB| #[trigger]
                self.waiting.contains(p) && p.is_sleeping() && p.sleep <= self.sleep;
            assert(after.waiting.contains(p));
        }
    }

    /// No operation changes the policy of a scheduler, or what a process
    /// must have left of its quantum to go on with it.
    pub proof fn lemma_policy_kept(self, reason: StopReason)
        ensures
            self.stopped(reason).policy == self.policy,
            self.advanced().policy == self.policy,
            self.stopped(reason).minimum_remaining_timeslice == self.minimum_remaining_timeslice,
            self.advanced().minimum_remaining_timeslice == self.minimum_remaining_timeslice,
            self.stopped(reason).cpu_time == self.cpu_time,
            self.advanced().cpu_time == self.cpu_time,
    {
    }
}

} // verus!
