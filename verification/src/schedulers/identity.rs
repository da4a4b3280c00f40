//! Why no two processes of a scheduler have the same PID.

use crate::scheduler::{group_pid, StopReason, Syscall};
use crate::schedulers::laws::Call;
use crate::schedulers::order::Order;
use crate::schedulers::pcb::PCB;
use crate::schedulers::queue::{aged, lemma_released, lemma_retained, released, retained, Wake};
use crate::schedulers::state::{Policy, State};
use crate::schedulers::wellformed::lemma_pushed;
use vstd::prelude::*;

verus! {

/// No two processes of `queue` have the same PID.
pub open spec fn distinct(queue: Seq<PCB>) -> bool {
    forall|i: int, j: int|
        0 <= i < j < queue.len() ==> (#[trigger] queue[i]).pid != (#[trigger] queue[j]).pid
}

/// No process of `first` has the PID of a process of `second`.
pub open spec fn apart(first: Seq<PCB>, second: Seq<PCB>) -> bool {
    forall|i: int, j: int|
        0 <= i < first.len() && 0 <= j < second.len() ==> (#[trigger] first[i]).pid != (
        #[trigger] second[j]).pid
}

/// Every process of `inner` has the PID of a process of `outer`.
#[verifier::opaque]
pub open spec fn among(inner: Seq<PCB>, outer: Seq<PCB>) -> bool {
    forall|i: int|
        0 <= i < inner.len() ==> exists|j: int|
            0 <= j < outer.len() && (#[trigger] inner[i]).pid == (#[trigger] outer[j]).pid
}

/// The PIDs of a queue are among its own.
pub proof fn lemma_among_self(queue: Seq<PCB>)
    ensures
        among(queue, queue),
{
    assert forall|p: PCB| #[trigger] queue.contains(p) implies exists|q: PCB| #[trigger]
        queue.contains(q) && q.pid == p.pid by {
        assert(queue.contains(p) && p.pid == p.pid);
    }
    lemma_among_held(queue, queue);
}

/// Queues whose PIDs are among those of queues that are apart are apart.
pub proof fn lemma_apart_among(inner: Seq<PCB>, first: Seq<PCB>, other: Seq<PCB>, second: Seq<PCB>)
    requires
        apart(first, second),
        among(inner, first),
        among(other, second),
    ensures
        apart(inner, other),
{
    reveal(among);
    assert forall|i: int, j: int| 0 <= i < inner.len() && 0 <= j < other.len() implies (
    #[trigger] inner[i]).pid != (#[trigger] other[j]).pid by {
        let a = choose|a: int| 0 <= a < first.len() && inner[i].pid == (#[trigger] first[a]).pid;
        let b = choose|b: int| 0 <= b < second.len() && other[j].pid == (#[trigger] second[b]).pid;
        assert(first[a].pid != second[b].pid);
    }
}

/// A queue whose PIDs are among those of a second has them among those of a
/// third that holds those of the second.
pub proof fn lemma_among_on(inner: Seq<PCB>, middle: Seq<PCB>, outer: Seq<PCB>)
    requires
        among(inner, middle),
        among(middle, outer),
    ensures
        among(inner, outer),
{
    reveal(among);
    assert forall|i: int| 0 <= i < inner.len() implies exists|j: int|
        0 <= j < outer.len() && (#[trigger] inner[i]).pid == (#[trigger] outer[j]).pid by {
        let m = choose|m: int| 0 <= m < middle.len() && inner[i].pid == (#[trigger] middle[m]).pid;
        let j = choose|j: int| 0 <= j < outer.len() && middle[m].pid == (#[trigger] outer[j]).pid;
        assert(inner[i].pid == outer[j].pid);
    }
}

/// Two queues one after the other have distinct PIDs exactly if each has
/// and they are apart; and their PIDs are among those of a queue that holds
/// the PIDs of both.
pub proof fn lemma_distinct_joined(first: Seq<PCB>, second: Seq<PCB>, outer: Seq<PCB>)
    ensures
        distinct(first + second) <==> distinct(first) && distinct(second) && apart(first, second),
        among(first, outer) && among(second, outer) ==> among(first + second, outer),
        among(first, first + second),
        among(second, first + second),
{
    reveal(among);
    let both = first + second;
    if distinct(both) {
        assert forall|i: int, j: int| 0 <= i < j < first.len() implies (#[trigger] first[i]).pid != (
        #[trigger] first[j]).pid by {
            assert(both[i] == first[i] && both[j] == first[j]);
        }
        assert forall|i: int, j: int| 0 <= i < j < second.len() implies (#[trigger] second[i]).pid
            != (#[trigger] second[j]).pid by {
            assert(both[first.len() + i] == second[i] && both[first.len() + j] == second[j]);
        }
        assert forall|i: int, j: int| 0 <= i < first.len() && 0 <= j < second.len() implies (
        #[trigger] first[i]).pid != (#[trigger] second[j]).pid by {
            assert(both[i] == first[i] && both[first.len() + j] == second[j]);
        }
    }
    if distinct(first) && distinct(second) && apart(first, second) {
        assert forall|i: int, j: int| 0 <= i < j < both.len() implies (#[trigger] both[i]).pid != (
        #[trigger] both[j]).pid by {
            if j < first.len() {
                assert(both[i] == first[i] && both[j] == first[j]);
            } else if i >= first.len() {
                assert(both[i] == second[i - first.len()] && both[j] == second[j - first.len()]);
            } else {
                assert(both[i] == first[i] && both[j] == second[j - first.len()]);
            }
        }
    }
    if among(first, outer) && among(second, outer) {
        assert forall|i: int| 0 <= i < both.len() implies exists|j: int|
            0 <= j < outer.len() && (#[trigger] both[i]).pid == (#[trigger] outer[j]).pid by {
            if i < first.len() {
                assert(both[i] == first[i]);
                let j = choose|j: int|
                    0 <= j < outer.len() && first[i].pid == (#[trigger] outer[j]).pid;
                assert(both[i].pid == outer[j].pid);
            } else {
                assert(both[i] == second[i - first.len()]);
                let j = choose|j: int|
                    0 <= j < outer.len() && second[i - first.len()].pid == (#[trigger] outer[j]).pid;
                assert(both[i].pid == outer[j].pid);
            }
        }
    }
    assert forall|i: int| 0 <= i < first.len() implies exists|j: int|
        0 <= j < both.len() && (#[trigger] first[i]).pid == (#[trigger] both[j]).pid by {
        assert(first[i].pid == both[i].pid);
    }
    assert forall|i: int| 0 <= i < second.len() implies exists|j: int|
        0 <= j < both.len() && (#[trigger] second[i]).pid == (#[trigger] both[j]).pid by {
        assert(second[i].pid == both[first.len() + i].pid);
    }
}

/// A queue whose processes are all processes of another, in another state
/// maybe, has its PIDs among those of the other.
pub proof fn lemma_among_held(inner: Seq<PCB>, outer: Seq<PCB>)
    requires
        forall|p: PCB| #[trigger]
            inner.contains(p) ==> exists|q: PCB| #[trigger] outer.contains(q) && q.pid == p.pid,
    ensures
        among(inner, outer),
{
    reveal(among);
    assert forall|i: int| 0 <= i < inner.len() implies exists|j: int|
        0 <= j < outer.len() && (#[trigger] inner[i]).pid == (#[trigger] outer[j]).pid by {
        assert(inner.contains(inner[i]));
        let q = choose|q: PCB| #[trigger] outer.contains(q) && q.pid == inner[i].pid;
        let j = choose|j: int| 0 <= j < outer.len() && outer[j] == q;
        assert(inner[i].pid == outer[j].pid);
    }
}

/// Time changes no PID: the queue after time has passed has the PIDs of the
/// queue, distinct if those are.
pub proof fn lemma_distinct_aged(queue: Seq<PCB>, units: int)
    ensures
        among(aged(queue, units), queue),
        distinct(queue) ==> distinct(aged(queue, units)),
{
    reveal(among);
    let out = aged(queue, units);
    assert forall|i: int| 0 <= i < out.len() implies exists|j: int|
        0 <= j < queue.len() && (#[trigger] out[i]).pid == (#[trigger] queue[j]).pid by {
        assert(out[i].pid == queue[i].pid);
    }
    if distinct(queue) {
        assert forall|i: int, j: int| 0 <= i < j < out.len() implies (#[trigger] out[i]).pid != (
        #[trigger] out[j]).pid by {
            assert(queue[i].pid != queue[j].pid);
        }
    }
}

/// The processes that are woken up and those that are not have the PIDs of
/// the queue that they waited in between them: distinct PIDs if those of the
/// queue are, and none in common.
pub proof fn lemma_distinct_split(queue: Seq<PCB>, wake: Wake)
    ensures
        among(released(queue, wake), queue),
        among(retained(queue, wake), queue),
        distinct(queue) ==> distinct(released(queue, wake)) && distinct(retained(queue, wake))
            && apart(released(queue, wake), retained(queue, wake)),
    decreases queue.len(),
{
    lemma_released(queue, wake);
    lemma_retained(queue, wake);
    assert forall|p: PCB| #[trigger] released(queue, wake).contains(p) implies exists|q: PCB| #[trigger]
        queue.contains(q) && q.pid == p.pid by {
        let q = choose|q: PCB| #[trigger] queue.contains(q) && wake.concerns(q) && p == q.readied();
        assert(queue.contains(q) && q.pid == p.pid);
    }
    lemma_among_held(released(queue, wake), queue);
    assert forall|p: PCB| #[trigger] retained(queue, wake).contains(p) implies exists|q: PCB| #[trigger]
        queue.contains(q) && q.pid == p.pid by {
        assert(queue.contains(p) && p.pid == p.pid);
    }
    lemma_among_held(retained(queue, wake), queue);
    if queue.len() > 0 && distinct(queue) {
        let front = queue.drop_last();
        let last = queue.last();
        assert(distinct(front) && apart(front, seq![last])) by {
            assert(queue =~= front + seq![last]);
            lemma_distinct_joined(front, seq![last], queue);
        }
        lemma_distinct_split(front, wake);
        let woken = released(front, wake);
        let kept = retained(front, wake);
        lemma_among_self(seq![last]);
        lemma_apart_among(woken, front, seq![last], seq![last]);
        lemma_apart_among(kept, front, seq![last], seq![last]);
        if wake.concerns(last) {
            let one = seq![last.readied()];
            assert(released(queue, wake) =~= woken + one);
            assert(among(one, seq![last])) by {
                reveal(among);
                assert(one[0].pid == seq![last][0].pid);
            }
            lemma_apart_among(woken, front, one, seq![last]);
            lemma_apart_among(kept, front, one, seq![last]);
            lemma_distinct_joined(woken, one, queue);
            assert(apart(woken + one, kept)) by {
                assert forall|i: int, j: int|
                    0 <= i < (woken + one).len() && 0 <= j < kept.len() implies (#[trigger] (woken
                    + one)[i]).pid != (#[trigger] kept[j]).pid by {
                    if i < woken.len() {
                        assert((woken + one)[i] == woken[i]);
                    } else {
                        assert((woken + one)[i] == one[0]);
                        assert(kept[j].pid != one[0].pid);
                    }
                }
            }
        } else {
            let one = seq![last];
            assert(retained(queue, wake) =~= kept + one);
            lemma_distinct_joined(kept, one, queue);
            assert(apart(woken, kept + one)) by {
                assert forall|i: int, j: int|
                    0 <= i < woken.len() && 0 <= j < (kept + one).len() implies (#[trigger] woken[i]).pid
                    != (#[trigger] (kept + one)[j]).pid by {
                    if j < kept.len() {
                        assert((kept + one)[j] == kept[j]);
                    } else {
                        assert((kept + one)[j] == one[0]);
                        assert(woken[i].pid != one[0].pid);
                    }
                }
            }
        }
    }
}

impl Order {
    /// A queue with a process added has the PIDs of the queue and that of
    /// the process: distinct PIDs, if those of the queue are and that of the
    /// process is not among them.
    pub proof fn lemma_distinct_inserted(self, queue: Seq<PCB>, pcb: PCB)
        ensures
            among(self.inserted(queue, pcb), queue.push(pcb)),
            distinct(queue.push(pcb)) ==> distinct(self.inserted(queue, pcb)),
        decreases queue.len(),
    {
        let out = self.inserted(queue, pcb);
        self.lemma_inserted_holds(queue, pcb);
        lemma_pushed(queue, pcb);
        assert forall|p: PCB| #[trigger] out.contains(p) implies exists|q: PCB| #[trigger]
            queue.push(pcb).contains(q) && q.pid == p.pid by {
            assert(queue.push(pcb).contains(p) && p.pid == p.pid);
        }
        lemma_among_held(out, queue.push(pcb));
        if distinct(queue.push(pcb)) && queue.len() > 0 && self.ranks_before(pcb, queue.last()) {
            let front = queue.drop_last();
            let last = queue.last();
            let inner = self.inserted(front, pcb);
            assert(distinct(front.push(pcb))) by {
                assert forall|i: int, j: int| 0 <= i < j < front.push(pcb).len() implies (
                #[trigger] front.push(pcb)[i]).pid != (#[trigger] front.push(pcb)[j]).pid by {
                    let a = queue.push(pcb)[i];
                    let b = queue.push(pcb)[if j == front.len() {
                        queue.len() as int
                    } else {
                        j
                    }];
                    assert(a.pid != b.pid);
                }
            }
            self.lemma_distinct_inserted(front, pcb);
            assert(apart(front.push(pcb), seq![last])) by {
                assert forall|i: int, j: int|
                    0 <= i < front.push(pcb).len() && 0 <= j < 1 implies (#[trigger] front.push(
                    pcb,
                )[i]).pid != (#[trigger] seq![last][j]).pid by {
                    if i < front.len() {
                        assert(queue.push(pcb)[i].pid != queue.push(pcb)[queue.len() - 1].pid);
                    } else {
                        assert(queue.push(pcb)[queue.len() - 1].pid != queue.push(pcb)[
                            queue.len() as int
                        ].pid);
                    }
                }
            }
            lemma_among_self(seq![last]);
            lemma_apart_among(inner, front.push(pcb), seq![last], seq![last]);
            assert(out =~= inner + seq![last]);
            lemma_distinct_joined(inner, seq![last], out);
        }
    }

    /// The sorted queue has the PIDs of the queue: distinct PIDs, if those of
    /// the queue are.
    pub proof fn lemma_distinct_sorted(self, queue: Seq<PCB>)
        ensures
            among(self.sorted(queue), queue),
            distinct(queue) ==> distinct(self.sorted(queue)),
        decreases queue.len(),
    {
        if queue.len() > 0 {
            let front = queue.drop_last();
            let one = seq![queue.last()];
            let sorted = self.sorted(front);
            self.lemma_distinct_sorted(front);
            self.lemma_distinct_inserted(sorted, queue.last());
            assert(queue =~= front + one);
            assert(sorted.push(queue.last()) =~= sorted + one);
            lemma_distinct_joined(front, one, queue);
            lemma_among_self(one);
            lemma_among_on(sorted, front, queue);
            lemma_distinct_joined(sorted, one, queue);
            lemma_among_on(self.sorted(queue), sorted + one, queue);
            if distinct(queue) {
                lemma_apart_among(sorted, front, one, one);
            }
        } else {
            lemma_among_self(queue);
        }
    }
}

/// A queue is apart from two queues one after the other exactly if it is
/// apart from each.
pub proof fn lemma_apart_joined(first: Seq<PCB>, second: Seq<PCB>, other: Seq<PCB>)
    ensures
        apart(first + second, other) <==> apart(first, other) && apart(second, other),
        apart(other, first + second) <==> apart(other, first) && apart(other, second),
{
    let both = first + second;
    if apart(both, other) {
        assert forall|i: int, j: int| 0 <= i < first.len() && 0 <= j < other.len() implies (
        #[trigger] first[i]).pid != (#[trigger] other[j]).pid by {
            assert(both[i] == first[i]);
        }
        assert forall|i: int, j: int| 0 <= i < second.len() && 0 <= j < other.len() implies (
        #[trigger] second[i]).pid != (#[trigger] other[j]).pid by {
            assert(both[first.len() + i] == second[i]);
        }
    }
    if apart(first, other) && apart(second, other) {
        assert forall|i: int, j: int| 0 <= i < both.len() && 0 <= j < other.len() implies (
        #[trigger] both[i]).pid != (#[trigger] other[j]).pid by {
            if i < first.len() {
                assert(both[i] == first[i]);
            } else {
                assert(both[i] == second[i - first.len()]);
            }
        }
    }
    if apart(other, both) {
        assert forall|i: int, j: int| 0 <= i < other.len() && 0 <= j < first.len() implies (
        #[trigger] other[i]).pid != (#[trigger] first[j]).pid by {
            assert(both[j] == first[j]);
        }
        assert forall|i: int, j: int| 0 <= i < other.len() && 0 <= j < second.len() implies (
        #[trigger] other[i]).pid != (#[trigger] second[j]).pid by {
            assert(both[first.len() + j] == second[j]);
        }
    }
    if apart(other, first) && apart(other, second) {
        assert forall|i: int, j: int| 0 <= i < other.len() && 0 <= j < both.len() implies (
        #[trigger] other[i]).pid != (#[trigger] both[j]).pid by {
            if j < first.len() {
                assert(both[j] == first[j]);
            } else {
                assert(both[j] == second[j - first.len()]);
            }
        }
    }
}

/// Queues are apart whichever of them is named first.
pub proof fn lemma_apart_turned(first: Seq<PCB>, second: Seq<PCB>)
    requires
        apart(first, second),
    ensures
        apart(second, first),
{
    assert forall|i: int, j: int| 0 <= i < second.len() && 0 <= j < first.len() implies (
    #[trigger] second[i]).pid != (#[trigger] first[j]).pid by {
        assert(first[j].pid != second[i].pid);
    }
}

impl State {
    /// No two processes of the scheduler have the same PID.
    pub open spec fn unique(self) -> bool {
        &&& distinct(self.ready)
        &&& distinct(self.waiting)
        &&& apart(self.ready, self.waiting)
        &&& self.current matches Some(pcb) ==> apart(seq![pcb], self.ready) && apart(
            seq![pcb],
            self.waiting,
        )
    }

    /// The PIDs of the processes that the scheduler lists are distinct
    /// exactly if no two of its processes have the same PID.
    pub proof fn lemma_unique_listed(self)
        ensures
            self.unique() <==> distinct(self.processes()),
    {
        let queued = self.ready + self.waiting;
        lemma_distinct_joined(self.ready, self.waiting, queued);
        match self.current {
            Some(pcb) => {
                assert(self.processes() =~= seq![pcb] + queued);
                lemma_distinct_joined(seq![pcb], queued, self.processes());
                lemma_apart_joined(self.ready, self.waiting, seq![pcb]);
                assert(distinct(seq![pcb]));
            },
            None => {},
        }
    }

    /// After time and wake-ups no two processes in the queues have the same
    /// PID, and the PIDs are among those of the processes that were in the
    /// queues before.
    pub proof fn lemma_unique_settled(self, units: int, signal: Option<usize>)
        requires
            self.unique(),
        ensures
            distinct(self.settled(units, signal).ready),
            distinct(self.settled(units, signal).waiting),
            apart(self.settled(units, signal).ready, self.settled(units, signal).waiting),
            among(self.settled(units, signal).ready, self.ready + self.waiting),
            among(self.settled(units, signal).waiting, self.ready + self.waiting),
    {
        let all = self.ready + self.waiting;
        let ready = aged(self.ready, units);
        let waiting = aged(self.waiting, units);
        lemma_distinct_joined(self.ready, self.waiting, all);
        lemma_distinct_aged(self.ready, units);
        lemma_distinct_aged(self.waiting, units);
        lemma_apart_among(ready, self.ready, waiting, self.waiting);
        lemma_among_on(ready, self.ready, all);
        lemma_among_on(waiting, self.waiting, all);
        lemma_distinct_split(waiting, Wake::Due);
        let woken = released(waiting, Wake::Due);
        let kept = retained(waiting, Wake::Due);
        lemma_among_on(woken, waiting, all);
        lemma_among_on(kept, waiting, all);
        lemma_among_self(ready);
        lemma_apart_among(ready, ready, woken, waiting);
        lemma_apart_among(ready, ready, kept, waiting);
        lemma_distinct_joined(ready, woken, all);
        lemma_apart_joined(ready, woken, kept);
        if let Some(event) = signal {
            let wake = Wake::Signal(event);
            lemma_distinct_split(kept, wake);
            let called = released(kept, wake);
            let rest = retained(kept, wake);
            lemma_among_on(called, kept, all);
            lemma_among_on(rest, kept, all);
            lemma_among_self(ready + woken);
            lemma_apart_among(ready + woken, ready + woken, called, kept);
            lemma_apart_among(ready + woken, ready + woken, rest, kept);
            lemma_distinct_joined(ready + woken, called, all);
            lemma_apart_joined(ready + woken, called, rest);
        }
    }

    /// A process with a PID above those of a queue is apart from the queue.
    pub proof fn lemma_apart_above(queue: Seq<PCB>, pcb: PCB)
        requires
            forall|p: PCB| #[trigger] queue.contains(p) ==> p.pid.value() < pcb.pid.value(),
        ensures
            apart(seq![pcb], queue),
            apart(queue, seq![pcb]),
    {
        assert forall|i: int, j: int| 0 <= i < 1 && 0 <= j < queue.len() implies (
        #[trigger] seq![pcb][i]).pid != (#[trigger] queue[j]).pid by {
            assert(queue.contains(queue[j]));
        }
        lemma_apart_turned(seq![pcb], queue);
    }

    /// A queue of one process has the PID of any form of that process.
    pub proof fn lemma_among_one(later: PCB, earlier: PCB)
        requires
            later.pid == earlier.pid,
        ensures
            among(seq![later], seq![earlier]),
            distinct(seq![later]),
    {
        reveal(among);
        assert forall|i: int| 0 <= i < 1 implies exists|j: int|
            0 <= j < 1 && (#[trigger] seq![later][i]).pid == (#[trigger] seq![earlier][j]).pid by {
            assert(seq![later][0].pid == seq![earlier][0].pid);
        }
    }

    /// The ready queue in the order of the policy has the PIDs of the ready
    /// queue: distinct PIDs, if those of the ready queue are.
    pub proof fn lemma_distinct_arranged(self, ready: Seq<PCB>)
        ensures
            among(self.arranged(ready), ready),
            distinct(ready) ==> distinct(self.arranged(ready)),
    {
        Order::Priority.lemma_distinct_sorted(ready);
        Order::Fair.lemma_distinct_sorted(ready);
        lemma_among_self(ready);
    }

    /// The ready queue in the order of the policy, with another process in
    /// it, and a waiting queue make the queues of a scheduler in which no
    /// two processes have the same PID, if the queues were such and the
    /// process is apart from both.
    pub proof fn lemma_unique_with(
        self,
        ready: Seq<PCB>,
        pcb: PCB,
        at_front: bool,
        waiting: Seq<PCB>,
    )
        requires
            distinct(ready),
            distinct(waiting),
            apart(ready, waiting),
            apart(seq![pcb], ready),
            apart(seq![pcb], waiting),
        ensures
            distinct(
                self.arranged(
                    if at_front {
                        seq![pcb] + ready
                    } else {
                        ready.push(pcb)
                    },
                ),
            ),
            apart(
                self.arranged(
                    if at_front {
                        seq![pcb] + ready
                    } else {
                        ready.push(pcb)
                    },
                ),
                waiting,
            ),
    {
        let one = seq![pcb];
        let with = if at_front {
            one + ready
        } else {
            ready.push(pcb)
        };
        assert(ready.push(pcb) =~= ready + one);
        Self::lemma_among_one(pcb, pcb);
        lemma_apart_turned(one, ready);
        lemma_distinct_joined(one, ready, with);
        lemma_distinct_joined(ready, one, with);
        lemma_apart_joined(one, ready, waiting);
        lemma_apart_joined(ready, one, waiting);
        self.lemma_distinct_arranged(with);
        lemma_among_self(waiting);
        lemma_apart_among(self.arranged(with), with, waiting, waiting);
    }

    /// A stop leaves no two processes of a scheduler with the same PID.
    pub proof fn lemma_unique_stopped(self, reason: StopReason)
        requires
            self.inv(),
            self.unique(),
            self.admits(reason),
        ensures
            self.stopped(reason).unique(),
    {
        broadcast use group_pid;

        let after = self.stopped(reason);
        let all = self.ready + self.waiting;
        match (self.current, reason) {
            (None, StopReason::Syscall { syscall: Syscall::Fork(priority), .. }) => {
                if self.next_pid == 1 {
                    assert(after.ready =~= seq![self.child(priority, self.minimum_vruntime)]);
                }
            },
            (None, _) => {},
            (Some(pcb), StopReason::Expired) => {
                let units = self.remaining as int;
                let kept = self.settled(units, None).waiting;
                self.lemma_unique_settled(units, None);
                let ready = aged(self.ready, units);
                let woken = released(aged(self.waiting, units), Wake::Due);
                let back = pcb.billed(units, 0).readied();
                lemma_distinct_joined(ready, woken, all);
                lemma_apart_joined(ready, woken, kept);
                lemma_apart_joined(self.ready, self.waiting, seq![pcb]);
                Self::lemma_among_one(back, pcb);
                lemma_apart_among(seq![back], seq![pcb], ready + woken, all);
                lemma_apart_among(seq![back], seq![pcb], kept, all);
                lemma_apart_joined(ready, woken, seq![back]);
                lemma_apart_turned(seq![back], ready);
                lemma_apart_turned(seq![back], woken);
                assert(ready.push(back) =~= ready + seq![back]);
                lemma_distinct_joined(ready, seq![back], all);
                lemma_apart_joined(ready, seq![back], woken);
                lemma_distinct_joined(ready + seq![back], woken, all);
                lemma_apart_joined(ready, seq![back], kept);
                lemma_apart_joined(ready + seq![back], woken, kept);
                self.lemma_distinct_arranged(ready + seq![back] + woken);
                lemma_among_self(kept);
                lemma_apart_among(after.ready, ready + seq![back] + woken, kept, kept);
            },
            (Some(pcb), StopReason::Syscall { syscall, remaining }) => {
                let units = self.remaining - remaining;
                let signal = match syscall {
                    Syscall::Signal(event) => Some(event),
                    _ => None,
                };
                let settled = self.settled(units, signal);
                self.lemma_unique_settled(units, signal);
                self.lemma_settled(units, signal);
                let me = pcb.billed(units, 1);
                lemma_apart_joined(self.ready, self.waiting, seq![pcb]);
                Self::lemma_among_one(me.readied(), pcb);
                lemma_apart_among(seq![me.readied()], seq![pcb], settled.ready, all);
                lemma_apart_among(seq![me.readied()], seq![pcb], settled.waiting, all);
                match syscall {
                    Syscall::Fork(priority) => {
                        let child = self.child(priority, after.minimum_vruntime);
                        Self::lemma_apart_above(settled.ready, child);
                        Self::lemma_apart_above(settled.waiting, child);
                        Self::lemma_apart_above(seq![me.readied()], child);
                        let ready = settled.ready.push(child);
                        assert(ready =~= settled.ready + seq![child]);
                        Self::lemma_among_one(child, child);
                        lemma_distinct_joined(settled.ready, seq![child], ready);
                        lemma_apart_joined(settled.ready, seq![child], settled.waiting);
                        lemma_apart_joined(settled.ready, seq![child], seq![me.readied()]);
                        let before = State { ready, ..settled };
                        before.lemma_unique_with(
                            ready,
                            me.readied(),
                            remaining >= self.minimum_remaining_timeslice,
                            settled.waiting,
                        );
                    },
                    Syscall::Sleep(_) | Syscall::Wait(_) => {
                        let waiter = after.waiting.last();
                        Self::lemma_among_one(waiter, pcb);
                        lemma_apart_among(seq![waiter], seq![pcb], settled.ready, all);
                        lemma_apart_among(seq![waiter], seq![pcb], settled.waiting, all);
                        lemma_apart_turned(seq![waiter], settled.waiting);
                        lemma_apart_turned(seq![waiter], settled.ready);
                        assert(after.waiting =~= settled.waiting + seq![waiter]);
                        lemma_distinct_joined(settled.waiting, seq![waiter], after.waiting);
                        lemma_apart_joined(settled.waiting, seq![waiter], settled.ready);
                        self.lemma_distinct_arranged(settled.ready);
                        lemma_among_self(after.waiting);
                        lemma_apart_among(
                            after.ready,
                            settled.ready,
                            after.waiting,
                            after.waiting,
                        );
                    },
                    Syscall::Signal(_) => {
                        self.lemma_unique_with(
                            settled.ready,
                            me.readied(),
                            remaining >= self.minimum_remaining_timeslice,
                            settled.waiting,
                        );
                    },
                    Syscall::Exit => {
                        self.lemma_distinct_arranged(settled.ready);
                        lemma_among_self(settled.waiting);
                        lemma_apart_among(
                            after.ready,
                            settled.ready,
                            settled.waiting,
                            settled.waiting,
                        );
                    },
                }
            },
        }
    }

    /// The choice of the next action leaves no two processes of a scheduler
    /// with the same PID.
    pub proof fn lemma_unique_advanced(self)
        requires
            self.unique(),
        ensures
            self.advanced().unique(),
    {
        if !self.panic {
            let awake = self.awake();
            let after = self.advanced();
            let sorted = Order::Sleep.sorted(self.waiting);
            Order::Sleep.lemma_distinct_sorted(self.waiting);
            let waiting = aged(sorted, self.sleep as int);
            lemma_distinct_aged(sorted, self.sleep as int);
            lemma_among_on(waiting, sorted, self.waiting);
            lemma_distinct_split(waiting, Wake::Due);
            let woken = released(waiting, Wake::Due);
            let kept = retained(waiting, Wake::Due);
            lemma_among_on(woken, waiting, self.waiting);
            lemma_among_on(kept, waiting, self.waiting);
            lemma_among_self(self.ready);
            lemma_apart_among(self.ready, self.ready, woken, self.waiting);
            lemma_apart_among(self.ready, self.ready, kept, self.waiting);
            lemma_distinct_joined(self.ready, woken, awake.ready);
            lemma_apart_joined(self.ready, woken, kept);
            match self.current {
                Some(pcb) => {
                    lemma_among_self(seq![pcb]);
                    lemma_apart_among(seq![pcb], seq![pcb], woken, self.waiting);
                    lemma_apart_among(seq![pcb], seq![pcb], kept, self.waiting);
                    lemma_apart_joined(self.ready, woken, seq![pcb]);
                },
                None => {},
            }
            if !awake.is_idle() && awake.ready.len() > 0 {
                let first = awake.ready[0].dispatched();
                let rest = awake.ready.drop_first();
                assert(awake.ready =~= seq![awake.ready[0]] + rest);
                lemma_distinct_joined(seq![awake.ready[0]], rest, awake.ready);
                lemma_apart_joined(seq![awake.ready[0]], rest, kept);
                Self::lemma_among_one(first, awake.ready[0]);
                lemma_among_self(rest);
                lemma_among_self(kept);
                lemma_apart_among(seq![first], seq![awake.ready[0]], rest, rest);
                lemma_apart_among(seq![first], seq![awake.ready[0]], kept, kept);
            }
        }
    }

    /// Whatever a scheduler is asked to do and can take, no two of its
    /// processes come to have the same PID.
    pub proof fn lemma_unique_after(self, calls: Seq<Call>)
        requires
            self.inv(),
            self.unique(),
            self.takes_all(calls),
        ensures
            self.after(calls).unique(),
            distinct(self.after(calls).processes()),
        decreases calls.len(),
    {
        if calls.len() > 0 {
            self.lemma_unique_after(calls.drop_last());
            self.lemma_after_inv(calls.drop_last());
            let before = self.after(calls.drop_last());
            match calls.last() {
                Call::Next => before.lemma_unique_advanced(),
                Call::Stop(reason) => before.lemma_unique_stopped(reason),
            }
        }
        self.after(calls).lemma_unique_listed();
    }

    /// Whatever a new scheduler is asked to do and can take, the processes
    /// that it lists have distinct PIDs.
    pub proof fn lemma_pids_distinct(
        policy: Policy,
        timeslice: usize,
        minimum_remaining_timeslice: usize,
        calls: Seq<Call>,
    )
        requires
            timeslice > 0,
            State::initial(policy, timeslice, minimum_remaining_timeslice).takes_all(calls),
        ensures
            distinct(
                State::initial(policy, timeslice, minimum_remaining_timeslice).after(
                    calls,
                ).processes(),
            ),
    {
        State::initial(policy, timeslice, minimum_remaining_timeslice).lemma_unique_after(calls);
    }
}

} // verus!
