//! What happens to a whole queue of processes: time passes for all of them,
//! and those that an event or the end of their sleep concerns leave the
//! waiting queue.

use crate::scheduler::ProcessState;
use crate::schedulers::pcb::PCB;
use vstd::prelude::*;

verus! {

/// Why a process leaves the waiting queue.
#[derive(Copy, Clone, PartialEq, Eq, Structural, Debug)]
pub enum Wake {
    /// Its time to sleep is over.
    Due,
    /// The event that it waits for has been signalled.
    Signal(usize),
}

impl Wake {
    /// The waiting process `pcb` is woken up.
    pub open spec fn concerns(self, pcb: PCB) -> bool {
        match self {
            Wake::Due => pcb.is_due(),
            Wake::Signal(event) => pcb.awaits(event),
        }
    }

    /// Whether the waiting process `pcb` is woken up.
    pub fn wakes(&self, pcb: &PCB) -> (woken: bool)
        ensures
            woken == self.concerns(*pcb),
    {
        match self {
            Wake::Due => match pcb.state {
                ProcessState::Waiting { event: None } => pcb.sleep <= 0,
                _ => false,
            },
            Wake::Signal(event) => match pcb.state {
                ProcessState::Waiting { event: Some(awaited) } => awaited == *event,
                _ => false,
            },
        }
    }
}

/// The processes of `queue` after `units` of time in which they did not run.
pub open spec fn aged(queue: Seq<PCB>, units: int) -> Seq<PCB> {
    Seq::new(queue.len(), |i: int| queue[i].aged(units))
}

/// The processes of `queue` that `wake` wakes up, in their order and in the
/// ready state.
pub open spec fn released(queue: Seq<PCB>, wake: Wake) -> Seq<PCB>
    decreases queue.len(),
{
    if queue.len() == 0 {
        queue
    } else if wake.concerns(queue.last()) {
        released(queue.drop_last(), wake).push(queue.last().readied())
    } else {
        released(queue.drop_last(), wake)
    }
}

/// The processes of `queue` that `wake` leaves waiting, in their order.
pub open spec fn retained(queue: Seq<PCB>, wake: Wake) -> Seq<PCB>
    decreases queue.len(),
{
    if queue.len() == 0 {
        queue
    } else if wake.concerns(queue.last()) {
        retained(queue.drop_last(), wake)
    } else {
        retained(queue.drop_last(), wake).push(queue.last())
    }
}

/// The total time of every process of `queue` can grow by `units`.
pub open spec fn can_age(queue: Seq<PCB>, units: int) -> bool {
    forall|i: int| 0 <= i < queue.len() ==> (#[trigger] queue[i]).can_age(units)
}

/// Every process of `queue` is [sound](PCB::sound).
pub open spec fn sound(queue: Seq<PCB>) -> bool {
    forall|i: int| 0 <= i < queue.len() ==> (#[trigger] queue[i]).sound()
}

/// Some process of `queue` sleeps.
pub open spec fn has_sleeper(queue: Seq<PCB>) -> bool {
    exists|i: int| 0 <= i < queue.len() && (#[trigger] queue[i]).is_sleeping()
}

/// The place of the first sleeping process of `queue`, or the length of
/// `queue` if none sleeps.
pub open spec fn first_sleeper(queue: Seq<PCB>) -> int
    decreases queue.len(),
{
    if queue.len() == 0 {
        0
    } else if queue[0].is_sleeping() {
        0
    } else {
        1 + first_sleeper(queue.drop_first())
    }
}

/// The first sleeping process is a place of the queue where a process
/// sleeps, and before it none does.
pub proof fn lemma_first_sleeper(queue: Seq<PCB>)
    ensures
        0 <= first_sleeper(queue) <= queue.len(),
        first_sleeper(queue) < queue.len() ==> queue[first_sleeper(queue)].is_sleeping(),
        forall|i: int| 0 <= i < first_sleeper(queue) ==> !(#[trigger] queue[i]).is_sleeping(),
        has_sleeper(queue) <==> first_sleeper(queue) < queue.len(),
    decreases queue.len(),
{
    if queue.len() > 0 && !queue[0].is_sleeping() {
        let rest = queue.drop_first();
        lemma_first_sleeper(rest);
        assert forall|i: int| 0 <= i < first_sleeper(queue) implies !(#[trigger] queue[i]).is_sleeping() by {
            if i > 0 {
                assert(queue[i] == rest[i - 1]);
            }
        }
        if first_sleeper(queue) < queue.len() {
            assert(queue[first_sleeper(queue)] == rest[first_sleeper(rest)]);
        }
        if has_sleeper(queue) {
            let i = choose|i: int| 0 <= i < queue.len() && (#[trigger] queue[i]).is_sleeping();
            assert(rest[i - 1].is_sleeping());
        }
    }
}

/// A process is among those released exactly if it is the readied form of a
/// process of the queue that the wake concerns.
pub proof fn lemma_released(queue: Seq<PCB>, wake: Wake)
    ensures
        forall|p: PCB| #[trigger]
            released(queue, wake).contains(p) <==> exists|q: PCB| #[trigger]
                queue.contains(q) && wake.concerns(q) && p == q.readied(),
        released(queue, wake).len() <= queue.len(),
    decreases queue.len(),
{
    if queue.len() > 0 {
        let front = queue.drop_last();
        let last = queue.last();
        lemma_released(front, wake);
        assert forall|p: PCB| #[trigger]
            released(queue, wake).contains(p) <==> exists|q: PCB| #[trigger]
                queue.contains(q) && wake.concerns(q) && p == q.readied() by {
            if released(queue, wake).contains(p) {
                if wake.concerns(last) && p == last.readied() {
                    assert(queue.contains(last));
                } else {
                    if wake.concerns(last) {
                        let i = choose|i: int|
                            0 <= i < released(queue, wake).len() && released(queue, wake)[i] == p;
                        assert(released(front, wake)[i] == p);
                    }
                    assert(released(front, wake).contains(p));
                    let q = choose|q: PCB| #[trigger]
                        front.contains(q) && wake.concerns(q) && p == q.readied();
                    lemma_contains_front(queue, q);
                }
            }
            if exists|q: PCB| #[trigger] queue.contains(q) && wake.concerns(q) && p == q.readied() {
                let q = choose|q: PCB| #[trigger]
                    queue.contains(q) && wake.concerns(q) && p == q.readied();
                let i = choose|i: int| 0 <= i < queue.len() && queue[i] == q;
                if i == queue.len() - 1 {
                    assert(released(queue, wake).last() == p);
                } else {
                    assert(front[i] == q);
                    assert(front.contains(q));
                    assert(released(front, wake).contains(p));
                    let k = choose|k: int|
                        0 <= k < released(front, wake).len() && released(front, wake)[k] == p;
                    assert(released(queue, wake)[k] == p);
                }
            }
        }
    } else {
        assert forall|p: PCB| #[trigger]
            released(queue, wake).contains(p) <==> exists|q: PCB| #[trigger]
                queue.contains(q) && wake.concerns(q) && p == q.readied() by {
            if exists|q: PCB| #[trigger] queue.contains(q) && wake.concerns(q) && p == q.readied() {
                let q = choose|q: PCB| #[trigger]
                    queue.contains(q) && wake.concerns(q) && p == q.readied();
                assert(queue.contains(q));
            }
        }
    }
}

/// A process is among those retained exactly if it is a process of the
/// queue that the wake does not concern.
pub proof fn lemma_retained(queue: Seq<PCB>, wake: Wake)
    ensures
        forall|p: PCB| #[trigger]
            retained(queue, wake).contains(p) <==> queue.contains(p) && !wake.concerns(p),
        retained(queue, wake).len() <= queue.len(),
    decreases queue.len(),
{
    if queue.len() > 0 {
        let front = queue.drop_last();
        let last = queue.last();
        lemma_retained(front, wake);
        assert forall|p: PCB| #[trigger]
            retained(queue, wake).contains(p) <==> queue.contains(p) && !wake.concerns(p) by {
            if retained(queue, wake).contains(p) {
                if !wake.concerns(last) && p == last {
                    assert(queue.contains(last));
                } else {
                    if !wake.concerns(last) {
                        let i = choose|i: int|
                            0 <= i < retained(queue, wake).len() && retained(queue, wake)[i] == p;
                        assert(retained(front, wake)[i] == p);
                    }
                    assert(retained(front, wake).contains(p));
                    lemma_contains_front(queue, p);
                }
            }
            if queue.contains(p) && !wake.concerns(p) {
                let i = choose|i: int| 0 <= i < queue.len() && queue[i] == p;
                if i == queue.len() - 1 {
                    assert(retained(queue, wake).last() == p);
                } else {
                    assert(front[i] == p);
                    assert(front.contains(p));
                    assert(retained(front, wake).contains(p));
                    let k = choose|k: int|
                        0 <= k < retained(front, wake).len() && retained(front, wake)[k] == p;
                    assert(retained(queue, wake)[k] == p);
                }
            }
        }
    }
}

/// What the queue without its last process holds, the queue holds.
pub proof fn lemma_contains_front(queue: Seq<PCB>, p: PCB)
    requires
        queue.len() > 0,
        queue.drop_last().contains(p),
    ensures
        queue.contains(p),
{
    let i = choose|i: int| 0 <= i < queue.drop_last().len() && queue.drop_last()[i] == p;
    assert(queue[i] == p);
}

/// Where a queue holds only processes of another queue whose total times can
/// grow, or which are sound, the same is true of its own.
pub proof fn lemma_within(inner: Seq<PCB>, outer: Seq<PCB>, units: int)
    requires
        forall|p: PCB| #[trigger] inner.contains(p) ==> outer.contains(p),
    ensures
        can_age(outer, units) ==> can_age(inner, units),
        sound(outer) ==> sound(inner),
{
    assert forall|i: int| 0 <= i < inner.len() implies {
        &&& can_age(outer, units) ==> (#[trigger] inner[i]).can_age(units)
        &&& sound(outer) ==> inner[i].sound()
    } by {
        assert(inner.contains(inner[i]));
        let j = choose|j: int| 0 <= j < outer.len() && outer[j] == inner[i];
        assert(outer[j] == inner[i]);
    }
}

/// Lets `units` of time pass for the processes of `queue`, none of which runs.
pub fn age(queue: &mut Vec<PCB>, units: usize)
    requires
        can_age(old(queue)@, units as int),
        sound(old(queue)@),
    ensures
        final(queue)@ == aged(old(queue)@, units as int),
{
    let mut out: Vec<PCB> = Vec::new();
    let mut i: usize = 0;
    while i < queue.len()
        invariant
            i <= queue.len(),
            queue@ == old(queue)@,
            can_age(queue@, units as int),
            sound(queue@),
            out@ == aged(queue@.take(i as int), units as int),
        decreases queue.len() - i,
    {
        let mut pcb = queue[i];
        assert(queue@[i as int].can_age(units as int) && queue@[i as int].sound());
        pcb.timings.0 = pcb.timings.0 + units;
        if let ProcessState::Waiting { event: None } = pcb.state {
            pcb.sleep = pcb.sleep - units as i128;
        }
        out.push(pcb);
        i = i + 1;
        assert(out@ =~= aged(queue@.take(i as int), units as int));
    }
    assert(queue@.take(i as int) == queue@);
    *queue = out;
}

/// Moves the processes of `waiting` that `wake` wakes up to the end of
/// `ready`, in their order and in the ready state.
pub fn release(waiting: &mut Vec<PCB>, ready: &mut Vec<PCB>, wake: Wake)
    ensures
        final(waiting)@ == retained(old(waiting)@, wake),
        final(ready)@ == old(ready)@ + released(old(waiting)@, wake),
{
    let mut stay: Vec<PCB> = Vec::new();
    let mut i: usize = 0;
    while i < waiting.len()
        invariant
            i <= waiting.len(),
            waiting@ == old(waiting)@,
            stay@ == retained(waiting@.take(i as int), wake),
            ready@ == old(ready)@ + released(waiting@.take(i as int), wake),
        decreases waiting.len() - i,
    {
        let pcb = waiting[i];
        assert(waiting@.take(i as int + 1).drop_last() == waiting@.take(i as int));
        if wake.wakes(&pcb) {
            let mut woken = pcb;
            woken.state = ProcessState::Ready;
            ready.push(woken);
            assert(ready@ =~= old(ready)@ + released(waiting@.take(i as int + 1), wake));
        } else {
            stay.push(pcb);
        }
        i = i + 1;
    }
    assert(waiting@.take(i as int) == waiting@);
    *waiting = stay;
}

/// Whether the total time of every process of `queue` can grow by `units`.
pub fn fits(queue: &Vec<PCB>, units: usize) -> (fit: bool)
    ensures
        fit == can_age(queue@, units as int),
{
    let mut i: usize = 0;
    while i < queue.len()
        invariant
            i <= queue.len(),
            forall|k: int| 0 <= k < i ==> (#[trigger] queue@[k]).can_age(units as int),
        decreases queue.len() - i,
    {
        if queue[i].timings.0 > usize::MAX - units {
            assert(!queue@[i as int].can_age(units as int));
            return false;
        }
        i = i + 1;
    }
    true
}

} // verus!
