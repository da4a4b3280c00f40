//! The orders in which schedulers keep their queues, and the stable sort that
//! puts a queue in order.

use crate::schedulers::pcb::PCB;
use vstd::prelude::*;

verus! {

/// An order on processes.
#[derive(Copy, Clone, PartialEq, Eq, Structural, Debug)]
pub enum Order {
    /// By the time left to sleep, the shortest first.
    Sleep,
    /// By priority, the highest first.
    Priority,
    /// By virtual runtime, the lowest first. Among processes with the same
    /// virtual runtime the one with the lower PID comes first.
    Fair,
}

impl Order {
    /// Process `a` has to come before process `b`.
    pub open spec fn ranks_before(self, a: PCB, b: PCB) -> bool {
        match self {
            Order::Sleep => a.sleep < b.sleep,
            Order::Priority => a.priority > b.priority,
            Order::Fair => a.fair_time() < b.fair_time() || (a.fair_time() == b.fair_time()
                && a.pid.value() < b.pid.value()),
        }
    }

    /// The queue `queue`, already in order, with the process `pcb` added
    /// behind every process that it does not have to come before.
    pub open spec fn inserted(self, queue: Seq<PCB>, pcb: PCB) -> Seq<PCB>
        decreases queue.len(),
    {
        if queue.len() > 0 && self.ranks_before(pcb, queue.last()) {
            self.inserted(queue.drop_last(), pcb).push(queue.last())
        } else {
            queue.push(pcb)
        }
    }

    /// The processes of `queue` in order. Processes of which neither has to
    /// come before the other stay in the order in which they are in `queue`.
    pub open spec fn sorted(self, queue: Seq<PCB>) -> Seq<PCB>
        decreases queue.len(),
    {
        if queue.len() == 0 {
            queue
        } else {
            self.inserted(self.sorted(queue.drop_last()), queue.last())
        }
    }

    /// No process of `queue` has to come before one that stands ahead of it.
    pub open spec fn in_order(self, queue: Seq<PCB>) -> bool {
        forall|i: int, j: int|
            0 <= i < j < queue.len() ==> !self.ranks_before(#[trigger] queue[j], #[trigger] queue[i])
    }

    /// Adding a process behind those that it does not have to come before is
    /// adding it at the place where the processes that it has to come
    /// before begin.
    pub proof fn lemma_inserted_at(self, queue: Seq<PCB>, pcb: PCB, at: int)
        requires
            0 <= at <= queue.len(),
            forall|k: int| at <= k < queue.len() ==> self.ranks_before(pcb, #[trigger] queue[k]),
            at > 0 ==> !self.ranks_before(pcb, queue[at - 1]),
        ensures
            self.inserted(queue, pcb) == queue.insert(at, pcb),
        decreases queue.len() - at,
    {
        if at == queue.len() {
            assert(queue.push(pcb) =~= queue.insert(at, pcb));
        } else {
            let front = queue.drop_last();
            self.lemma_inserted_at(front, pcb, at);
            assert(front.insert(at, pcb).push(queue.last()) =~= queue.insert(at, pcb));
        }
    }

    /// The queue with a process added holds that process and those of the
    /// queue, and no others.
    pub proof fn lemma_inserted_holds(self, queue: Seq<PCB>, pcb: PCB)
        ensures
            self.inserted(queue, pcb).len() == queue.len() + 1,
            forall|p: PCB| #[trigger]
                self.inserted(queue, pcb).contains(p) <==> p == pcb || queue.contains(p),
        decreases queue.len(),
    {
        let out = self.inserted(queue, pcb);
        if queue.len() > 0 && self.ranks_before(pcb, queue.last()) {
            let front = queue.drop_last();
            self.lemma_inserted_holds(front, pcb);
            let inner = self.inserted(front, pcb);
            assert forall|p: PCB| #[trigger] out.contains(p) <==> p == pcb || queue.contains(p) by {
                if out.contains(p) {
                    let i = choose|i: int| 0 <= i < out.len() && out[i] == p;
                    if i < inner.len() {
                        assert(inner[i] == p);
                        assert(inner.contains(p));
                        if p != pcb {
                            let j = choose|j: int| 0 <= j < front.len() && front[j] == p;
                            assert(queue[j] == p);
                        }
                    } else {
                        assert(queue[queue.len() - 1] == p);
                    }
                }
                if p == pcb {
                    assert(inner.contains(p));
                    let i = choose|i: int| 0 <= i < inner.len() && inner[i] == p;
                    assert(out[i] == p);
                } else if queue.contains(p) {
                    let j = choose|j: int| 0 <= j < queue.len() && queue[j] == p;
                    if j < front.len() {
                        assert(front[j] == p);
                        assert(front.contains(p));
                        assert(inner.contains(p));
                        let i = choose|i: int| 0 <= i < inner.len() && inner[i] == p;
                        assert(out[i] == p);
                    } else {
                        assert(out[out.len() - 1] == p);
                    }
                }
            }
        } else {
            assert forall|p: PCB| #[trigger] out.contains(p) <==> p == pcb || queue.contains(p) by {
                if out.contains(p) {
                    let i = choose|i: int| 0 <= i < out.len() && out[i] == p;
                    if i < queue.len() {
                        assert(queue[i] == p);
                    }
                }
                if p == pcb {
                    assert(out[out.len() - 1] == p);
                } else if queue.contains(p) {
                    let j = choose|j: int| 0 <= j < queue.len() && queue[j] == p;
                    assert(out[j] == p);
                }
            }
        }
    }

    /// The queue in order holds the processes of the queue, and no others.
    pub proof fn lemma_sorted_holds(self, queue: Seq<PCB>)
        ensures
            self.sorted(queue).len() == queue.len(),
            forall|p: PCB| #[trigger] self.sorted(queue).contains(p) <==> queue.contains(p),
        decreases queue.len(),
    {
        if queue.len() > 0 {
            let front = queue.drop_last();
            self.lemma_sorted_holds(front);
            self.lemma_inserted_holds(self.sorted(front), queue.last());
            assert forall|p: PCB| #[trigger] self.sorted(queue).contains(p) <==> queue.contains(
                p,
            ) by {
                if queue.contains(p) {
                    let j = choose|j: int| 0 <= j < queue.len() && queue[j] == p;
                    if j < front.len() {
                        assert(front[j] == p);
                        assert(front.contains(p));
                        assert(self.sorted(front).contains(p));
                    }
                }
                if self.sorted(queue).contains(p) && p != queue.last() {
                    assert(self.sorted(front).contains(p));
                    assert(front.contains(p));
                    let j = choose|j: int| 0 <= j < front.len() && front[j] == p;
                    assert(queue[j] == p);
                }
                if p == queue.last() {
                    assert(queue[queue.len() - 1] == p);
                }
            }
        }
    }

    /// Neither of the processes `a` and `b` has to come before the other.
    pub open spec fn ties(self, a: PCB, b: PCB) -> bool {
        !self.ranks_before(a, b) && !self.ranks_before(b, a)
    }

    /// The processes of `queue` that tie with `pcb`, in their order.
    pub open spec fn peers(self, queue: Seq<PCB>, pcb: PCB) -> Seq<PCB>
        decreases queue.len(),
    {
        if queue.len() == 0 {
            queue
        } else if self.ties(queue.last(), pcb) {
            self.peers(queue.drop_last(), pcb).push(queue.last())
        } else {
            self.peers(queue.drop_last(), pcb)
        }
    }

    /// A queue in order with a process added is in order.
    pub proof fn lemma_inserted_in_order(self, queue: Seq<PCB>, pcb: PCB)
        requires
            self.in_order(queue),
        ensures
            self.in_order(self.inserted(queue, pcb)),
        decreases queue.len(),
    {
        let out = self.inserted(queue, pcb);
        if queue.len() > 0 && self.ranks_before(pcb, queue.last()) {
            let front = queue.drop_last();
            assert(self.in_order(front)) by {
                assert forall|i: int, j: int| 0 <= i < j < front.len() implies !self.ranks_before(
                    #[trigger] front[j],
                    #[trigger] front[i],
                ) by {
                    assert(front[j] == queue[j] && front[i] == queue[i]);
                }
            }
            self.lemma_inserted_in_order(front, pcb);
            self.lemma_inserted_holds(front, pcb);
            let inner = self.inserted(front, pcb);
            assert forall|i: int, j: int| 0 <= i < j < out.len() implies !self.ranks_before(
                #[trigger] out[j],
                #[trigger] out[i],
            ) by {
                if j == out.len() - 1 {
                    assert(inner.contains(inner[i]));
                    if inner[i] != pcb {
                        let k = choose|k: int| 0 <= k < front.len() && front[k] == inner[i];
                        assert(queue[k] == inner[i]);
                        assert(!self.ranks_before(queue[queue.len() - 1], queue[k]));
                    }
                } else {
                    assert(out[j] == inner[j] && out[i] == inner[i]);
                }
            }
        } else {
            assert forall|i: int, j: int| 0 <= i < j < out.len() implies !self.ranks_before(
                #[trigger] out[j],
                #[trigger] out[i],
            ) by {
                if j == out.len() - 1 {
                    if i < queue.len() - 1 {
                        assert(!self.ranks_before(queue[queue.len() - 1], queue[i]));
                    }
                } else {
                    assert(out[j] == queue[j] && out[i] == queue[i]);
                }
            }
        }
    }

    /// The processes that tie with a process are, after another process has
    /// been added to a queue in order, those of before, with the new process
    /// behind them if it ties too.
    pub proof fn lemma_inserted_peers(self, queue: Seq<PCB>, pcb: PCB, with: PCB)
        ensures
            self.peers(self.inserted(queue, pcb), with) == if self.ties(pcb, with) {
                self.peers(queue, with).push(pcb)
            } else {
                self.peers(queue, with)
            },
        decreases queue.len(),
    {
        if queue.len() > 0 && self.ranks_before(pcb, queue.last()) {
            let front = queue.drop_last();
            self.lemma_inserted_peers(front, pcb, with);
            let inner = self.inserted(front, pcb);
            assert(inner.push(queue.last()).drop_last() == inner);
        } else {
            assert(queue.push(pcb).drop_last() == queue);
        }
    }

    /// Sorting puts a queue in order and is stable: no process of the sorted
    /// queue has to come before one that stands ahead of it, and the
    /// processes that tie with any one process stand in the sorted queue as
    /// they stood in the queue.
    pub proof fn lemma_sorted(self, queue: Seq<PCB>, with: PCB)
        ensures
            self.in_order(self.sorted(queue)),
            self.peers(self.sorted(queue), with) == self.peers(queue, with),
        decreases queue.len(),
    {
        if queue.len() > 0 {
            let front = queue.drop_last();
            self.lemma_sorted(front, with);
            self.lemma_inserted_in_order(self.sorted(front), queue.last());
            self.lemma_inserted_peers(self.sorted(front), queue.last(), with);
        }
    }

    /// Whether process `a` has to come before process `b`.
    pub fn comes_before(&self, a: &PCB, b: &PCB) -> (before: bool)
        ensures
            before == self.ranks_before(*a, *b),
    {
        match self {
            Order::Sleep => a.sleep < b.sleep,
            Order::Priority => a.priority > b.priority,
            Order::Fair => {
                let va = match a.vruntime {
                    Some(v) => v,
                    None => 0,
                };
                let vb = match b.vruntime {
                    Some(v) => v,
                    None => 0,
                };
                va < vb || (va == vb && a.pid.get() < b.pid.get())
            },
        }
    }

    /// Puts `queue` in order. Processes of which neither has to come before
    /// the other keep their places relative to each other.
    pub fn sort(&self, queue: &mut Vec<PCB>)
        ensures
            final(queue)@ == self.sorted(old(queue)@),
    {
        let mut out: Vec<PCB> = Vec::new();
        let mut i: usize = 0;
        while i < queue.len()
            invariant
                i <= queue.len(),
                queue@ == old(queue)@,
                out@ == self.sorted(queue@.take(i as int)),
            decreases queue.len() - i,
        {
            let pcb = queue[i];
            let mut at: usize = out.len();
            while at > 0 && self.comes_before(&pcb, &out[at - 1])
                invariant
                    at <= out.len(),
                    forall|k: int| at <= k < out.len() ==> self.ranks_before(pcb, #[trigger] out@[k]),
                decreases at,
            {
                at = at - 1;
            }
            proof {
                self.lemma_inserted_at(out@, pcb, at as int);
                assert(queue@.take(i as int + 1).drop_last() == queue@.take(i as int));
            }
            out.insert(at, pcb);
            i = i + 1;
        }
        assert(queue@.take(i as int) == queue@);
        *queue = out;
    }
}

} // verus!
