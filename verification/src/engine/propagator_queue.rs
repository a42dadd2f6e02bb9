//! The queue of propagators that wait to run: one first-in-first-out queue
//! per priority, the lowest priority number served first, and no propagator
//! in it twice.

use std::collections::HashSet;
use std::collections::VecDeque;
use vstd::prelude::*;

verus! {

/// Handle of a propagator: its index in the propagator store.
#[derive(Clone, Copy, Debug, PartialEq, Eq, Hash, Structural)]
pub struct PropagatorId(pub u32);

pub struct PropagatorQueue {
    queues: Vec<VecDeque<PropagatorId>>,
    present_propagators: HashSet<u32>,
}

/// Whether `id` waits in one of the queues.
pub open spec fn holds(queues: Seq<Seq<PropagatorId>>, id: PropagatorId) -> bool {
    exists|p: int, i: int|
        0 <= p < queues.len() && 0 <= i < queues[p].len() && #[trigger] queues[p][i] == id
}

/// No propagator waits at two places.
pub open spec fn no_repeats(queues: Seq<Seq<PropagatorId>>) -> bool {
    forall|p: int, i: int, q: int, j: int|
        0 <= p < queues.len() && 0 <= i < queues[p].len() && 0 <= q < queues.len() && 0 <= j
            < queues[q].len() && (p != q || i != j) ==> #[trigger] queues[p][i]
            != #[trigger] queues[q][j]
}

/// Nothing waits.
pub open spec fn all_empty(queues: Seq<Seq<PropagatorId>>) -> bool {
    forall|p: int| 0 <= p < queues.len() ==> (#[trigger] queues[p]).len() == 0
}

/// `p` is the lowest priority at which something waits.
pub open spec fn is_first_nonempty(queues: Seq<Seq<PropagatorId>>, p: int) -> bool {
    &&& 0 <= p < queues.len()
    &&& queues[p].len() > 0
    &&& forall|q: int| 0 <= q < p ==> (#[trigger] queues[q]).len() == 0
}

/// The lowest priority at which something waits.
pub open spec fn first_nonempty(queues: Seq<Seq<PropagatorId>>) -> int {
    choose|p: int| is_first_nonempty(queues, p)
}

/// The queues after `id` was offered at `priority`: appended there, unless
/// it waits already.
pub open spec fn after_enqueue(queues: Seq<Seq<PropagatorId>>, id: PropagatorId, priority: int) -> Seq<
    Seq<PropagatorId>,
> {
    if holds(queues, id) {
        queues
    } else {
        queues.update(priority, queues[priority].push(id))
    }
}

/// The queues after the next propagator was taken.
pub open spec fn after_pop(queues: Seq<Seq<PropagatorId>>) -> Seq<Seq<PropagatorId>> {
    queues.update(first_nonempty(queues), queues[first_nonempty(queues)].drop_first())
}

/// The number of propagators that wait.
pub open spec fn total_length(queues: Seq<Seq<PropagatorId>>) -> nat
    decreases queues.len(),
{
    if queues.len() == 0 {
        0
    } else {
        total_length(queues.drop_last()) + queues.last().len()
    }
}

/// Replacing one queue changes the total by the difference in length.
pub proof fn lemma_total_length_update(queues: Seq<Seq<PropagatorId>>, p: int, queue: Seq<PropagatorId>)
    requires
        0 <= p < queues.len(),
    ensures
        total_length(queues.update(p, queue)) == total_length(queues) - queues[p].len() + queue.len(),
    decreases queues.len(),
{
    let updated = queues.update(p, queue);
    if p == queues.len() - 1 {
        assert(updated.drop_last() =~= queues.drop_last());
    } else {
        assert(updated.drop_last() =~= queues.drop_last().update(p, queue));
        lemma_total_length_update(queues.drop_last(), p, queue);
    }
}

impl View for PropagatorQueue {
    type V = Seq<Seq<PropagatorId>>;

    closed spec fn view(&self) -> Seq<Seq<PropagatorId>> {
        Seq::new(self.queues@.len(), |p: int| self.queues@[p]@)
    }
}

impl PropagatorQueue {
    /// The invariant: no propagator waits twice, and the set of those present
    /// is the set of those in the queues.
    pub closed spec fn wf(&self) -> bool {
        &&& no_repeats(self@)
        &&& forall|id: u32| #[trigger]
            self.present_propagators@.contains(id) <==> holds(self@, PropagatorId(id))
    }

    /// In a well-formed queue no propagator waits twice.
    pub proof fn lemma_no_repeats(&self)
        requires
            self.wf(),
        ensures
            no_repeats(self@),
    {
    }

    pub fn new(num_priority_levels: u32) -> (r: PropagatorQueue)
        ensures
            r.wf(),
            r@.len() == num_priority_levels,
            all_empty(r@),
    {
        let mut queues: Vec<VecDeque<PropagatorId>> = Vec::new();
        let mut i: u32 = 0;
        while i < num_priority_levels
            invariant
                i <= num_priority_levels,
                queues@.len() == i,
                forall|p: int| 0 <= p < i ==> (#[trigger] queues@[p])@.len() == 0,
            decreases num_priority_levels - i,
        {
            queues.push(VecDeque::new());
            i += 1;
        }
        PropagatorQueue { queues, present_propagators: HashSet::new() }
    }

    pub fn num_priority_levels(&self) -> (r: usize)
        ensures
            r == self@.len(),
    {
        self.queues.len()
    }

    pub fn is_empty(&self) -> (r: bool)
        requires
            self.wf(),
        ensures
            r == all_empty(self@),
    {
        broadcast use vstd::std_specs::hash::group_hash_axioms;

        let r = self.present_propagators.is_empty();
        proof {
            if r {
                assert(self.present_propagators@ =~= Set::empty());
                assert forall|p: int| 0 <= p < self@.len() implies (#[trigger] self@[p]).len() == 0 by {
                    if self@[p].len() > 0 {
                        let id = self@[p][0];
                        assert(holds(self@, id));
                        assert(self.present_propagators@.contains(id.0));
                    }
                }
            } else {
                assert(!(self.present_propagators@ =~= Set::empty()));
                let id = choose|id: u32| self.present_propagators@.contains(id);
                assert(self.present_propagators@.contains(id));
                assert(holds(self@, PropagatorId(id)));
                let (p, i) = choose|p: int, i: int|
                    0 <= p < self@.len() && 0 <= i < self@[p].len() && #[trigger] self@[p][i]
                        == PropagatorId(id);
                assert(self@[p].len() > 0);
            }
        }
        r
    }

    pub fn is_propagator_enqueued(&self, propagator_id: PropagatorId) -> (r: bool)
        requires
            self.wf(),
        ensures
            r == holds(self@, propagator_id),
    {
        broadcast use vstd::std_specs::hash::group_hash_axioms;

        self.present_propagators.contains(&propagator_id.0)
    }

    /// Lets `propagator_id` wait at `priority`, behind those that wait there,
    /// unless it waits already.
    pub fn enqueue_propagator(&mut self, propagator_id: PropagatorId, priority: u32)
        requires
            old(self).wf(),
            priority < old(self)@.len(),
        ensures
            final(self).wf(),
            final(self)@ == after_enqueue(old(self)@, propagator_id, priority as int),
    {
        broadcast use vstd::std_specs::hash::group_hash_axioms;

        if !self.is_propagator_enqueued(propagator_id) {
            let ghost before = self@;
            self.queues[priority as usize].push_back(propagator_id);
            let inserted = self.present_propagators.insert(propagator_id.0);
            proof {
                let after = self@;
                assert(after =~= before.update(priority as int, before[priority as int].push(propagator_id)));
                assert forall|p: int, i: int, q: int, j: int|
                    0 <= p < after.len() && 0 <= i < after[p].len() && 0 <= q < after.len() && 0 <= j
                        < after[q].len() && (p != q || i != j) implies #[trigger] after[p][i]
                    != #[trigger] after[q][j] by {
                    let new_p = p == priority && i == before[p].len();
                    let new_q = q == priority && j == before[q].len();
                    if !new_p && !new_q {
                        assert(before[p][i] != before[q][j]);
                    } else if new_p {
                        assert(before[q][j] == after[q][j]);
                    } else {
                        assert(before[p][i] == after[p][i]);
                    }
                }
                assert forall|id: u32| #[trigger]
                    self.present_propagators@.contains(id) <==> holds(after, PropagatorId(id)) by {
                    if holds(after, PropagatorId(id)) {
                        let (p, i) = choose|p: int, i: int|
                            0 <= p < after.len() && 0 <= i < after[p].len() && #[trigger] after[p][i]
                                == PropagatorId(id);
                        if !(p == priority && i == before[p].len()) {
                            assert(before[p][i] == PropagatorId(id));
                        }
                    }
                    if old(self).present_propagators@.contains(id) {
                        let (p, i) = choose|p: int, i: int|
                            0 <= p < before.len() && 0 <= i < before[p].len() && #[trigger] before[p][i]
                                == PropagatorId(id);
                        assert(after[p][i] == PropagatorId(id));
                    }
                    if id == propagator_id.0 {
                        assert(after[priority as int][before[priority as int].len() as int]
                            == propagator_id);
                    }
                }
            }
        }
    }

    /// Takes the propagator that waited longest among those of the lowest
    /// priority number at which any waits.
    pub fn pop(&mut self) -> (r: PropagatorId)
        requires
            old(self).wf(),
            !all_empty(old(self)@),
        ensures
            final(self).wf(),
            is_first_nonempty(old(self)@, first_nonempty(old(self)@)),
            r == old(self)@[first_nonempty(old(self)@)][0],
            final(self)@ == after_pop(old(self)@),
    {
        broadcast use vstd::std_specs::hash::group_hash_axioms;

        let ghost before = self@;
        let mut top_priority: usize = 0;
        let levels: usize = self.queues.len();
        proof {
            if levels == 0 {
                assert(all_empty(before));
            }
        }
        while self.queues[top_priority].len() == 0
            invariant
                self@ == before,
                !all_empty(before),
                levels == self.queues@.len(),
                top_priority < levels,
                self.queues@.len() == before.len(),
                forall|q: int| 0 <= q < top_priority ==> (#[trigger] before[q]).len() == 0,
            decreases self.queues@.len() - top_priority,
        {
            proof {
                assert(before[top_priority as int].len() == 0);
                if top_priority + 1 == before.len() {
                    assert(all_empty(before));
                }
            }
            top_priority += 1;
        }
        assert(before[top_priority as int].len() > 0);
        assert(is_first_nonempty(before, top_priority as int));
        proof {
            let chosen = first_nonempty(before);
            assert(is_first_nonempty(before, chosen));
            if chosen < top_priority {
                assert(before[chosen].len() == 0);
            }
            if top_priority < chosen {
                assert(before[top_priority as int].len() == 0);
            }
        }
        let next_propagator_id = self.queues[top_priority].pop_front().unwrap();
        let removed = self.present_propagators.remove(&next_propagator_id.0);
        proof {
            let after = self@;
            let top = top_priority as int;
            assert(after =~= before.update(top, before[top].drop_first()));
            assert forall|p: int, i: int, q: int, j: int|
                0 <= p < after.len() && 0 <= i < after[p].len() && 0 <= q < after.len() && 0 <= j
                    < after[q].len() && (p != q || i != j) implies #[trigger] after[p][i]
                != #[trigger] after[q][j] by {
                let bi = if p == top {
                    i + 1
                } else {
                    i
                };
                let bj = if q == top {
                    j + 1
                } else {
                    j
                };
                assert(after[p][i] == before[p][bi]);
                assert(after[q][j] == before[q][bj]);
                assert(before[p][bi] != before[q][bj]);
            }
            assert forall|id: u32| #[trigger]
                self.present_propagators@.contains(id) <==> holds(after, PropagatorId(id)) by {
                if holds(after, PropagatorId(id)) {
                    let (p, i) = choose|p: int, i: int|
                        0 <= p < after.len() && 0 <= i < after[p].len() && #[trigger] after[p][i]
                            == PropagatorId(id);
                    let bi = if p == top {
                        i + 1
                    } else {
                        i
                    };
                    assert(before[p][bi] == PropagatorId(id));
                    assert(before[p][bi] != before[top][0]);
                }
                if self.present_propagators@.contains(id) {
                    assert(old(self).present_propagators@.contains(id));
                    let (p, i) = choose|p: int, i: int|
                        0 <= p < before.len() && 0 <= i < before[p].len() && #[trigger] before[p][i]
                            == PropagatorId(id);
                    if p == top {
                        assert(i != 0);
                        assert(after[p][i - 1] == PropagatorId(id));
                    } else {
                        assert(after[p][i] == PropagatorId(id));
                    }
                }
            }
        }
        next_propagator_id
    }

    /// Empties every queue.
    pub fn clear(&mut self)
        requires
            old(self).wf(),
        ensures
            final(self).wf(),
            final(self)@.len() == old(self)@.len(),
            all_empty(final(self)@),
    {
        let mut p: usize = 0;
        while p < self.queues.len()
            invariant
                p <= self.queues@.len(),
                self.queues@.len() == old(self).queues@.len(),
                forall|q: int| 0 <= q < p ==> (#[trigger] self.queues@[q])@.len() == 0,
            decreases self.queues@.len() - p,
        {
            self.queues[p].clear();
            p += 1;
        }
        self.present_propagators.clear();
        proof {
            assert forall|id: u32| #[trigger]
                self.present_propagators@.contains(id) <==> holds(self@, PropagatorId(id)) by {
                if holds(self@, PropagatorId(id)) {
                    let (p, i) = choose|p: int, i: int|
                        0 <= p < self@.len() && 0 <= i < self@[p].len() && #[trigger] self@[p][i]
                            == PropagatorId(id);
                    assert(self.queues@[p]@.len() == 0);
                }
            }
        }
    }
}

} // verus!
