//! Which propagators to wake when a domain changes.

use vstd::prelude::*;
use crate::basic_types::domain_events::DomainEvents;
use crate::basic_types::domain_events::IntDomainEvent;
use crate::basic_types::domain_id::DomainId;
use crate::engine::propagator_queue::PropagatorId;
use crate::engine::propagator_queue::PropagatorQueue;
use crate::engine::propagator_queue::after_enqueue;

verus! {

/// The number a propagator gives to one of its variables.
#[derive(Clone, Copy, Debug, PartialEq, Eq, Hash, Structural)]
pub struct LocalId(pub u32);

/// A variable of a propagator.
#[derive(Clone, Copy, Debug, PartialEq, Eq, Hash, Structural)]
pub struct PropagatorVarId {
    pub propagator: PropagatorId,
    pub variable: LocalId,
}

/// The watchers of one domain, event by event, each list in the order of
/// registration.
pub struct WatcherCP {
    pub lower_bound_watchers: Vec<PropagatorVarId>,
    pub upper_bound_watchers: Vec<PropagatorVarId>,
    pub assign_watchers: Vec<PropagatorVarId>,
    pub hole_watchers: Vec<PropagatorVarId>,
}

impl WatcherCP {
    /// The watchers of `event`.
    pub open spec fn of(&self, event: IntDomainEvent) -> Seq<PropagatorVarId> {
        match event {
            IntDomainEvent::Assign => self.assign_watchers@,
            IntDomainEvent::LowerBound => self.lower_bound_watchers@,
            IntDomainEvent::UpperBound => self.upper_bound_watchers@,
            IntDomainEvent::Hole => self.hole_watchers@,
        }
    }
}

pub struct WatchListCP {
    pub watchers: Vec<WatcherCP>,
}

/// The queues after every watcher's propagator was offered, in order, at
/// its priority. A watcher whose propagator is unknown is passed over.
pub open spec fn enqueue_all(
    queues: Seq<Seq<PropagatorId>>,
    watchers: Seq<PropagatorVarId>,
    priorities: Seq<u32>,
) -> Seq<Seq<PropagatorId>>
    decreases watchers.len(),
{
    if watchers.len() == 0 {
        queues
    } else {
        enqueue_all(
            enqueue_one(queues, watchers[0].propagator, priorities),
            watchers.drop_first(),
            priorities,
        )
    }
}

/// The queues after `propagator` was offered at its priority.
pub open spec fn enqueue_one(
    queues: Seq<Seq<PropagatorId>>,
    propagator: PropagatorId,
    priorities: Seq<u32>,
) -> Seq<Seq<PropagatorId>> {
    if (propagator.0 as int) < priorities.len() && (priorities[propagator.0 as int] as int)
        < queues.len() {
        after_enqueue(queues, propagator, priorities[propagator.0 as int] as int)
    } else {
        queues
    }
}

impl WatchListCP {
    pub open spec fn num_domains(&self) -> nat {
        self.watchers@.len()
    }

    /// The watchers of `event` on `x`, in the order of registration.
    pub open spec fn watchers_of(&self, x: DomainId, event: IntDomainEvent) -> Seq<PropagatorVarId> {
        self.watchers@[x.id as int].of(event)
    }

    pub fn new() -> (r: WatchListCP)
        ensures
            r.num_domains() == 0,
    {
        WatchListCP { watchers: Vec::new() }
    }

    /// Makes room for the watchers of one more domain.
    pub fn grow(&mut self)
        ensures
            final(self).num_domains() == old(self).num_domains() + 1,
            forall|x: DomainId, event: IntDomainEvent|
                (x.id as int) < old(self).num_domains() ==> #[trigger] final(self).watchers_of(x, event)
                    == old(self).watchers_of(x, event),
            forall|event: IntDomainEvent| #[trigger]
                final(self).watchers@[old(self).num_domains() as int].of(event).len() == 0,
    {
        self.watchers.push(
            WatcherCP {
                lower_bound_watchers: Vec::new(),
                upper_bound_watchers: Vec::new(),
                assign_watchers: Vec::new(),
                hole_watchers: Vec::new(),
            },
        );
    }

    /// Registers `propagator_var` for every event of `events` on `x`.
    pub fn watch_all(&mut self, x: DomainId, events: DomainEvents, propagator_var: PropagatorVarId)
        requires
            (x.id as int) < old(self).num_domains(),
        ensures
            final(self).num_domains() == old(self).num_domains(),
            forall|y: DomainId, event: IntDomainEvent|
                (y.id as int) < old(self).num_domains() ==> #[trigger] final(self).watchers_of(y, event)
                    == if y == x && events.has(event) {
                    old(self).watchers_of(y, event).push(propagator_var)
                } else {
                    old(self).watchers_of(y, event)
                },
    {
        let index = x.id as usize;
        if events.lower_bound {
            self.watchers[index].lower_bound_watchers.push(propagator_var);
        }
        if events.upper_bound {
            self.watchers[index].upper_bound_watchers.push(propagator_var);
        }
        if events.assign {
            self.watchers[index].assign_watchers.push(propagator_var);
        }
        if events.hole {
            self.watchers[index].hole_watchers.push(propagator_var);
        }
    }

    /// Offers to the queue, in the order of registration, every propagator
    /// that watches `event` on `x`.
    pub fn notify_subscribed_propagators(
        &self,
        x: DomainId,
        event: IntDomainEvent,
        priorities: &Vec<u32>,
        queue: &mut PropagatorQueue,
    )
        requires
            (x.id as int) < self.num_domains(),
            old(queue).wf(),
        ensures
            final(queue).wf(),
            final(queue)@ == enqueue_all(old(queue)@, self.watchers_of(x, event), priorities@),
            final(queue)@.len() == old(queue)@.len(),
    {
        let watcher = &self.watchers[x.id as usize];
        let list = match event {
            IntDomainEvent::Assign => &watcher.assign_watchers,
            IntDomainEvent::LowerBound => &watcher.lower_bound_watchers,
            IntDomainEvent::UpperBound => &watcher.upper_bound_watchers,
            IntDomainEvent::Hole => &watcher.hole_watchers,
        };
        let mut i: usize = 0;
        proof {
            assert(list@.skip(0) =~= list@);
        }
        while i < list.len()
            invariant
                queue.wf(),
                queue@.len() == old(queue)@.len(),
                i <= list@.len(),
                list@ == self.watchers_of(x, event),
                enqueue_all(queue@, list@.skip(i as int), priorities@) == enqueue_all(
                    old(queue)@,
                    list@,
                    priorities@,
                ),
            decreases list.len() - i,
        {
            let propagator = list[i].propagator;
            proof {
                assert(list@.skip(i as int).drop_first() =~= list@.skip(i + 1));
                assert(list@.skip(i as int)[0] == list@[i as int]);
            }
            if (propagator.0 as usize) < priorities.len() {
                let priority = priorities[propagator.0 as usize];
                if (priority as usize) < queue.num_priority_levels() {
                    queue.enqueue_propagator(propagator, priority);
                }
            }
            i += 1;
        }
    }
}

} // verus!
