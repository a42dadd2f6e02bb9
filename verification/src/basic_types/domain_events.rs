//! The kinds of change a domain can undergo, and sets of them.

use vstd::prelude::*;

verus! {

/// A kind of change to the domain of a variable.
#[derive(Clone, Copy, Debug, PartialEq, Eq, Hash, Structural)]
pub enum IntDomainEvent {
    /// The domain was reduced to one value.
    Assign,
    /// The lower bound was raised.
    LowerBound,
    /// The upper bound was lowered.
    UpperBound,
    /// A value between the bounds was removed.
    Hole,
}

/// An event as the engine hands it to a propagator, which asks its variable
/// what the event means for it.
#[derive(Clone, Copy, Debug, PartialEq, Eq, Structural)]
pub struct OpaqueDomainEvent(pub IntDomainEvent);

impl OpaqueDomainEvent {
    pub fn unwrap(self) -> (r: IntDomainEvent)
        ensures
            r == self.0,
    {
        self.0
    }
}

/// A set of events.
#[derive(Clone, Copy, Debug, PartialEq, Eq, Structural)]
pub struct DomainEvents {
    pub assign: bool,
    pub lower_bound: bool,
    pub upper_bound: bool,
    pub hole: bool,
}

impl DomainEvents {
    pub open spec fn has(self, event: IntDomainEvent) -> bool {
        match event {
            IntDomainEvent::Assign => self.assign,
            IntDomainEvent::LowerBound => self.lower_bound,
            IntDomainEvent::UpperBound => self.upper_bound,
            IntDomainEvent::Hole => self.hole,
        }
    }

    /// The set with the two bound events exchanged.
    pub open spec fn spec_swapped_bounds(self) -> DomainEvents {
        DomainEvents {
            assign: self.assign,
            lower_bound: self.upper_bound,
            upper_bound: self.lower_bound,
            hole: self.hole,
        }
    }

    /// No event.
    pub fn empty() -> (r: DomainEvents)
        ensures
            r == (DomainEvents { assign: false, lower_bound: false, upper_bound: false, hole: false }),
    {
        DomainEvents { assign: false, lower_bound: false, upper_bound: false, hole: false }
    }

    /// Every event.
    pub fn any_int() -> (r: DomainEvents)
        ensures
            r == (DomainEvents { assign: true, lower_bound: true, upper_bound: true, hole: true }),
    {
        DomainEvents { assign: true, lower_bound: true, upper_bound: true, hole: true }
    }

    /// The two bound events.
    pub fn bounds() -> (r: DomainEvents)
        ensures
            r == (DomainEvents { assign: false, lower_bound: true, upper_bound: true, hole: false }),
    {
        DomainEvents { assign: false, lower_bound: true, upper_bound: true, hole: false }
    }

    /// The set of one event.
    pub fn only(event: IntDomainEvent) -> (r: DomainEvents)
        ensures
            r == (DomainEvents {
                assign: event == IntDomainEvent::Assign,
                lower_bound: event == IntDomainEvent::LowerBound,
                upper_bound: event == IntDomainEvent::UpperBound,
                hole: event == IntDomainEvent::Hole,
            }),
    {
        match event {
            IntDomainEvent::Assign => DomainEvents {
                assign: true,
                lower_bound: false,
                upper_bound: false,
                hole: false,
            },
            IntDomainEvent::LowerBound => DomainEvents {
                assign: false,
                lower_bound: true,
                upper_bound: false,
                hole: false,
            },
            IntDomainEvent::UpperBound => DomainEvents {
                assign: false,
                lower_bound: false,
                upper_bound: true,
                hole: false,
            },
            IntDomainEvent::Hole => DomainEvents {
                assign: false,
                lower_bound: false,
                upper_bound: false,
                hole: true,
            },
        }
    }

    pub fn contains(&self, event: IntDomainEvent) -> (r: bool)
        ensures
            r == self.has(event),
    {
        match event {
            IntDomainEvent::Assign => self.assign,
            IntDomainEvent::LowerBound => self.lower_bound,
            IntDomainEvent::UpperBound => self.upper_bound,
            IntDomainEvent::Hole => self.hole,
        }
    }

    /// The set with the two bound events exchanged.
    pub fn swapped_bounds(&self) -> (r: DomainEvents)
        ensures
            r == self.spec_swapped_bounds(),
    {
        DomainEvents {
            assign: self.assign,
            lower_bound: self.upper_bound,
            upper_bound: self.lower_bound,
            hole: self.hole,
        }
    }
}

} // verus!
