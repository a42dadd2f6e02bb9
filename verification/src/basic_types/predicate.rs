use vstd::prelude::*;
use crate::basic_types::domain_id::DomainId;

verus! {

/// An atomic statement about one variable, or one of the two constants.
#[derive(Clone, Copy, Debug, PartialEq, Eq, Hash, Structural)]
pub enum Predicate {
    /// `[x >= lower_bound]`
    LowerBound { domain_id: DomainId, lower_bound: i32 },
    /// `[x <= upper_bound]`
    UpperBound { domain_id: DomainId, upper_bound: i32 },
    /// `[x != not_equal_constant]`
    NotEqual { domain_id: DomainId, not_equal_constant: i32 },
    /// `[x == equality_constant]`
    Equal { domain_id: DomainId, equality_constant: i32 },
    True,
    False,
}

impl Predicate {
    /// The variable the predicate speaks of; the constants speak of none.
    pub open spec fn domain(self) -> Option<DomainId> {
        match self {
            Predicate::LowerBound { domain_id, .. } => Some(domain_id),
            Predicate::UpperBound { domain_id, .. } => Some(domain_id),
            Predicate::NotEqual { domain_id, .. } => Some(domain_id),
            Predicate::Equal { domain_id, .. } => Some(domain_id),
            Predicate::True => None,
            Predicate::False => None,
        }
    }

    /// Whether the predicate is true when its variable takes `value`.
    pub open spec fn holds_for(self, value: int) -> bool {
        match self {
            Predicate::LowerBound { lower_bound, .. } => value >= lower_bound,
            Predicate::UpperBound { upper_bound, .. } => value <= upper_bound,
            Predicate::NotEqual { not_equal_constant, .. } => value != not_equal_constant,
            Predicate::Equal { equality_constant, .. } => value == equality_constant,
            Predicate::True => true,
            Predicate::False => false,
        }
    }

    pub fn trivially_true() -> (r: Predicate)
        ensures
            r == Predicate::True,
    {
        Predicate::True
    }

    pub fn trivially_false() -> (r: Predicate)
        ensures
            r == Predicate::False,
    {
        Predicate::False
    }

    pub fn get_domain(&self) -> (r: Option<DomainId>)
        ensures
            r == self.domain(),
    {
        match self {
            Predicate::LowerBound { domain_id, .. } => Some(*domain_id),
            Predicate::UpperBound { domain_id, .. } => Some(*domain_id),
            Predicate::NotEqual { domain_id, .. } => Some(*domain_id),
            Predicate::Equal { domain_id, .. } => Some(*domain_id),
            Predicate::True => None,
            Predicate::False => None,
        }
    }

    /// The negation: the opposite bound, one step further; equality for
    /// disequality and the other way round; and each constant for the
    /// other. A bound that every `i32` meets has the constant `False` as
    /// its negation.
    pub open spec fn negation(self) -> Predicate {
        match self {
            Predicate::LowerBound { domain_id, lower_bound } => if lower_bound == i32::MIN {
                Predicate::False
            } else {
                Predicate::UpperBound { domain_id, upper_bound: (lower_bound - 1) as i32 }
            },
            Predicate::UpperBound { domain_id, upper_bound } => if upper_bound == i32::MAX {
                Predicate::False
            } else {
                Predicate::LowerBound { domain_id, lower_bound: (upper_bound + 1) as i32 }
            },
            Predicate::NotEqual { domain_id, not_equal_constant } => Predicate::Equal {
                domain_id,
                equality_constant: not_equal_constant,
            },
            Predicate::Equal { domain_id, equality_constant } => Predicate::NotEqual {
                domain_id,
                not_equal_constant: equality_constant,
            },
            Predicate::True => Predicate::False,
            Predicate::False => Predicate::True,
        }
    }

    /// The predicate that is true of exactly the `i32` values of which `self`
    /// is false. A bound that every `i32` meets has the constant `False` as
    /// its negation.
    pub fn negate(&self) -> (r: Predicate)
        ensures
            r == self.negation(),
            r.domain() == self.domain() || r == Predicate::False,
            forall|value: int|
                i32::MIN <= value <= i32::MAX ==> (#[trigger] r.holds_for(value)
                    <==> !self.holds_for(value)),
    {
        match self {
            Predicate::LowerBound { domain_id, lower_bound } => {
                if *lower_bound == i32::MIN {
                    Predicate::False
                } else {
                    Predicate::UpperBound { domain_id: *domain_id, upper_bound: *lower_bound - 1 }
                }
            },
            Predicate::UpperBound { domain_id, upper_bound } => {
                if *upper_bound == i32::MAX {
                    Predicate::False
                } else {
                    Predicate::LowerBound { domain_id: *domain_id, lower_bound: *upper_bound + 1 }
                }
            },
            Predicate::NotEqual { domain_id, not_equal_constant } => Predicate::Equal {
                domain_id: *domain_id,
                equality_constant: *not_equal_constant,
            },
            Predicate::Equal { domain_id, equality_constant } => Predicate::NotEqual {
                domain_id: *domain_id,
                not_equal_constant: *equality_constant,
            },
            Predicate::True => Predicate::False,
            Predicate::False => Predicate::True,
        }
    }
}

} // verus!
