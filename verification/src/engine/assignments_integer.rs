use vstd::prelude::*;
use crate::basic_types::domain_id::DomainId;
use crate::basic_types::predicate::Predicate;
use crate::engine::assignments_view::AssignmentsView;
use crate::engine::assignments_view::EmptyDomain;
use crate::engine::assignments_view::ReasonRef;
use crate::engine::assignments_view::TrailEntry;
use crate::engine::assignments_view::first_free_at_or_above;
use crate::engine::assignments_view::first_free_at_or_below;
use crate::engine::assignments_view::apply_to_domain;
use crate::engine::assignments_view::lemma_contains_iff_no_hole;
use crate::engine::assignments_view::lemma_grow;
use crate::engine::assignments_view::lemma_with_level;
use crate::engine::assignments_view::lemma_first_free_at_or_above;
use crate::engine::assignments_view::lemma_first_free_at_or_below;
use crate::engine::assignments_view::lemma_pop_entry;
use crate::engine::assignments_view::lemma_push_entry;
use crate::engine::assignments_view::lemma_trail_length_at_level;

verus! {

/// The current domain of one variable, with the bounds it started from.
pub struct IntegerDomain {
    initial_lower_bound: i32,
    initial_upper_bound: i32,
    lower_bound: i32,
    upper_bound: i32,
    /// The interior values removed so far, oldest first.
    holes: Vec<i32>,
}

/// The integer-domain store: the domain of every variable and the trail of
/// the changes that led to them.
pub struct AssignmentsInteger {
    domains: Vec<IntegerDomain>,
    trail: Vec<TrailEntry>,
    decision_level: u32,
}

/// Whether `value` occurs in `values`.
fn contains_value(values: &Vec<i32>, value: i32) -> (r: bool)
    ensures
        r == values@.contains(value),
{
    let mut i: usize = 0;
    while i < values.len()
        invariant
            i <= values.len(),
            forall|k: int| 0 <= k < i ==> values@[k] != value,
        decreases values.len() - i,
    {
        if values[i] == value {
            return true;
        }
        i += 1;
    }
    false
}

impl View for AssignmentsInteger {
    type V = AssignmentsView;

    closed spec fn view(&self) -> AssignmentsView {
        AssignmentsView {
            initial_bounds: Seq::new(
                self.domains@.len(),
                |i: int| (self.domains@[i].initial_lower_bound, self.domains@[i].initial_upper_bound),
            ),
            trail: self.trail@,
            decision_level: self.decision_level,
        }
    }
}

impl AssignmentsInteger {
    /// The stored bounds and holes of variable `i` are those the trail gives.
    spec fn domain_matches(&self, i: int) -> bool {
        let state = self@.state(DomainId { id: i as u32 });
        &&& self.domains@[i].lower_bound == state.lower_bound
        &&& self.domains@[i].upper_bound == state.upper_bound
        &&& self.domains@[i].holes@ == state.holes
    }

    /// The store's invariant: the trail is well-formed and the stored domains
    /// are the ones it gives.
    pub closed spec fn wf(&self) -> bool {
        &&& self@.wf()
        &&& forall|i: int| 0 <= i < self.domains@.len() ==> #[trigger] self.domain_matches(i)
    }

    /// With a well-formed store, so is its view.
    pub proof fn lemma_view_wf(&self)
        requires
            self.wf(),
        ensures
            self@.wf(),
    {
    }

    pub fn new() -> (r: AssignmentsInteger)
        ensures
            r.wf(),
            r@.initial_bounds.len() == 0,
            r@.trail.len() == 0,
            r@.decision_level == 0,
    {
        AssignmentsInteger { domains: Vec::new(), trail: Vec::new(), decision_level: 0 }
    }

    pub fn num_domains(&self) -> (r: u32)
        requires
            self.wf(),
        ensures
            r == self@.num_domains(),
    {
        self.domains.len() as u32
    }

    /// The variables of the store, in the order of their creation.
    pub fn get_domains(&self) -> (r: Vec<DomainId>)
        requires
            self.wf(),
        ensures
            r@.len() == self@.num_domains(),
            forall|i: int| 0 <= i < r@.len() ==> (#[trigger] r@[i]).id == i,
    {
        let mut domains: Vec<DomainId> = Vec::new();
        let mut i: u32 = 0;
        let count = self.num_domains();
        while i < count
            invariant
                i <= count,
                domains@.len() == i,
                forall|k: int| 0 <= k < i ==> (#[trigger] domains@[k]).id == k,
            decreases count - i,
        {
            domains.push(DomainId { id: i });
            i += 1;
        }
        domains
    }

    pub fn get_decision_level(&self) -> (r: u32)
        ensures
            r == self@.decision_level,
    {
        self.decision_level
    }

    pub fn num_trail_entries(&self) -> (r: usize)
        ensures
            r == self@.trail.len(),
    {
        self.trail.len()
    }

    pub fn get_trail_entry(&self, index: usize) -> (r: TrailEntry)
        requires
            index < self@.trail.len(),
        ensures
            r == self@.trail[index as int],
    {
        self.trail[index]
    }

    pub fn get_lower_bound(&self, x: DomainId) -> (r: i32)
        requires
            self.wf(),
            self@.is_valid_domain(x),
        ensures
            r == self@.lower_bound(x),
    {
        assert(self.domain_matches(x.id as int));
        self.domains[x.id as usize].lower_bound
    }

    pub fn get_upper_bound(&self, x: DomainId) -> (r: i32)
        requires
            self.wf(),
            self@.is_valid_domain(x),
        ensures
            r == self@.upper_bound(x),
    {
        assert(self.domain_matches(x.id as int));
        self.domains[x.id as usize].upper_bound
    }

    pub fn get_initial_lower_bound(&self, x: DomainId) -> (r: i32)
        requires
            self.wf(),
            self@.is_valid_domain(x),
        ensures
            r == self@.initial_lower_bound(x),
    {
        self.domains[x.id as usize].initial_lower_bound
    }

    pub fn get_initial_upper_bound(&self, x: DomainId) -> (r: i32)
        requires
            self.wf(),
            self@.is_valid_domain(x),
        ensures
            r == self@.initial_upper_bound(x),
    {
        self.domains[x.id as usize].initial_upper_bound
    }

    pub fn is_value_in_domain(&self, x: DomainId, value: i32) -> (r: bool)
        requires
            self.wf(),
            self@.is_valid_domain(x),
        ensures
            r == self@.contains(x, value as int),
    {
        assert(self.domain_matches(x.id as int));
        proof {
            lemma_contains_iff_no_hole(self@.state(x), value);
        }
        let domain = &self.domains[x.id as usize];
        domain.lower_bound <= value && value <= domain.upper_bound && !contains_value(
            &domain.holes,
            value,
        )
    }

    /// The number of interior values removed from the domain of `x`.
    pub fn get_num_holes(&self, x: DomainId) -> (r: usize)
        requires
            self.wf(),
            self@.is_valid_domain(x),
        ensures
            r == self@.state(x).holes.len(),
    {
        assert(self.domain_matches(x.id as int));
        self.domains[x.id as usize].holes.len()
    }

    pub fn is_domain_assigned(&self, x: DomainId) -> (r: bool)
        requires
            self.wf(),
            self@.is_valid_domain(x),
        ensures
            r == (self@.lower_bound(x) == self@.upper_bound(x)),
    {
        self.get_lower_bound(x) == self.get_upper_bound(x)
    }
}

impl AssignmentsInteger {
    /// Adds a variable with the domain `lower..=upper` and returns its handle.
    pub fn grow(&mut self, lower: i32, upper: i32) -> (r: DomainId)
        requires
            old(self).wf(),
            lower <= upper,
            old(self)@.num_domains() < u32::MAX,
        ensures
            final(self).wf(),
            r.id == old(self)@.num_domains(),
            final(self)@ == old(self)@.grow(lower, upper),
            final(self)@.lower_bound(r) == lower,
            final(self)@.upper_bound(r) == upper,
    {
        let ghost before = self@;
        let id = self.domains.len() as u32;
        proof {
            lemma_grow(before, lower, upper);
        }
        self.domains.push(
            IntegerDomain {
                initial_lower_bound: lower,
                initial_upper_bound: upper,
                lower_bound: lower,
                upper_bound: upper,
                holes: Vec::new(),
            },
        );
        proof {
            assert(self@.initial_bounds =~= before.initial_bounds.push((lower, upper)));
            assert(self@ == before.grow(lower, upper));
            assert forall|i: int| 0 <= i < self.domains@.len() implies #[trigger] self.domain_matches(
                i,
            ) by {
                let x = DomainId { id: i as u32 };
                if i < id {
                    assert(old(self).domain_matches(i));
                    assert(self@.state_at(x, before.trail.len()) == before.state_at(
                        x,
                        before.trail.len(),
                    ));
                } else {
                    assert(self@.state_at(x, before.trail.len()).holes =~= self.domains@[i].holes@);
                }
            }
        }
        DomainId { id }
    }

    /// Opens a new decision level.
    pub fn increase_decision_level(&mut self)
        requires
            old(self).wf(),
            old(self)@.decision_level < u32::MAX,
        ensures
            final(self).wf(),
            final(self)@ == old(self)@.with_level((old(self)@.decision_level + 1) as u32),
    {
        let ghost before = self@;
        proof {
            assert forall|i: int| 0 <= i < before.trail.len() implies (
            #[trigger] before.trail[i]).decision_level <= before.decision_level + 1 by {
                assert(before.entry_ok(i));
            }
            lemma_with_level(before, (before.decision_level + 1) as u32);
        }
        self.decision_level = self.decision_level + 1;
        proof {
            assert(self@.initial_bounds =~= before.initial_bounds);
            assert forall|i: int| 0 <= i < self.domains@.len() implies #[trigger] self.domain_matches(
                i,
            ) by {
                assert(old(self).domain_matches(i));
                let x = DomainId { id: i as u32 };
                assert(self@.state_at(x, before.trail.len()) == before.state_at(
                    x,
                    before.trail.len(),
                ));
            }
        }
    }

    /// The lower bound `x` had after the first `n` trail entries.
    pub fn get_lower_bound_after(&self, x: DomainId, n: usize) -> (r: i32)
        requires
            self.wf(),
            self@.is_valid_domain(x),
            n <= self@.trail.len(),
        ensures
            r == self@.lower_bound_at(x, n as nat),
    {
        let mut i = n;
        while i < self.trail.len()
            invariant
                self.wf(),
                self@.is_valid_domain(x),
                n <= i <= self.trail@.len(),
                self.trail@ == self@.trail,
                self@.state_at(x, i as nat).lower_bound == self@.state_at(x, n as nat).lower_bound,
            decreases self.trail.len() - i,
        {
            let entry = self.trail[i];
            assert(self@.entry_ok(i as int));
            match entry.predicate.get_domain() {
                Some(y) => {
                    if y == x {
                        return entry.old_lower_bound;
                    }
                },
                None => {},
            }
            i += 1;
        }
        assert(self.domain_matches(x.id as int));
        self.domains[x.id as usize].lower_bound
    }

    /// The upper bound `x` had after the first `n` trail entries.
    pub fn get_upper_bound_after(&self, x: DomainId, n: usize) -> (r: i32)
        requires
            self.wf(),
            self@.is_valid_domain(x),
            n <= self@.trail.len(),
        ensures
            r == self@.upper_bound_at(x, n as nat),
    {
        let mut i = n;
        while i < self.trail.len()
            invariant
                self.wf(),
                self@.is_valid_domain(x),
                n <= i <= self.trail@.len(),
                self.trail@ == self@.trail,
                self@.state_at(x, i as nat).upper_bound == self@.state_at(x, n as nat).upper_bound,
            decreases self.trail.len() - i,
        {
            let entry = self.trail[i];
            assert(self@.entry_ok(i as int));
            match entry.predicate.get_domain() {
                Some(y) => {
                    if y == x {
                        return entry.old_upper_bound;
                    }
                },
                None => {},
            }
            i += 1;
        }
        assert(self.domain_matches(x.id as int));
        self.domains[x.id as usize].upper_bound
    }

    /// The domain of `x` in predicates: its two bounds, and behind them
    /// every value between them that is missing.
    pub fn get_domain_description(&self, x: DomainId) -> (r: Vec<Predicate>)
        requires
            self.wf(),
            self@.is_valid_domain(x),
        ensures
            r@ == self@.domain_description(x),
    {
        let lower = self.get_lower_bound(x);
        let upper = self.get_upper_bound(x);
        let mut predicates: Vec<Predicate> = Vec::new();
        predicates.push(Predicate::LowerBound { domain_id: x, lower_bound: lower });
        predicates.push(Predicate::UpperBound { domain_id: x, upper_bound: upper });
        let ghost bounds = predicates@;
        proof {
            self.lemma_view_wf();
            assert(self@.state_at(x, self@.trail.len()).consistent());
        }
        if lower < upper {
            let mut value: i32 = lower + 1;
            while value < upper
                invariant
                    self.wf(),
                    self@.is_valid_domain(x),
                    lower < value <= upper,
                    lower == self@.lower_bound(x),
                    predicates@ == bounds + self@.holes_between(x, lower + 1, value as int),
                decreases upper - value,
            {
                if !self.is_value_in_domain(x, value) {
                    predicates.push(Predicate::NotEqual { domain_id: x, not_equal_constant: value });
                }
                proof {
                    assert(predicates@ =~= bounds + self@.holes_between(x, lower + 1, value + 1));
                }
                value += 1;
            }
        }
        proof {
            assert(predicates@ =~= self@.domain_description(x));
        }
        predicates
    }

    /// The number of trail entries that a reading at `trail_position` takes
    /// in.
    pub fn num_entries_up_to(&self, trail_position: usize) -> (r: usize)
        ensures
            r == self@.entries_up_to(trail_position),
            r <= self@.trail.len(),
    {
        assert(self@.trail.len() == self.trail.len());
        if trail_position < self.trail.len() {
            trail_position + 1
        } else {
            self.trail.len()
        }
    }

    /// The lower bound that was in effect immediately after trail entry
    /// `trail_position`, or now where the trail ends before that position.
    pub fn get_lower_bound_at_trail_position(&self, x: DomainId, trail_position: usize) -> (r: i32)
        requires
            self.wf(),
            self@.is_valid_domain(x),
        ensures
            r == self@.lower_bound_at(x, self@.entries_up_to(trail_position)),
    {
        let n = self.num_entries_up_to(trail_position);
        self.get_lower_bound_after(x, n)
    }

    /// The upper bound that was in effect immediately after trail entry
    /// `trail_position`, or now where the trail ends before that position.
    pub fn get_upper_bound_at_trail_position(&self, x: DomainId, trail_position: usize) -> (r: i32)
        requires
            self.wf(),
            self@.is_valid_domain(x),
        ensures
            r == self@.upper_bound_at(x, self@.entries_up_to(trail_position)),
    {
        let n = self.num_entries_up_to(trail_position);
        self.get_upper_bound_after(x, n)
    }

    /// Writes `entry` and gives its variable the bounds `lower` and `upper`.
    fn record_bounds(&mut self, x: DomainId, entry: TrailEntry, lower: i32, upper: i32)
        requires
            old(self).wf(),
            old(self)@.accepts(entry),
            entry.predicate.domain() == Some(x),
            !(entry.predicate is NotEqual),
            lower == apply_to_domain(old(self)@.state(x), entry.predicate, x).lower_bound,
            upper == apply_to_domain(old(self)@.state(x), entry.predicate, x).upper_bound,
        ensures
            final(self).wf(),
            final(self)@ == old(self)@.push(entry),
    {
        let ghost before = self@;
        proof {
            lemma_push_entry(before, entry);
        }
        self.trail.push(entry);
        self.domains[x.id as usize].lower_bound = lower;
        self.domains[x.id as usize].upper_bound = upper;
        proof {
            assert(self@.initial_bounds =~= before.initial_bounds);
            assert(self@ == before.push(entry));
            assert forall|i: int| 0 <= i < self.domains@.len() implies #[trigger] self.domain_matches(
                i,
            ) by {
                assert(old(self).domain_matches(i));
                let y = DomainId { id: i as u32 };
                assert(before.is_valid_domain(y));
                assert(self@.state(y) == apply_to_domain(before.state(y), entry.predicate, y));
            }
        }
    }

    /// Raises the lower bound of `x` to the smallest value of its domain that
    /// is at least `value`. Fails, changing nothing, when `value` is above the
    /// upper bound.
    pub fn tighten_lower_bound(&mut self, x: DomainId, value: i32, reason: Option<ReasonRef>) -> (r:
        Result<(), EmptyDomain>)
        requires
            old(self).wf(),
            old(self)@.is_valid_domain(x),
        ensures
            final(self).wf(),
            (final(self)@, r is Ok) == old(self)@.tighten_lower_bound(x, value, reason),
    {
        let index = x.id as usize;
        assert(self.domain_matches(index as int));
        let lower = self.domains[index].lower_bound;
        let upper = self.domains[index].upper_bound;
        if value > upper {
            return Err(EmptyDomain);
        }
        if value <= lower {
            return Ok(());
        }
        let ghost holes = self.domains@[index as int].holes@;
        proof {
            assert(self@.state(x).consistent());
            lemma_contains_iff_no_hole(self@.state(x), upper);
            lemma_first_free_at_or_above(holes, value as int, upper as int);
        }
        let mut candidate = value;
        while candidate < upper && contains_value(&self.domains[index].holes, candidate)
            invariant
                index < self.domains@.len(),
                self.domains@[index as int].holes@ == holes,
                value <= candidate <= upper,
                first_free_at_or_above(holes, value as int, upper as int) == first_free_at_or_above(
                    holes,
                    candidate as int,
                    upper as int,
                ),
            decreases upper - candidate,
        {
            candidate += 1;
        }
        let entry = TrailEntry {
            predicate: Predicate::LowerBound { domain_id: x, lower_bound: value },
            reason,
            decision_level: self.decision_level,
            old_lower_bound: lower,
            old_upper_bound: upper,
        };
        self.record_bounds(x, entry, candidate, upper);
        Ok(())
    }

    /// Lowers the upper bound of `x` to the largest value of its domain that
    /// is at most `value`. Fails, changing nothing, when `value` is below the
    /// lower bound.
    pub fn tighten_upper_bound(&mut self, x: DomainId, value: i32, reason: Option<ReasonRef>) -> (r:
        Result<(), EmptyDomain>)
        requires
            old(self).wf(),
            old(self)@.is_valid_domain(x),
        ensures
            final(self).wf(),
            (final(self)@, r is Ok) == old(self)@.tighten_upper_bound(x, value, reason),
    {
        let index = x.id as usize;
        assert(self.domain_matches(index as int));
        let lower = self.domains[index].lower_bound;
        let upper = self.domains[index].upper_bound;
        if value < lower {
            return Err(EmptyDomain);
        }
        if value >= upper {
            return Ok(());
        }
        let ghost holes = self.domains@[index as int].holes@;
        proof {
            assert(self@.state(x).consistent());
            lemma_contains_iff_no_hole(self@.state(x), lower);
            lemma_first_free_at_or_below(holes, value as int, lower as int);
        }
        let mut candidate = value;
        while candidate > lower && contains_value(&self.domains[index].holes, candidate)
            invariant
                index < self.domains@.len(),
                self.domains@[index as int].holes@ == holes,
                lower <= candidate <= value,
                first_free_at_or_below(holes, value as int, lower as int) == first_free_at_or_below(
                    holes,
                    candidate as int,
                    lower as int,
                ),
            decreases candidate - lower,
        {
            candidate -= 1;
        }
        let entry = TrailEntry {
            predicate: Predicate::UpperBound { domain_id: x, upper_bound: value },
            reason,
            decision_level: self.decision_level,
            old_lower_bound: lower,
            old_upper_bound: upper,
        };
        self.record_bounds(x, entry, lower, candidate);
        Ok(())
    }

    /// Removes `value` from the domain of `x`. A value outside the domain is
    /// left alone; the last value of a domain cannot be removed; a bound moves
    /// to the next value of the domain; an interior value becomes a hole.
    pub fn remove_value_from_domain(&mut self, x: DomainId, value: i32, reason: Option<ReasonRef>) -> (r:
        Result<(), EmptyDomain>)
        requires
            old(self).wf(),
            old(self)@.is_valid_domain(x),
        ensures
            final(self).wf(),
            (final(self)@, r is Ok) == old(self)@.remove_value(x, value, reason),
    {
        if !self.is_value_in_domain(x, value) {
            return Ok(());
        }
        let lower = self.get_lower_bound(x);
        let upper = self.get_upper_bound(x);
        if lower == upper {
            return Err(EmptyDomain);
        }
        if value == lower {
            self.tighten_lower_bound(x, value + 1, reason)
        } else if value == upper {
            self.tighten_upper_bound(x, value - 1, reason)
        } else {
            let ghost before = self@;
            let entry = TrailEntry {
                predicate: Predicate::NotEqual { domain_id: x, not_equal_constant: value },
                reason,
                decision_level: self.decision_level,
                old_lower_bound: lower,
                old_upper_bound: upper,
            };
            proof {
                lemma_push_entry(before, entry);
            }
            self.trail.push(entry);
            self.domains[x.id as usize].holes.push(value);
            proof {
                assert(self@.initial_bounds =~= before.initial_bounds);
                assert(self@ == before.push(entry));
                assert forall|i: int| 0 <= i < self.domains@.len() implies #[trigger] self.domain_matches(
                    i,
                ) by {
                    assert(old(self).domain_matches(i));
                    let y = DomainId { id: i as u32 };
                    assert(before.is_valid_domain(y));
                    assert(self@.state(y) == apply_to_domain(before.state(y), entry.predicate, y));
                }
            }
            Ok(())
        }
    }

    /// Fixes `x` to `value`. Fails, changing nothing, when `value` is not in
    /// the domain.
    pub fn make_assignment(&mut self, x: DomainId, value: i32, reason: Option<ReasonRef>) -> (r: Result<
        (),
        EmptyDomain,
    >)
        requires
            old(self).wf(),
            old(self)@.is_valid_domain(x),
        ensures
            final(self).wf(),
            (final(self)@, r is Ok) == old(self)@.make_assignment(x, value, reason),
            r is Ok ==> final(self)@.lower_bound(x) == value && final(self)@.upper_bound(x) == value,
    {
        if !self.is_value_in_domain(x, value) {
            return Err(EmptyDomain);
        }
        let ghost before = self@;
        proof {
            lemma_assignment_bounds(before, x, value, reason);
        }
        let first = self.tighten_lower_bound(x, value, reason);
        let second = self.tighten_upper_bound(x, value, reason);
        Ok(())
    }

    /// Whether `predicate` held, by the bounds alone, after the first `n`
    /// trail entries.
    pub fn does_predicate_hold_after(&self, predicate: &Predicate, n: usize) -> (r: bool)
        requires
            self.wf(),
            predicate.domain() is Some ==> self@.is_valid_domain(predicate.domain()->0),
            n <= self@.trail.len(),
        ensures
            r == self@.predicate_holds_at(*predicate, n as nat),
    {
        match predicate {
            Predicate::LowerBound { domain_id, lower_bound } => self.get_lower_bound_after(
                *domain_id,
                n,
            ) >= *lower_bound,
            Predicate::UpperBound { domain_id, upper_bound } => self.get_upper_bound_after(
                *domain_id,
                n,
            ) <= *upper_bound,
            Predicate::NotEqual { domain_id, not_equal_constant } => *not_equal_constant
                < self.get_lower_bound_after(*domain_id, n) || *not_equal_constant
                > self.get_upper_bound_after(*domain_id, n),
            Predicate::Equal { domain_id, equality_constant } => self.get_lower_bound_after(
                *domain_id,
                n,
            ) == *equality_constant && self.get_upper_bound_after(*domain_id, n)
                == *equality_constant,
            Predicate::True => true,
            Predicate::False => false,
        }
    }

    /// Whether `predicate` holds of every value left for its variable.
    pub fn does_predicate_hold(&self, predicate: &Predicate) -> (r: bool)
        requires
            self.wf(),
            predicate.domain() is Some ==> self@.is_valid_domain(predicate.domain()->0),
        ensures
            r == self@.predicate_holds(*predicate),
    {
        match predicate {
            Predicate::LowerBound { domain_id, lower_bound } => self.get_lower_bound(*domain_id)
                >= *lower_bound,
            Predicate::UpperBound { domain_id, upper_bound } => self.get_upper_bound(*domain_id)
                <= *upper_bound,
            Predicate::NotEqual { domain_id, not_equal_constant } => !self.is_value_in_domain(
                *domain_id,
                *not_equal_constant,
            ),
            Predicate::Equal { domain_id, equality_constant } => self.get_lower_bound(*domain_id)
                == *equality_constant && self.get_upper_bound(*domain_id) == *equality_constant,
            Predicate::True => true,
            Predicate::False => false,
        }
    }
}

impl AssignmentsInteger {
    /// The number of trail entries of levels up to `level`: the trail length
    /// that backtracking to `level` leaves.
    pub fn get_trail_length_at_level(&self, level: u32) -> (r: usize)
        requires
            self.wf(),
        ensures
            r == self@.trail_length_at_level(level),
    {
        let mut n = self.trail.len();
        proof {
            assert(self@.trail.take(n as int) =~= self@.trail);
        }
        while n > 0 && self.trail[n - 1].decision_level > level
            invariant
                n <= self.trail@.len(),
                self.trail@ == self@.trail,
                self@.truncate(n as int).trail_length_at_level(level)
                    == self@.trail_length_at_level(level),
            decreases n,
        {
            proof {
                let longer = self@.truncate(n as int);
                assert(longer.pop().trail =~= self@.trail.take(n - 1));
                assert(longer.pop() == self@.truncate(n - 1));
            }
            n -= 1;
        }
        n
    }

    /// Backtracks to `level`: undoes, newest first, every trail entry of a
    /// higher level.
    pub fn synchronise(&mut self, level: u32)
        requires
            old(self).wf(),
        ensures
            final(self).wf(),
            final(self)@ == old(self)@.synchronise(level),
    {
        let ghost start = self@;
        proof {
            assert(start.trail.take(start.trail.len() as int) =~= start.trail);
        }
        while self.trail.len() > 0 && self.trail[self.trail.len() - 1].decision_level > level
            invariant
                self.wf(),
                self@.initial_bounds == start.initial_bounds,
                self@.decision_level == start.decision_level,
                self@.trail.len() <= start.trail.len(),
                self@.trail == start.trail.take(self@.trail.len() as int),
                self@.trail == self.trail@,
                self@.trail_length_at_level(level) == start.trail_length_at_level(level),
            decreases self.trail.len(),
        {
            let ghost snapshot = *self;
            let ghost before = self@;
            proof {
                lemma_pop_entry(before);
                assert(before.entry_ok(before.trail.len() - 1));
                let y = before.trail.last().predicate.domain()->0;
                assert(snapshot.domain_matches(y.id as int));
            }
            let entry = self.trail.pop().unwrap();
            match entry.predicate {
                Predicate::LowerBound { domain_id, .. } => {
                    self.domains[domain_id.id as usize].lower_bound = entry.old_lower_bound;
                    self.domains[domain_id.id as usize].upper_bound = entry.old_upper_bound;
                },
                Predicate::UpperBound { domain_id, .. } => {
                    self.domains[domain_id.id as usize].lower_bound = entry.old_lower_bound;
                    self.domains[domain_id.id as usize].upper_bound = entry.old_upper_bound;
                },
                Predicate::NotEqual { domain_id, .. } => {
                    assert(before.state(domain_id).holes.len() > 0);
                    let hole = self.domains[domain_id.id as usize].holes.pop();
                },
                _ => {},
            }
            proof {
                assert(self@.initial_bounds =~= before.initial_bounds);
                assert(self@ == before.pop());
                assert(self@.trail =~= start.trail.take(self@.trail.len() as int));
                assert forall|i: int| 0 <= i < self.domains@.len() implies #[trigger] self.domain_matches(
                    i,
                ) by {
                    let y = DomainId { id: i as u32 };
                    assert(snapshot.domain_matches(i));
                    assert(before.is_valid_domain(y));
                    assert(self@.state(y) == before.state_at(y, (before.trail.len() - 1) as nat));
                    assert(before.state(y) == apply_to_domain(
                        before.state_at(y, (before.trail.len() - 1) as nat),
                        entry.predicate,
                        y,
                    ));
                    if entry.predicate is NotEqual && entry.predicate.domain() == Some(y) {
                        assert(before.state(y).holes.drop_last() =~= self@.state(y).holes);
                    }
                }
            }
        }
        let ghost middle = self@;
        let ghost snapshot = *self;
        proof {
            lemma_trail_length_at_level(middle, level);
            assert(middle.trail_length_at_level(level) == middle.trail.len());
        }
        if level < self.decision_level {
            proof {
                lemma_with_level(middle, level);
            }
            self.decision_level = level;
            proof {
                assert(self@.initial_bounds =~= middle.initial_bounds);
                assert(self@ == middle.with_level(level));
                assert forall|i: int| 0 <= i < self.domains@.len() implies #[trigger] self.domain_matches(
                    i,
                ) by {
                    let y = DomainId { id: i as u32 };
                    assert(snapshot.domain_matches(i));
                    assert(middle.is_valid_domain(y));
                    assert(self@.state_at(y, middle.trail.len()) == middle.state_at(
                        y,
                        middle.trail.len(),
                    ));
                }
            }
        }
    }
}

/// Tightening both bounds to a value of the domain leaves exactly that value.
pub proof fn lemma_assignment_bounds(s: AssignmentsView, x: DomainId, value: i32, reason: Option<ReasonRef>)
    requires
        s.wf(),
        s.is_valid_domain(x),
        s.contains(x, value as int),
    ensures
        s.tighten_lower_bound(x, value, reason).0.wf(),
        s.tighten_lower_bound(x, value, reason).0.lower_bound(x) == value,
        s.tighten_lower_bound(x, value, reason).0.upper_bound(x) == s.upper_bound(x),
        s.make_assignment(x, value, reason).0.wf(),
        s.make_assignment(x, value, reason).0.lower_bound(x) == value,
        s.make_assignment(x, value, reason).0.upper_bound(x) == value,
{
    let state = s.state(x);
    assert(state.consistent());
    lemma_contains_iff_no_hole(state, value);
    let a = s.tighten_lower_bound(x, value, reason).0;
    if value > s.lower_bound(x) {
        lemma_push_entry(s, s.lower_bound_entry(x, value, reason));
        assert(a.state(x) == apply_to_domain(state, s.lower_bound_entry(x, value, reason).predicate, x));
    }
    let mid = a.state(x);
    assert(mid.holes == state.holes);
    let b = a.tighten_upper_bound(x, value, reason).0;
    if value < a.upper_bound(x) {
        lemma_push_entry(a, a.upper_bound_entry(x, value, reason));
        assert(b.state(x) == apply_to_domain(mid, a.upper_bound_entry(x, value, reason).predicate, x));
    }
}

} // verus!
