use vstd::prelude::*;
use crate::basic_types::domain_id::DomainId;
use crate::basic_types::predicate::Predicate;

verus! {

/// Signals that an operation would have left a variable without values.
#[derive(Clone, Copy, Debug, PartialEq, Eq)]
pub struct EmptyDomain;

/// Reference to a stored reason.
#[derive(Clone, Copy, Debug, PartialEq, Eq, Hash, Structural)]
pub struct ReasonRef(pub usize);

/// One entry of the trail: the predicate that was applied, why, at which
/// decision level, and the bounds its variable had just before.
#[derive(Clone, Copy, Debug, PartialEq, Eq)]
pub struct TrailEntry {
    pub predicate: Predicate,
    /// `None` for a decision.
    pub reason: Option<ReasonRef>,
    pub decision_level: u32,
    pub old_lower_bound: i32,
    pub old_upper_bound: i32,
}

/// The domain of one variable as a mathematical value: the integers between
/// the two bounds, without the holes.
pub struct DomainState {
    pub lower_bound: i32,
    pub upper_bound: i32,
    pub holes: Seq<i32>,
}

impl DomainState {
    pub open spec fn contains(self, value: int) -> bool {
        &&& self.lower_bound <= value <= self.upper_bound
        &&& forall|k: int| 0 <= k < self.holes.len() ==> #[trigger] self.holes[k] != value
    }

    /// The bounds are ordered and are themselves values of the domain.
    pub open spec fn consistent(self) -> bool {
        &&& self.lower_bound <= self.upper_bound
        &&& self.contains(self.lower_bound as int)
        &&& self.contains(self.upper_bound as int)
    }
}

/// The smallest value from `from` upwards that is no hole; `limit` itself is
/// never skipped.
pub open spec fn first_free_at_or_above(holes: Seq<i32>, from: int, limit: int) -> int
    decreases limit - from,
{
    if from >= limit || !holes.contains(from as i32) {
        from
    } else {
        first_free_at_or_above(holes, from + 1, limit)
    }
}

/// The largest value from `from` downwards that is no hole; `limit` itself is
/// never skipped.
pub open spec fn first_free_at_or_below(holes: Seq<i32>, from: int, limit: int) -> int
    decreases from - limit,
{
    if from <= limit || !holes.contains(from as i32) {
        from
    } else {
        first_free_at_or_below(holes, from - 1, limit)
    }
}

/// What a predicate on the trail does to the domain of variable `x`.
pub open spec fn apply_to_domain(state: DomainState, predicate: Predicate, x: DomainId) -> DomainState {
    match predicate {
        Predicate::LowerBound { domain_id, lower_bound } => if domain_id == x && lower_bound
            > state.lower_bound {
            DomainState {
                lower_bound: first_free_at_or_above(
                    state.holes,
                    lower_bound as int,
                    state.upper_bound as int,
                ) as i32,
                ..state
            }
        } else {
            state
        },
        Predicate::UpperBound { domain_id, upper_bound } => if domain_id == x && upper_bound
            < state.upper_bound {
            DomainState {
                upper_bound: first_free_at_or_below(
                    state.holes,
                    upper_bound as int,
                    state.lower_bound as int,
                ) as i32,
                ..state
            }
        } else {
            state
        },
        Predicate::NotEqual { domain_id, not_equal_constant } => if domain_id == x {
            DomainState { holes: state.holes.push(not_equal_constant), ..state }
        } else {
            state
        },
        _ => state,
    }
}

/// The store as a mathematical value. Every domain, now and at every earlier
/// point, is a function of the initial bounds and the trail.
pub struct AssignmentsView {
    pub initial_bounds: Seq<(i32, i32)>,
    pub trail: Seq<TrailEntry>,
    pub decision_level: u32,
}

impl AssignmentsView {
    pub open spec fn num_domains(self) -> nat {
        self.initial_bounds.len()
    }

    pub open spec fn is_valid_domain(self, x: DomainId) -> bool {
        (x.id as int) < self.initial_bounds.len()
    }

    pub open spec fn initial_state(self, x: DomainId) -> DomainState {
        DomainState {
            lower_bound: self.initial_bounds[x.id as int].0,
            upper_bound: self.initial_bounds[x.id as int].1,
            holes: Seq::empty(),
        }
    }

    /// The domain of `x` after the first `n` trail entries.
    pub open spec fn state_at(self, x: DomainId, n: nat) -> DomainState
        decreases n,
    {
        if n == 0 {
            self.initial_state(x)
        } else {
            apply_to_domain(self.state_at(x, (n - 1) as nat), self.trail[n - 1].predicate, x)
        }
    }

    pub open spec fn state(self, x: DomainId) -> DomainState {
        self.state_at(x, self.trail.len())
    }

    pub open spec fn lower_bound(self, x: DomainId) -> int {
        self.state(x).lower_bound as int
    }

    pub open spec fn upper_bound(self, x: DomainId) -> int {
        self.state(x).upper_bound as int
    }

    pub open spec fn contains(self, x: DomainId, value: int) -> bool {
        self.state(x).contains(value)
    }

    pub open spec fn lower_bound_at(self, x: DomainId, n: nat) -> int {
        self.state_at(x, n).lower_bound as int
    }

    pub open spec fn upper_bound_at(self, x: DomainId, n: nat) -> int {
        self.state_at(x, n).upper_bound as int
    }

    pub open spec fn initial_lower_bound(self, x: DomainId) -> int {
        self.initial_bounds[x.id as int].0 as int
    }

    pub open spec fn initial_upper_bound(self, x: DomainId) -> int {
        self.initial_bounds[x.id as int].1 as int
    }

    /// Entry `i` names a variable of the store, records the bounds that
    /// variable had before it, and really removed something from its domain.
    pub open spec fn entry_ok(self, i: int) -> bool {
        let e = self.trail[i];
        &&& e.decision_level <= self.decision_level
        &&& i + 1 < self.trail.len() ==> e.decision_level <= self.trail[i + 1].decision_level
        &&& match e.predicate {
            Predicate::LowerBound { domain_id, lower_bound } => {
                let before = self.state_at(domain_id, i as nat);
                &&& self.is_valid_domain(domain_id)
                &&& e.old_lower_bound == before.lower_bound
                &&& e.old_upper_bound == before.upper_bound
                &&& before.lower_bound < lower_bound <= before.upper_bound
            },
            Predicate::UpperBound { domain_id, upper_bound } => {
                let before = self.state_at(domain_id, i as nat);
                &&& self.is_valid_domain(domain_id)
                &&& e.old_lower_bound == before.lower_bound
                &&& e.old_upper_bound == before.upper_bound
                &&& before.lower_bound <= upper_bound < before.upper_bound
            },
            Predicate::NotEqual { domain_id, not_equal_constant } => {
                let before = self.state_at(domain_id, i as nat);
                &&& self.is_valid_domain(domain_id)
                &&& e.old_lower_bound == before.lower_bound
                &&& e.old_upper_bound == before.upper_bound
                &&& before.lower_bound < not_equal_constant < before.upper_bound
                &&& before.contains(not_equal_constant as int)
            },
            _ => false,
        }
    }

    pub open spec fn wf(self) -> bool {
        &&& self.initial_bounds.len() <= u32::MAX
        &&& forall|k: int|
            0 <= k < self.initial_bounds.len() ==> (#[trigger] self.initial_bounds[k]).0
                <= self.initial_bounds[k].1
        &&& forall|i: int| 0 <= i < self.trail.len() ==> #[trigger] self.entry_ok(i)
        &&& forall|x: DomainId, n: nat|
            self.is_valid_domain(x) && n <= self.trail.len() ==> (#[trigger] self.state_at(
                x,
                n,
            )).consistent()
    }

    /// Whether `entry` may be written next: it is of the current level, names
    /// a variable of the store, records that variable's bounds, and removes
    /// something from its domain without emptying it.
    pub open spec fn accepts(self, entry: TrailEntry) -> bool {
        &&& entry.decision_level == self.decision_level
        &&& match entry.predicate {
            Predicate::LowerBound { domain_id, lower_bound } => {
                &&& self.is_valid_domain(domain_id)
                &&& entry.old_lower_bound == self.lower_bound(domain_id)
                &&& entry.old_upper_bound == self.upper_bound(domain_id)
                &&& self.lower_bound(domain_id) < lower_bound <= self.upper_bound(domain_id)
            },
            Predicate::UpperBound { domain_id, upper_bound } => {
                &&& self.is_valid_domain(domain_id)
                &&& entry.old_lower_bound == self.lower_bound(domain_id)
                &&& entry.old_upper_bound == self.upper_bound(domain_id)
                &&& self.lower_bound(domain_id) <= upper_bound < self.upper_bound(domain_id)
            },
            Predicate::NotEqual { domain_id, not_equal_constant } => {
                &&& self.is_valid_domain(domain_id)
                &&& entry.old_lower_bound == self.lower_bound(domain_id)
                &&& entry.old_upper_bound == self.upper_bound(domain_id)
                &&& self.lower_bound(domain_id) < not_equal_constant < self.upper_bound(domain_id)
                &&& self.contains(domain_id, not_equal_constant as int)
            },
            _ => false,
        }
    }

    /// The store with one more entry on the trail.
    pub open spec fn push(self, entry: TrailEntry) -> AssignmentsView {
        AssignmentsView { trail: self.trail.push(entry), ..self }
    }

    /// The store at another decision level.
    pub open spec fn with_level(self, level: u32) -> AssignmentsView {
        AssignmentsView { decision_level: level, ..self }
    }

    /// The store with one more variable, whose domain is `lower..=upper`.
    pub open spec fn grow(self, lower: i32, upper: i32) -> AssignmentsView {
        AssignmentsView { initial_bounds: self.initial_bounds.push((lower, upper)), ..self }
    }

    /// For every value from `from` up to, but not with, `to` that is not in
    /// the domain of `x`: that `x` is not that value; in ascending order.
    pub open spec fn holes_between(self, x: DomainId, from: int, to: int) -> Seq<Predicate>
        decreases to - from,
    {
        if from >= to {
            Seq::empty()
        } else if self.contains(x, to - 1) {
            self.holes_between(x, from, to - 1)
        } else {
            self.holes_between(x, from, to - 1).push(
                Predicate::NotEqual { domain_id: x, not_equal_constant: (to - 1) as i32 },
            )
        }
    }

    /// The domain of `x` in predicates: its two bounds, and behind them
    /// every value between them that is missing.
    pub open spec fn domain_description(self, x: DomainId) -> Seq<Predicate> {
        seq![
            Predicate::LowerBound { domain_id: x, lower_bound: self.state(x).lower_bound },
            Predicate::UpperBound { domain_id: x, upper_bound: self.state(x).upper_bound },
        ] + self.holes_between(x, self.lower_bound(x) + 1, self.upper_bound(x))
    }

    /// The number of trail entries that a reading at `trail_position` takes
    /// in: those up to and with the entry at that position, and all of
    /// them where the trail ends before it. On an empty trail every
    /// position reads the root.
    pub open spec fn entries_up_to(self, trail_position: usize) -> nat {
        if trail_position < self.trail.len() {
            (trail_position + 1) as nat
        } else {
            self.trail.len()
        }
    }

    /// The store with only the first `n` trail entries.
    pub open spec fn truncate(self, n: int) -> AssignmentsView {
        AssignmentsView { trail: self.trail.take(n), ..self }
    }

    /// The store without its last trail entry.
    pub open spec fn pop(self) -> AssignmentsView {
        AssignmentsView { trail: self.trail.drop_last(), ..self }
    }

    /// The number of leading trail entries whose level is at most `level`.
    pub open spec fn trail_length_at_level(self, level: u32) -> nat
        decreases self.trail.len(),
    {
        if self.trail.len() == 0 {
            0
        } else if self.trail.last().decision_level > level {
            self.pop().trail_length_at_level(level)
        } else {
            self.trail.len()
        }
    }

    /// The store after backtracking to `level`: the trail keeps the entries of
    /// levels up to `level`, and the decision level is no higher than `level`.
    pub open spec fn synchronise(self, level: u32) -> AssignmentsView {
        AssignmentsView {
            trail: self.trail.take(self.trail_length_at_level(level) as int),
            decision_level: if level < self.decision_level {
                level
            } else {
                self.decision_level
            },
            ..self
        }
    }

    /// The entry that `tighten_lower_bound(x, value, reason)` writes.
    pub open spec fn lower_bound_entry(self, x: DomainId, value: i32, reason: Option<ReasonRef>) -> TrailEntry {
        TrailEntry {
            predicate: Predicate::LowerBound { domain_id: x, lower_bound: value },
            reason,
            decision_level: self.decision_level,
            old_lower_bound: self.state(x).lower_bound,
            old_upper_bound: self.state(x).upper_bound,
        }
    }

    /// The entry that `tighten_upper_bound(x, value, reason)` writes.
    pub open spec fn upper_bound_entry(self, x: DomainId, value: i32, reason: Option<ReasonRef>) -> TrailEntry {
        TrailEntry {
            predicate: Predicate::UpperBound { domain_id: x, upper_bound: value },
            reason,
            decision_level: self.decision_level,
            old_lower_bound: self.state(x).lower_bound,
            old_upper_bound: self.state(x).upper_bound,
        }
    }

    /// The entry that removing an interior value writes.
    pub open spec fn hole_entry(self, x: DomainId, value: i32, reason: Option<ReasonRef>) -> TrailEntry {
        TrailEntry {
            predicate: Predicate::NotEqual { domain_id: x, not_equal_constant: value },
            reason,
            decision_level: self.decision_level,
            old_lower_bound: self.state(x).lower_bound,
            old_upper_bound: self.state(x).upper_bound,
        }
    }

    /// `tighten_lower_bound` as a function: the store afterwards, and whether
    /// the operation succeeded.
    pub open spec fn tighten_lower_bound(self, x: DomainId, value: i32, reason: Option<ReasonRef>) -> (
        AssignmentsView,
        bool,
    ) {
        if value > self.upper_bound(x) {
            (self, false)
        } else if value <= self.lower_bound(x) {
            (self, true)
        } else {
            (self.push(self.lower_bound_entry(x, value, reason)), true)
        }
    }

    /// `tighten_upper_bound` as a function.
    pub open spec fn tighten_upper_bound(self, x: DomainId, value: i32, reason: Option<ReasonRef>) -> (
        AssignmentsView,
        bool,
    ) {
        if value < self.lower_bound(x) {
            (self, false)
        } else if value >= self.upper_bound(x) {
            (self, true)
        } else {
            (self.push(self.upper_bound_entry(x, value, reason)), true)
        }
    }

    /// `remove_value_from_domain` as a function.
    pub open spec fn remove_value(self, x: DomainId, value: i32, reason: Option<ReasonRef>) -> (
        AssignmentsView,
        bool,
    ) {
        if !self.contains(x, value as int) {
            (self, true)
        } else if self.lower_bound(x) == self.upper_bound(x) {
            (self, false)
        } else if value == self.lower_bound(x) {
            (self.push(self.lower_bound_entry(x, (value + 1) as i32, reason)), true)
        } else if value == self.upper_bound(x) {
            (self.push(self.upper_bound_entry(x, (value - 1) as i32, reason)), true)
        } else {
            (self.push(self.hole_entry(x, value, reason)), true)
        }
    }

    /// `make_assignment` as a function: both bounds are tightened to `value`,
    /// the lower one first.
    pub open spec fn make_assignment(self, x: DomainId, value: i32, reason: Option<ReasonRef>) -> (
        AssignmentsView,
        bool,
    ) {
        if !self.contains(x, value as int) {
            (self, false)
        } else {
            (self.tighten_lower_bound(x, value, reason).0.tighten_upper_bound(x, value, reason).0, true)
        }
    }

    /// Whether a bound predicate held after the first `n` trail entries; of
    /// the other predicates, whether the bounds alone made them hold.
    pub open spec fn predicate_holds_at(self, predicate: Predicate, n: nat) -> bool {
        match predicate {
            Predicate::LowerBound { domain_id, lower_bound } => self.lower_bound_at(domain_id, n)
                >= lower_bound,
            Predicate::UpperBound { domain_id, upper_bound } => self.upper_bound_at(domain_id, n)
                <= upper_bound,
            Predicate::NotEqual { domain_id, not_equal_constant } => not_equal_constant
                < self.lower_bound_at(domain_id, n) || not_equal_constant > self.upper_bound_at(
                domain_id,
                n,
            ),
            Predicate::Equal { domain_id, equality_constant } => self.lower_bound_at(domain_id, n)
                == equality_constant && self.upper_bound_at(domain_id, n) == equality_constant,
            Predicate::True => true,
            Predicate::False => false,
        }
    }

    /// Applying a predicate as a function: nothing where it holds already,
    /// else the operation that makes it hold; `False` cannot be made to hold.
    pub open spec fn apply_predicate(self, predicate: Predicate, reason: Option<ReasonRef>) -> (
        AssignmentsView,
        bool,
    ) {
        if self.predicate_holds(predicate) {
            (self, true)
        } else {
            match predicate {
                Predicate::LowerBound { domain_id, lower_bound } => self.tighten_lower_bound(
                    domain_id,
                    lower_bound,
                    reason,
                ),
                Predicate::UpperBound { domain_id, upper_bound } => self.tighten_upper_bound(
                    domain_id,
                    upper_bound,
                    reason,
                ),
                Predicate::NotEqual { domain_id, not_equal_constant } => self.remove_value(
                    domain_id,
                    not_equal_constant,
                    reason,
                ),
                Predicate::Equal { domain_id, equality_constant } => self.make_assignment(
                    domain_id,
                    equality_constant,
                    reason,
                ),
                Predicate::True => (self, true),
                Predicate::False => (self, false),
            }
        }
    }

    /// Whether `predicate` is true of every value left in the domain of its
    /// variable.
    pub open spec fn predicate_holds(self, predicate: Predicate) -> bool {
        match predicate {
            Predicate::LowerBound { domain_id, lower_bound } => self.lower_bound(domain_id)
                >= lower_bound,
            Predicate::UpperBound { domain_id, upper_bound } => self.upper_bound(domain_id)
                <= upper_bound,
            Predicate::NotEqual { domain_id, not_equal_constant } => !self.contains(
                domain_id,
                not_equal_constant as int,
            ),
            Predicate::Equal { domain_id, equality_constant } => self.lower_bound(domain_id)
                == equality_constant && self.upper_bound(domain_id) == equality_constant,
            Predicate::True => true,
            Predicate::False => false,
        }
    }
}

/// `first_free_at_or_above` stays between its two arguments and lands on a
/// value that is no hole, provided the limit is none.
pub proof fn lemma_first_free_at_or_above(holes: Seq<i32>, from: int, limit: int)
    requires
        i32::MIN <= from <= limit <= i32::MAX,
        !holes.contains(limit as i32),
    ensures
        from <= first_free_at_or_above(holes, from, limit) <= limit,
        !holes.contains(first_free_at_or_above(holes, from, limit) as i32),
        forall|v: i32|
            from <= v < first_free_at_or_above(holes, from, limit) ==> #[trigger] holes.contains(v),
    decreases limit - from,
{
    if from >= limit || !holes.contains(from as i32) {
    } else {
        lemma_first_free_at_or_above(holes, from + 1, limit);
    }
}

pub proof fn lemma_first_free_at_or_below(holes: Seq<i32>, from: int, limit: int)
    requires
        i32::MIN <= limit <= from <= i32::MAX,
        !holes.contains(limit as i32),
    ensures
        limit <= first_free_at_or_below(holes, from, limit) <= from,
        !holes.contains(first_free_at_or_below(holes, from, limit) as i32),
        forall|v: i32|
            first_free_at_or_below(holes, from, limit) < v <= from ==> #[trigger] holes.contains(v),
    decreases from - limit,
{
    if from <= limit || !holes.contains(from as i32) {
    } else {
        lemma_first_free_at_or_below(holes, from - 1, limit);
    }
}

/// A domain has a hole at `value` exactly when `contains` says so, within the
/// bounds.
pub proof fn lemma_contains_iff_no_hole(state: DomainState, value: i32)
    ensures
        state.contains(value as int) <==> (state.lower_bound <= value <= state.upper_bound
            && !state.holes.contains(value)),
{
    if state.holes.contains(value) {
        let k = choose|k: int| 0 <= k < state.holes.len() && state.holes[k] == value;
        assert(state.holes[k] == value);
    }
}

/// The domains after `n` entries do not depend on what follows on the trail,
/// nor on the decision level.
pub proof fn lemma_state_at_prefix(a: AssignmentsView, b: AssignmentsView, x: DomainId, n: nat)
    requires
        a.initial_bounds.len() > x.id,
        b.initial_bounds.len() > x.id,
        a.initial_bounds[x.id as int] == b.initial_bounds[x.id as int],
        n <= a.trail.len(),
        n <= b.trail.len(),
        forall|i: int| 0 <= i < n ==> a.trail[i] == b.trail[i],
    ensures
        a.state_at(x, n) == b.state_at(x, n),
    decreases n,
{
    if n > 0 {
        lemma_state_at_prefix(a, b, x, (n - 1) as nat);
    }
}

/// What one well-chosen entry does: the store stays well-formed, earlier
/// states are untouched, and only the entry's variable changes.
pub proof fn lemma_push_entry(s: AssignmentsView, entry: TrailEntry)
    requires
        s.wf(),
        s.accepts(entry),
    ensures
        s.push(entry).wf(),
        forall|x: DomainId, n: nat|
            s.is_valid_domain(x) && n <= s.trail.len() ==> #[trigger] s.push(entry).state_at(x, n)
                == s.state_at(x, n),
        forall|x: DomainId|
            s.is_valid_domain(x) ==> #[trigger] s.push(entry).state(x) == apply_to_domain(
                s.state(x),
                entry.predicate,
                x,
            ),
{
    let t = s.push(entry);
    let len = s.trail.len();
    assert forall|x: DomainId, n: nat| s.is_valid_domain(x) && n <= len implies #[trigger] t.state_at(
        x,
        n,
    ) == s.state_at(x, n) by {
        lemma_state_at_prefix(t, s, x, n);
    }
    assert forall|x: DomainId| s.is_valid_domain(x) implies #[trigger] t.state(x) == apply_to_domain(
        s.state(x),
        entry.predicate,
        x,
    ) by {
        assert(t.state_at(x, len) == s.state_at(x, len));
        assert(t.trail[len as int] == entry);
    }
    assert forall|i: int| 0 <= i < t.trail.len() implies #[trigger] t.entry_ok(i) by {
        if i == len {
            assert(t.trail[i] == entry);
            let y = entry.predicate.domain();
            assert(y is Some);
            assert(t.state_at(y->0, len) == s.state_at(y->0, len));
        }
        if i < len {
            assert(s.entry_ok(i));
            assert(t.trail[i] == s.trail[i]);
            if i + 1 < len {
                assert(t.trail[i + 1] == s.trail[i + 1]);
            }
            let y = s.trail[i].predicate.domain();
            if y is Some {
                assert(t.state_at(y->0, i as nat) == s.state_at(y->0, i as nat));
            }
        }
    }
    assert forall|x: DomainId, n: nat| t.is_valid_domain(x) && n <= t.trail.len() implies (
    #[trigger] t.state_at(x, n)).consistent() by {
        if n <= len {
            assert(t.state_at(x, n) == s.state_at(x, n));
            assert(s.state_at(x, n).consistent());
        } else {
            let before = s.state(x);
            assert(before.consistent());
            assert(t.state(x) == apply_to_domain(before, entry.predicate, x));
            lemma_contains_iff_no_hole(before, before.lower_bound);
            lemma_contains_iff_no_hole(before, before.upper_bound);
            let after = t.state(x);
            match entry.predicate {
                Predicate::LowerBound { domain_id, lower_bound } => {
                    if domain_id == x {
                        assert(t.state_at(x, len) == before);
                        lemma_first_free_at_or_above(
                            before.holes,
                            lower_bound as int,
                            before.upper_bound as int,
                        );
                        lemma_contains_iff_no_hole(after, after.lower_bound);
                        lemma_contains_iff_no_hole(after, after.upper_bound);
                    }
                },
                Predicate::UpperBound { domain_id, upper_bound } => {
                    if domain_id == x {
                        assert(t.state_at(x, len) == before);
                        lemma_first_free_at_or_below(
                            before.holes,
                            upper_bound as int,
                            before.lower_bound as int,
                        );
                        lemma_contains_iff_no_hole(after, after.lower_bound);
                        lemma_contains_iff_no_hole(after, after.upper_bound);
                    }
                },
                Predicate::NotEqual { domain_id, not_equal_constant } => {
                    if domain_id == x {
                        assert(t.state_at(x, len) == before);
                        assert forall|k: int| 0 <= k < after.holes.len() implies #[trigger] after.holes[k]
                            != after.lower_bound by {
                            if k < before.holes.len() {
                                assert(after.holes[k] == before.holes[k]);
                            }
                        }
                        assert forall|k: int| 0 <= k < after.holes.len() implies #[trigger] after.holes[k]
                            != after.upper_bound by {
                            if k < before.holes.len() {
                                assert(after.holes[k] == before.holes[k]);
                            }
                        }
                    }
                },
                _ => {},
            }
        }
    }
}

/// Dropping the last entry leaves a well-formed store whose states are those
/// the longer trail had before that entry.
pub proof fn lemma_pop_entry(s: AssignmentsView)
    requires
        s.wf(),
        s.trail.len() > 0,
    ensures
        s.pop().wf(),
        forall|x: DomainId, n: nat|
            s.is_valid_domain(x) && n < s.trail.len() ==> #[trigger] s.pop().state_at(x, n)
                == s.state_at(x, n),
{
    let t = s.pop();
    assert forall|x: DomainId, n: nat| s.is_valid_domain(x) && n < s.trail.len() implies #[trigger] t.state_at(
        x,
        n,
    ) == s.state_at(x, n) by {
        lemma_state_at_prefix(t, s, x, n);
    }
    assert forall|i: int| 0 <= i < t.trail.len() implies #[trigger] t.entry_ok(i) by {
        assert(s.entry_ok(i));
        assert(t.trail[i] == s.trail[i]);
        if i + 1 < t.trail.len() {
            assert(t.trail[i + 1] == s.trail[i + 1]);
        }
        let y = s.trail[i].predicate.domain();
        if y is Some {
            assert(t.state_at(y->0, i as nat) == s.state_at(y->0, i as nat));
        }
    }
    assert forall|x: DomainId, n: nat| t.is_valid_domain(x) && n <= t.trail.len() implies (
    #[trigger] t.state_at(x, n)).consistent() by {
        assert(t.state_at(x, n) == s.state_at(x, n));
        assert(s.state_at(x, n).consistent());
    }
}

/// Levels never decrease along the trail.
pub proof fn lemma_levels_monotone(s: AssignmentsView, i: int, j: int)
    requires
        s.wf(),
        0 <= i <= j < s.trail.len(),
    ensures
        s.trail[i].decision_level <= s.trail[j].decision_level,
    decreases j - i,
{
    if i < j {
        assert(s.entry_ok(j - 1));
        lemma_levels_monotone(s, i, j - 1);
    }
}

/// `trail_length_at_level` splits the trail: the entries before it are of
/// levels up to `level`, the ones from it on are of higher levels.
pub proof fn lemma_trail_length_at_level(s: AssignmentsView, level: u32)
    requires
        s.wf(),
    ensures
        s.trail_length_at_level(level) <= s.trail.len(),
        forall|i: int|
            0 <= i < s.trail_length_at_level(level) ==> (#[trigger] s.trail[i]).decision_level
                <= level,
        forall|i: int|
            s.trail_length_at_level(level) <= i < s.trail.len() ==> (
            #[trigger] s.trail[i]).decision_level > level,
    decreases s.trail.len(),
{
    if s.trail.len() == 0 {
    } else if s.trail.last().decision_level > level {
        lemma_pop_entry(s);
        lemma_trail_length_at_level(s.pop(), level);
        assert forall|i: int| 0 <= i < s.trail_length_at_level(level) implies (
        #[trigger] s.trail[i]).decision_level <= level by {
            assert(s.pop().trail[i] == s.trail[i]);
        }
        assert forall|i: int| s.trail_length_at_level(level) <= i < s.trail.len() implies (
        #[trigger] s.trail[i]).decision_level > level by {
            if i < s.trail.len() - 1 {
                assert(s.pop().trail[i] == s.trail[i]);
            }
        }
    } else {
        assert forall|i: int| 0 <= i < s.trail.len() implies (#[trigger] s.trail[i]).decision_level
            <= level by {
            lemma_levels_monotone(s, i, s.trail.len() - 1);
        }
    }
}

/// Lowering the decision level to one that no entry exceeds changes no
/// domain.
pub proof fn lemma_with_level(s: AssignmentsView, level: u32)
    requires
        s.wf(),
        forall|i: int| 0 <= i < s.trail.len() ==> (#[trigger] s.trail[i]).decision_level <= level,
    ensures
        s.with_level(level).wf(),
        forall|x: DomainId, n: nat|
            s.is_valid_domain(x) && n <= s.trail.len() ==> #[trigger] s.with_level(level).state_at(
                x,
                n,
            ) == s.state_at(x, n),
{
    let t = s.with_level(level);
    assert forall|x: DomainId, n: nat| s.is_valid_domain(x) && n <= s.trail.len() implies #[trigger] t.state_at(
        x,
        n,
    ) == s.state_at(x, n) by {
        lemma_state_at_prefix(t, s, x, n);
    }
    assert forall|i: int| 0 <= i < t.trail.len() implies #[trigger] t.entry_ok(i) by {
        assert(s.entry_ok(i));
        let y = s.trail[i].predicate.domain();
        if y is Some {
            assert(t.state_at(y->0, i as nat) == s.state_at(y->0, i as nat));
        }
    }
    assert forall|x: DomainId, n: nat| t.is_valid_domain(x) && n <= t.trail.len() implies (
    #[trigger] t.state_at(x, n)).consistent() by {
        assert(t.state_at(x, n) == s.state_at(x, n));
        assert(s.state_at(x, n).consistent());
    }
}

/// A variable that no entry among the first `n` names still has its initial
/// domain after them.
proof fn lemma_untouched(s: AssignmentsView, x: DomainId, n: nat)
    requires
        n <= s.trail.len(),
        forall|i: int| 0 <= i < n ==> (#[trigger] s.trail[i]).predicate.domain() != Some(x),
    ensures
        s.state_at(x, n) == s.initial_state(x),
    decreases n,
{
    if n > 0 {
        lemma_untouched(s, x, (n - 1) as nat);
        assert(s.trail[n - 1].predicate.domain() != Some(x));
    }
}

/// A new variable leaves the others as they were, and has its initial domain
/// at every point of the trail.
pub proof fn lemma_grow(s: AssignmentsView, lower: i32, upper: i32)
    requires
        s.wf(),
        lower <= upper,
        s.initial_bounds.len() < u32::MAX,
    ensures
        s.grow(lower, upper).wf(),
        forall|x: DomainId, n: nat|
            s.is_valid_domain(x) && n <= s.trail.len() ==> #[trigger] s.grow(lower, upper).state_at(
                x,
                n,
            ) == s.state_at(x, n),
        forall|n: nat|
            n <= s.trail.len() ==> #[trigger] s.grow(lower, upper).state_at(
                DomainId { id: s.initial_bounds.len() as u32 },
                n,
            ) == (DomainState { lower_bound: lower, upper_bound: upper, holes: Seq::empty() }),
{
    let t = s.grow(lower, upper);
    let fresh = DomainId { id: s.initial_bounds.len() as u32 };
    assert forall|x: DomainId, n: nat| s.is_valid_domain(x) && n <= s.trail.len() implies #[trigger] t.state_at(
        x,
        n,
    ) == s.state_at(x, n) by {
        lemma_state_at_prefix(t, s, x, n);
    }
    assert forall|n: nat| n <= s.trail.len() implies #[trigger] t.state_at(fresh, n) == (DomainState {
        lower_bound: lower,
        upper_bound: upper,
        holes: Seq::empty(),
    }) by {
        assert forall|i: int| 0 <= i < n implies (#[trigger] t.trail[i]).predicate.domain() != Some(
            fresh,
        ) by {
            assert(s.entry_ok(i));
        }
        lemma_untouched(t, fresh, n);
    }
    assert forall|i: int| 0 <= i < t.trail.len() implies #[trigger] t.entry_ok(i) by {
        assert(s.entry_ok(i));
        let y = s.trail[i].predicate.domain();
        if y is Some {
            assert(t.state_at(y->0, i as nat) == s.state_at(y->0, i as nat));
        }
    }
    assert forall|x: DomainId, n: nat| t.is_valid_domain(x) && n <= t.trail.len() implies (
    #[trigger] t.state_at(x, n)).consistent() by {
        if s.is_valid_domain(x) {
            assert(t.state_at(x, n) == s.state_at(x, n));
            assert(s.state_at(x, n).consistent());
        } else {
            assert(x == fresh);
            assert(t.state_at(fresh, n).holes.len() == 0);
        }
    }
}

/// Along the trail, lower bounds only rise and upper bounds only fall.
pub proof fn lemma_bounds_monotone(s: AssignmentsView, x: DomainId, n: nat, m: nat)
    requires
        s.wf(),
        s.is_valid_domain(x),
        n <= m <= s.trail.len(),
    ensures
        s.lower_bound_at(x, n) <= s.lower_bound_at(x, m),
        s.upper_bound_at(x, m) <= s.upper_bound_at(x, n),
    decreases m - n,
{
    if n < m {
        lemma_bounds_monotone(s, x, n, (m - 1) as nat);
        let before = s.state_at(x, (m - 1) as nat);
        assert(before.consistent());
        assert(s.entry_ok(m - 1));
        lemma_contains_iff_no_hole(before, before.lower_bound);
        lemma_contains_iff_no_hole(before, before.upper_bound);
        match s.trail[m - 1].predicate {
            Predicate::LowerBound { domain_id, lower_bound } => {
                if domain_id == x {
                    lemma_first_free_at_or_above(
                        before.holes,
                        lower_bound as int,
                        before.upper_bound as int,
                    );
                }
            },
            Predicate::UpperBound { domain_id, upper_bound } => {
                if domain_id == x {
                    lemma_first_free_at_or_below(
                        before.holes,
                        upper_bound as int,
                        before.lower_bound as int,
                    );
                }
            },
            _ => {},
        }
    }
}

/// A predicate that held at some point of the trail holds ever after.
pub proof fn lemma_predicate_stays(s: AssignmentsView, predicate: Predicate, n: nat, m: nat)
    requires
        s.wf(),
        predicate.domain() is Some ==> s.is_valid_domain(predicate.domain()->0),
        n <= m <= s.trail.len(),
        s.predicate_holds_at(predicate, n),
    ensures
        s.predicate_holds_at(predicate, m),
{
    if predicate.domain() is Some {
        let x = predicate.domain()->0;
        lemma_bounds_monotone(s, x, n, m);
        assert(s.state_at(x, m).consistent());
    }
}

} // verus!
