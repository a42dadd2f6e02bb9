//! Why search loses no solution: at every point of the trail, the domains
//! hold every solution that agrees with the decisions taken up to there.

use vstd::prelude::*;
use crate::basic_types::domain_id::DomainId;
use crate::basic_types::predicate::Predicate;
use crate::engine::assignments_view::AssignmentsView;
use crate::engine::assignments_view::ReasonRef;
use crate::engine::assignments_view::lemma_bounds_monotone;
use crate::engine::assignments_view::lemma_grow;
use crate::engine::assignments_view::lemma_levels_monotone;
use crate::engine::assignments_view::lemma_push_entry;
use crate::engine::assignments_view::lemma_state_at_prefix;
use crate::engine::assignments_view::lemma_trail_length_at_level;
use crate::engine::assignments_view::lemma_with_level;
use crate::engine::assignments_view::apply_to_domain;
use crate::engine::domain_width::extends;
use crate::engine::domain_width::lemma_tighten_lower_bound_any;
use crate::engine::propagation::store::PropagatorStore;
use crate::engine::solutions::lemma_tighten_lower_bound_keeps;
use crate::engine::solutions::lemma_tighten_upper_bound_keeps;
use crate::engine::solutions::within;

verus! {

/// Every variable has, under `assignment`, a value that its domain held
/// after the first `n` trail entries.
pub open spec fn within_at(assignment: spec_fn(DomainId) -> int, s: AssignmentsView, n: nat) -> bool {
    forall|x: DomainId| s.is_valid_domain(x) ==> (#[trigger] s.state_at(x, n)).contains(assignment(x))
}

/// Whether `predicate` is true under `assignment`.
pub open spec fn satisfies(assignment: spec_fn(DomainId) -> int, predicate: Predicate) -> bool {
    match predicate.domain() {
        Some(x) => predicate.holds_for(assignment(x)),
        None => predicate is True,
    }
}

/// Whether every predicate is true under `assignment`.
pub open spec fn agrees(assignment: spec_fn(DomainId) -> int, predicates: Seq<Predicate>) -> bool {
    forall|i: int| 0 <= i < predicates.len() ==> satisfies(assignment, #[trigger] predicates[i])
}

/// Whether the decisions of the first `level` levels are true under
/// `assignment`.
pub open spec fn agrees_below(
    assignment: spec_fn(DomainId) -> int,
    decisions: Seq<Predicate>,
    level: int,
) -> bool {
    forall|i: int|
        0 <= i < level && i < decisions.len() ==> satisfies(assignment, #[trigger] decisions[i])
}

/// The level at which the trail stood after its first `n` entries.
pub open spec fn level_before(s: AssignmentsView, n: nat) -> int {
    if n == 0 {
        0
    } else {
        s.trail[n - 1].decision_level as int
    }
}

/// A solution: every constraint holds, and every variable has a value of
/// its initial domain.
pub open spec fn is_solution(
    assignment: spec_fn(DomainId) -> int,
    store: &PropagatorStore,
    s: AssignmentsView,
) -> bool {
    store.all_hold(assignment) && within_at(assignment, s, 0)
}

/// At every point of the trail, the domains held every solution that
/// agrees with the decisions taken up to there.
pub open spec fn keeps_solutions(store: &PropagatorStore, decisions: Seq<Predicate>, s: AssignmentsView) -> bool {
    forall|assignment: spec_fn(DomainId) -> int, n: nat|
        n <= s.trail.len() && is_solution(assignment, store, s) && agrees_below(
            assignment,
            decisions,
            level_before(s, n),
        ) ==> #[trigger] within_at(assignment, s, n)
}

/// No solution agrees with all decisions.
pub open spec fn refuted(store: &PropagatorStore, decisions: Seq<Predicate>, s: AssignmentsView) -> bool {
    forall|assignment: spec_fn(DomainId) -> int|
        !(#[trigger] is_solution(assignment, store, s) && agrees_below(
            assignment,
            decisions,
            decisions.len() as int,
        ))
}

/// There is no solution.
pub open spec fn has_no_solution(store: &PropagatorStore, s: AssignmentsView) -> bool {
    forall|assignment: spec_fn(DomainId) -> int| !#[trigger] is_solution(assignment, store, s)
}

/// No solution makes all the predicates true.
pub open spec fn nogood_is_sound(store: &PropagatorStore, s: AssignmentsView, predicates: Seq<Predicate>) -> bool {
    forall|assignment: spec_fn(DomainId) -> int|
        #[trigger] is_solution(assignment, store, s) ==> !agrees(assignment, predicates)
}

/// What the solutions are depends on the constraints and the initial
/// domains alone.
pub proof fn lemma_same_solutions(
    assignment: spec_fn(DomainId) -> int,
    store: &PropagatorStore,
    s: AssignmentsView,
    t: AssignmentsView,
)
    requires
        s.initial_bounds == t.initial_bounds,
    ensures
        is_solution(assignment, store, s) <==> is_solution(assignment, store, t),
{
    lemma_within_at_prefix(assignment, s, t, 0);
}

/// `within` speaks of the domains after the whole trail.
pub proof fn lemma_within_is_within_at_end(assignment: spec_fn(DomainId) -> int, s: AssignmentsView)
    ensures
        within(assignment, s) <==> within_at(assignment, s, s.trail.len()),
{
    if within(assignment, s) {
        assert forall|x: DomainId| s.is_valid_domain(x) implies (#[trigger] s.state_at(
            x,
            s.trail.len(),
        )).contains(assignment(x)) by {
            assert(s.contains(x, assignment(x)));
        }
    }
    if within_at(assignment, s, s.trail.len()) {
        assert forall|x: DomainId| s.is_valid_domain(x) implies #[trigger] s.contains(
            x,
            assignment(x),
        ) by {
            assert(s.state_at(x, s.trail.len()).contains(assignment(x)));
        }
    }
}

/// A value that is in a domain at some point of the trail was in it at
/// every earlier point.
pub proof fn lemma_value_was_there(s: AssignmentsView, x: DomainId, n: nat, m: nat, value: int)
    requires
        s.wf(),
        s.is_valid_domain(x),
        n <= m <= s.trail.len(),
        s.state_at(x, m).contains(value),
    ensures
        s.state_at(x, n).contains(value),
    decreases m - n,
{
    if n < m {
        let before = s.state_at(x, (m - 1) as nat);
        let after = s.state_at(x, m);
        lemma_bounds_monotone(s, x, (m - 1) as nat, m);
        assert forall|k: int| 0 <= k < before.holes.len() implies #[trigger] before.holes[k] != value by {
            assert(after.holes[k] == before.holes[k]);
        }
        lemma_value_was_there(s, x, n, (m - 1) as nat, value);
    }
}

/// An assignment within the domains at some point of the trail was within
/// them at every earlier point.
pub proof fn lemma_within_at_earlier(assignment: spec_fn(DomainId) -> int, s: AssignmentsView, n: nat, m: nat)
    requires
        s.wf(),
        n <= m <= s.trail.len(),
        within_at(assignment, s, m),
    ensures
        within_at(assignment, s, n),
{
    assert forall|x: DomainId| s.is_valid_domain(x) implies (#[trigger] s.state_at(x, n)).contains(
        assignment(x),
    ) by {
        assert(s.state_at(x, m).contains(assignment(x)));
        lemma_value_was_there(s, x, n, m, assignment(x));
    }
}

/// Two stores with the same variables and the same first `n` trail entries
/// had the same domains after those.
pub proof fn lemma_within_at_prefix(
    assignment: spec_fn(DomainId) -> int,
    a: AssignmentsView,
    b: AssignmentsView,
    n: nat,
)
    requires
        a.initial_bounds == b.initial_bounds,
        n <= a.trail.len(),
        n <= b.trail.len(),
        forall|i: int| 0 <= i < n ==> a.trail[i] == b.trail[i],
    ensures
        within_at(assignment, a, n) <==> within_at(assignment, b, n),
{
    assert forall|x: DomainId| a.is_valid_domain(x) implies #[trigger] a.state_at(x, n) == b.state_at(
        x,
        n,
    ) by {
        lemma_state_at_prefix(a, b, x, n);
    }
    if within_at(assignment, a, n) {
        assert forall|x: DomainId| b.is_valid_domain(x) implies (#[trigger] b.state_at(x, n)).contains(
            assignment(x),
        ) by {
            assert(a.state_at(x, n) == b.state_at(x, n));
        }
    }
    if within_at(assignment, b, n) {
        assert forall|x: DomainId| a.is_valid_domain(x) implies (#[trigger] a.state_at(x, n)).contains(
            assignment(x),
        ) by {
            assert(a.state_at(x, n) == b.state_at(x, n));
        }
    }
}

/// A value other than `value` stays in the domain when `value` is removed,
/// and the removal succeeds.
pub proof fn lemma_remove_value_keeps(
    s: AssignmentsView,
    x: DomainId,
    value: i32,
    reason: Option<ReasonRef>,
    assignment: spec_fn(DomainId) -> int,
)
    requires
        s.wf(),
        s.is_valid_domain(x),
        within(assignment, s),
        assignment(x) != value,
    ensures
        s.remove_value(x, value, reason).1,
        within(assignment, s.remove_value(x, value, reason).0),
{
    let t = s.remove_value(x, value, reason).0;
    assert(s.contains(x, assignment(x)));
    assert(s.state(x).consistent());
    if !s.contains(x, value as int) {
    } else if s.lower_bound(x) == s.upper_bound(x) {
    } else if value == s.lower_bound(x) {
        lemma_tighten_lower_bound_keeps(s, x, (value + 1) as i32, reason, assignment);
    } else if value == s.upper_bound(x) {
        lemma_tighten_upper_bound_keeps(s, x, (value - 1) as i32, reason, assignment);
    } else {
        let entry = s.hole_entry(x, value, reason);
        lemma_push_entry(s, entry);
        assert forall|y: DomainId| t.is_valid_domain(y) implies #[trigger] t.contains(y, assignment(y)) by {
            assert(s.is_valid_domain(y));
            assert(s.contains(y, assignment(y)));
            assert(t.state(y) == apply_to_domain(s.state(y), entry.predicate, y));
        }
    }
}

/// A predicate that is true under an assignment within the domains can be
/// made to hold, and the assignment is within the domains afterwards.
pub proof fn lemma_apply_predicate_keeps(
    s: AssignmentsView,
    predicate: Predicate,
    reason: Option<ReasonRef>,
    assignment: spec_fn(DomainId) -> int,
)
    requires
        s.wf(),
        predicate.domain() is Some ==> s.is_valid_domain(predicate.domain()->0),
        within(assignment, s),
        satisfies(assignment, predicate),
    ensures
        s.apply_predicate(predicate, reason).1,
        within(assignment, s.apply_predicate(predicate, reason).0),
{
    if !s.predicate_holds(predicate) {
        match predicate {
            Predicate::LowerBound { domain_id, lower_bound } => {
                lemma_tighten_lower_bound_keeps(s, domain_id, lower_bound, reason, assignment);
            },
            Predicate::UpperBound { domain_id, upper_bound } => {
                lemma_tighten_upper_bound_keeps(s, domain_id, upper_bound, reason, assignment);
            },
            Predicate::NotEqual { domain_id, not_equal_constant } => {
                lemma_remove_value_keeps(s, domain_id, not_equal_constant, reason, assignment);
            },
            Predicate::Equal { domain_id, equality_constant } => {
                assert(s.contains(domain_id, assignment(domain_id)));
                lemma_tighten_lower_bound_keeps(s, domain_id, equality_constant, reason, assignment);
                let middle = s.tighten_lower_bound(domain_id, equality_constant, reason).0;
                lemma_tighten_lower_bound_any(
                    s,
                    domain_id,
                    equality_constant,
                    reason,
                );
                lemma_tighten_upper_bound_keeps(middle, domain_id, equality_constant, reason, assignment);
            },
            Predicate::True => {},
            Predicate::False => {},
        }
    }
}

/// Making a predicate hold only appends to the trail, at the current
/// level.
pub proof fn lemma_apply_predicate_appends(s: AssignmentsView, predicate: Predicate, reason: Option<ReasonRef>)
    ensures
        ({
            let t = s.apply_predicate(predicate, reason).0;
            &&& t.initial_bounds == s.initial_bounds
            &&& t.decision_level == s.decision_level
            &&& s.trail.len() <= t.trail.len()
            &&& forall|i: int| 0 <= i < s.trail.len() ==> t.trail[i] == s.trail[i]
            &&& forall|i: int|
                s.trail.len() <= i < t.trail.len() ==> (#[trigger] t.trail[i]).decision_level
                    == s.decision_level
        }),
{
}

/// Domains that keep the solutions still do after something was made to
/// hold that is true of every solution that agrees with the decisions; and
/// where it cannot be made to hold, no solution agrees with the decisions.
pub proof fn lemma_apply_keeps_solutions(
    store: &PropagatorStore,
    decisions: Seq<Predicate>,
    s: AssignmentsView,
    predicate: Predicate,
    reason: Option<ReasonRef>,
)
    requires
        s.wf(),
        s.apply_predicate(predicate, reason).0.wf(),
        decisions.len() == s.decision_level,
        predicate.domain() is Some ==> s.is_valid_domain(predicate.domain()->0),
        keeps_solutions(store, decisions, s),
        forall|assignment: spec_fn(DomainId) -> int|
            #[trigger] is_solution(assignment, store, s) && agrees_below(
                assignment,
                decisions,
                decisions.len() as int,
            ) ==> satisfies(assignment, predicate),
    ensures
        keeps_solutions(store, decisions, s.apply_predicate(predicate, reason).0),
        !s.apply_predicate(predicate, reason).1 ==> refuted(store, decisions, s),
{
    let t = s.apply_predicate(predicate, reason).0;
    lemma_apply_predicate_appends(s, predicate, reason);
    assert forall|assignment: spec_fn(DomainId) -> int|
        #[trigger] is_solution(assignment, store, s) && agrees_below(
            assignment,
            decisions,
            decisions.len() as int,
        ) implies s.apply_predicate(predicate, reason).1 && within(assignment, t) by {
        lemma_level_before_bound(s, s.trail.len());
        assert(within_at(assignment, s, s.trail.len()));
        lemma_within_is_within_at_end(assignment, s);
        lemma_apply_predicate_keeps(s, predicate, reason, assignment);
    }
    assert forall|assignment: spec_fn(DomainId) -> int, n: nat|
        n <= t.trail.len() && is_solution(assignment, store, t) && agrees_below(
            assignment,
            decisions,
            level_before(t, n),
        ) implies #[trigger] within_at(assignment, t, n) by {
        lemma_within_at_prefix(assignment, s, t, 0);
        assert(is_solution(assignment, store, s));
        if n <= s.trail.len() {
            assert(level_before(t, n) == level_before(s, n));
            assert(within_at(assignment, s, n));
            lemma_within_at_prefix(assignment, s, t, n);
        } else {
            assert(t.trail[n - 1].decision_level == s.decision_level);
            assert(within(assignment, t));
            lemma_within_is_within_at_end(assignment, t);
            lemma_within_at_earlier(assignment, t, n, t.trail.len());
        }
    }
}

/// No trail entry is of a level above the current one.
pub proof fn lemma_level_before_bound(s: AssignmentsView, n: nat)
    requires
        s.wf(),
        n <= s.trail.len(),
    ensures
        0 <= level_before(s, n) <= s.decision_level,
{
    if n > 0 {
        assert(s.entry_ok(n - 1));
    }
}

/// Domains that keep the solutions still do after propagation that
/// removed no value that a solution within the domains takes.
pub proof fn lemma_extension_keeps_solutions(
    store: &PropagatorStore,
    decisions: Seq<Predicate>,
    s: AssignmentsView,
    t: AssignmentsView,
)
    requires
        s.wf(),
        t.wf(),
        extends(s, t),
        keeps_solutions(store, decisions, s),
        forall|assignment: spec_fn(DomainId) -> int|
            store.all_hold(assignment) && #[trigger] within(assignment, s) ==> within(assignment, t),
    ensures
        keeps_solutions(store, decisions, t),
{
    assert forall|i: int| 0 <= i < s.trail.len() implies t.trail[i] == s.trail[i] by {
        assert(t.trail.take(s.trail.len() as int)[i] == s.trail[i]);
    }
    assert forall|assignment: spec_fn(DomainId) -> int, n: nat|
        n <= t.trail.len() && is_solution(assignment, store, t) && agrees_below(
            assignment,
            decisions,
            level_before(t, n),
        ) implies #[trigger] within_at(assignment, t, n) by {
        lemma_within_at_prefix(assignment, s, t, 0);
        assert(is_solution(assignment, store, s));
        if n <= s.trail.len() {
            assert(level_before(t, n) == level_before(s, n));
            assert(within_at(assignment, s, n));
            lemma_within_at_prefix(assignment, s, t, n);
        } else {
            if s.trail.len() > 0 {
                lemma_levels_monotone(t, s.trail.len() - 1, n - 1);
            }
            assert(level_before(s, s.trail.len()) <= level_before(t, n));
            assert(within_at(assignment, s, s.trail.len()));
            lemma_within_is_within_at_end(assignment, s);
            assert(within(assignment, t));
            lemma_within_is_within_at_end(assignment, t);
            lemma_within_at_earlier(assignment, t, n, t.trail.len());
        }
    }
}

/// Where propagation from domains that keep the solutions finds a
/// conflict, no solution agrees with the decisions.
pub proof fn lemma_conflict_refutes(store: &PropagatorStore, decisions: Seq<Predicate>, s: AssignmentsView)
    requires
        s.wf(),
        decisions.len() == s.decision_level,
        keeps_solutions(store, decisions, s),
        forall|assignment: spec_fn(DomainId) -> int|
            !(store.all_hold(assignment) && #[trigger] within(assignment, s)),
    ensures
        refuted(store, decisions, s),
{
    assert forall|assignment: spec_fn(DomainId) -> int|
        !(#[trigger] is_solution(assignment, store, s) && agrees_below(
            assignment,
            decisions,
            decisions.len() as int,
        )) by {
        if is_solution(assignment, store, s) && agrees_below(
            assignment,
            decisions,
            decisions.len() as int,
        ) {
            lemma_level_before_bound(s, s.trail.len());
            assert(within_at(assignment, s, s.trail.len()));
            lemma_within_is_within_at_end(assignment, s);
        }
    }
}

/// Domains that keep the solutions still do one level further down, with
/// one more decision.
pub proof fn lemma_next_level_keeps_solutions(
    store: &PropagatorStore,
    decisions: Seq<Predicate>,
    s: AssignmentsView,
    predicate: Predicate,
)
    requires
        s.wf(),
        decisions.len() == s.decision_level,
        s.decision_level < u32::MAX,
        keeps_solutions(store, decisions, s),
    ensures
        s.with_level((s.decision_level + 1) as u32).wf(),
        keeps_solutions(store, decisions.push(predicate), s.with_level((s.decision_level + 1) as u32)),
{
    let t = s.with_level((s.decision_level + 1) as u32);
    assert forall|i: int| 0 <= i < s.trail.len() implies (#[trigger] s.trail[i]).decision_level <= (
    s.decision_level + 1) as u32 by {
        assert(s.entry_ok(i));
    }
    lemma_with_level(s, (s.decision_level + 1) as u32);
    assert forall|assignment: spec_fn(DomainId) -> int, n: nat|
        n <= t.trail.len() && is_solution(assignment, store, t) && agrees_below(
            assignment,
            decisions.push(predicate),
            level_before(t, n),
        ) implies #[trigger] within_at(assignment, t, n) by {
        lemma_within_at_prefix(assignment, s, t, 0);
        lemma_level_before_bound(s, n);
        assert(level_before(t, n) == level_before(s, n));
        assert forall|i: int| 0 <= i < level_before(s, n) && i < decisions.len() implies satisfies(
            assignment,
            #[trigger] decisions[i],
        ) by {
            assert(decisions.push(predicate)[i] == decisions[i]);
        }
        assert(within_at(assignment, s, n));
        lemma_within_at_prefix(assignment, s, t, n);
    }
}

/// Domains that keep the solutions still do after backtracking.
pub proof fn lemma_backtrack_keeps_solutions(
    store: &PropagatorStore,
    decisions: Seq<Predicate>,
    s: AssignmentsView,
    level: u32,
)
    requires
        s.wf(),
        decisions.len() == s.decision_level,
        keeps_solutions(store, decisions, s),
    ensures
        keeps_solutions(
            store,
            decisions.take(s.synchronise(level).decision_level as int),
            s.synchronise(level),
        ),
{
    let t = s.synchronise(level);
    let kept = decisions.take(t.decision_level as int);
    lemma_trail_length_at_level(s, level);
    assert forall|assignment: spec_fn(DomainId) -> int, n: nat|
        n <= t.trail.len() && is_solution(assignment, store, t) && agrees_below(
            assignment,
            kept,
            level_before(t, n),
        ) implies #[trigger] within_at(assignment, t, n) by {
        lemma_within_at_prefix(assignment, s, t, 0);
        lemma_level_before_bound(s, n);
        assert(level_before(t, n) == level_before(s, n));
        assert(level_before(s, n) <= t.decision_level) by {
            if n > 0 {
                assert(s.trail[n - 1].decision_level <= level);
                assert(s.entry_ok(n - 1));
            }
        }
        assert forall|i: int| 0 <= i < level_before(s, n) && i < decisions.len() implies satisfies(
            assignment,
            #[trigger] decisions[i],
        ) by {
            assert(kept[i] == decisions[i]);
        }
        assert(within_at(assignment, s, n));
        lemma_within_at_prefix(assignment, s, t, n);
    }
}

/// Domains that keep the solutions still do with one more variable.
pub proof fn lemma_grow_keeps_solutions(
    store: &PropagatorStore,
    decisions: Seq<Predicate>,
    s: AssignmentsView,
    lower: i32,
    upper: i32,
)
    requires
        s.wf(),
        lower <= upper,
        s.initial_bounds.len() < u32::MAX,
        keeps_solutions(store, decisions, s),
    ensures
        keeps_solutions(store, decisions, s.grow(lower, upper)),
{
    let t = s.grow(lower, upper);
    let fresh = DomainId { id: s.initial_bounds.len() as u32 };
    lemma_grow(s, lower, upper);
    assert forall|assignment: spec_fn(DomainId) -> int, n: nat|
        n <= t.trail.len() && is_solution(assignment, store, t) && agrees_below(
            assignment,
            decisions,
            level_before(t, n),
        ) implies #[trigger] within_at(assignment, t, n) by {
        assert forall|x: DomainId| s.is_valid_domain(x) implies (#[trigger] s.state_at(x, 0)).contains(
            assignment(x),
        ) by {
            assert(t.is_valid_domain(x));
            assert(t.state_at(x, 0).contains(assignment(x)));
            assert(t.state_at(x, 0) == s.state_at(x, 0));
        }
        assert(is_solution(assignment, store, s));
        assert(level_before(t, n) == level_before(s, n));
        assert(within_at(assignment, s, n));
        assert forall|x: DomainId| t.is_valid_domain(x) implies (#[trigger] t.state_at(x, n)).contains(
            assignment(x),
        ) by {
            if s.is_valid_domain(x) {
                assert(s.state_at(x, n).contains(assignment(x)));
                assert(t.state_at(x, n) == s.state_at(x, n));
            } else {
                assert(x == fresh);
                assert(t.state_at(fresh, 0).contains(assignment(fresh)));
                assert(t.state_at(fresh, n) == t.state_at(fresh, 0));
            }
        }
    }
}

/// Domains that keep the solutions of some constraints keep those of any
/// constraints that have no other solutions.
pub proof fn lemma_fewer_solutions_kept(
    store: &PropagatorStore,
    other: &PropagatorStore,
    decisions: Seq<Predicate>,
    s: AssignmentsView,
)
    requires
        keeps_solutions(store, decisions, s),
        forall|assignment: spec_fn(DomainId) -> int|
            #[trigger] other.all_hold(assignment) ==> store.all_hold(assignment),
    ensures
        keeps_solutions(other, decisions, s),
{
    assert forall|assignment: spec_fn(DomainId) -> int, n: nat|
        n <= s.trail.len() && is_solution(assignment, other, s) && agrees_below(
            assignment,
            decisions,
            level_before(s, n),
        ) implies #[trigger] within_at(assignment, s, n) by {
        assert(is_solution(assignment, store, s));
    }
}

} // verus!
