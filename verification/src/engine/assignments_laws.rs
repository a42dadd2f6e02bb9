//! Laws of the domain store, stated over its mathematical view.

use vstd::prelude::*;
use crate::basic_types::domain_id::DomainId;
use crate::engine::assignments_view::AssignmentsView;
use crate::engine::assignments_view::ReasonRef;
use crate::engine::assignments_view::apply_to_domain;
use crate::engine::assignments_view::lemma_contains_iff_no_hole;
use crate::engine::assignments_view::lemma_first_free_at_or_above;
use crate::engine::assignments_view::lemma_first_free_at_or_below;
use crate::engine::assignments_view::lemma_pop_entry;
use crate::engine::assignments_view::lemma_push_entry;
use crate::engine::assignments_view::lemma_trail_length_at_level;
use crate::engine::assignments_view::lemma_with_level;

verus! {

/// At every point of the trail, the lower bound of a variable is at most its
/// upper bound.
pub proof fn lemma_bounds_ordered(s: AssignmentsView, x: DomainId, n: nat)
    requires
        s.wf(),
        s.is_valid_domain(x),
        n <= s.trail.len(),
    ensures
        s.lower_bound_at(x, n) <= s.upper_bound_at(x, n),
{
    assert(s.state_at(x, n).consistent());
}

/// Cutting the trail after `n` entries leaves a well-formed store in which
/// every domain is what it was after those entries.
pub proof fn lemma_truncate(s: AssignmentsView, n: nat)
    requires
        s.wf(),
        n <= s.trail.len(),
    ensures
        s.truncate(n as int).wf(),
        forall|x: DomainId, m: nat|
            s.is_valid_domain(x) && m <= n ==> #[trigger] s.truncate(n as int).state_at(x, m)
                == s.state_at(x, m),
    decreases s.trail.len() - n,
{
    if n == s.trail.len() {
        assert(s.truncate(n as int).trail =~= s.trail);
    } else {
        lemma_pop_entry(s);
        lemma_truncate(s.pop(), n);
        assert(s.pop().truncate(n as int).trail =~= s.truncate(n as int).trail);
        assert forall|x: DomainId, m: nat| s.is_valid_domain(x) && m <= n implies #[trigger] s.truncate(
            n as int,
        ).state_at(x, m) == s.state_at(x, m) by {
            assert(s.pop().truncate(n as int).state_at(x, m) == s.pop().state_at(x, m));
            assert(s.pop().state_at(x, m) == s.state_at(x, m));
        }
    }
}

/// After backtracking to `level`, every domain is what it was immediately
/// after the last trail entry of a level up to `level`; the entries that
/// remain are exactly those of such levels.
pub proof fn lemma_synchronise_restores(s: AssignmentsView, level: u32, x: DomainId)
    requires
        s.wf(),
        s.is_valid_domain(x),
    ensures
        s.synchronise(level).wf(),
        s.synchronise(level).state(x) == s.state_at(x, s.trail_length_at_level(level)),
        s.trail_length_at_level(level) <= s.trail.len(),
        forall|i: int|
            0 <= i < s.trail_length_at_level(level) ==> (#[trigger] s.trail[i]).decision_level
                <= level,
        forall|i: int|
            s.trail_length_at_level(level) <= i < s.trail.len() ==> (
            #[trigger] s.trail[i]).decision_level > level,
{
    let k = s.trail_length_at_level(level);
    lemma_trail_length_at_level(s, level);
    lemma_truncate(s, k);
    let t = s.truncate(k as int);
    let target = if level < s.decision_level {
        level
    } else {
        s.decision_level
    };
    assert forall|i: int| 0 <= i < t.trail.len() implies (#[trigger] t.trail[i]).decision_level
        <= target by {
        assert(t.trail[i] == s.trail[i]);
        assert(s.entry_ok(i));
    }
    lemma_with_level(t, target);
    assert(s.synchronise(level) == t.with_level(target));
    assert(t.with_level(target).state_at(x, k) == t.state_at(x, k));
}

/// Backtracking twice to the same level is backtracking once.
pub proof fn lemma_synchronise_idempotent(s: AssignmentsView, level: u32)
    requires
        s.wf(),
    ensures
        s.synchronise(level).synchronise(level) == s.synchronise(level),
{
    let t = s.synchronise(level);
    lemma_trail_length_at_level(s, level);
    assert forall|i: int| 0 <= i < t.trail.len() implies (#[trigger] t.trail[i]).decision_level
        <= level by {
        assert(t.trail[i] == s.trail[i]);
    }
    assert(t.trail_length_at_level(level) == t.trail.len());
    assert(t.trail.take(t.trail.len() as int) =~= t.trail);
}

/// Tightening a lower bound a second time with the same value changes
/// nothing and ends as the first time did.
pub proof fn lemma_tighten_lower_bound_idempotent(
    s: AssignmentsView,
    x: DomainId,
    value: i32,
    reason: Option<ReasonRef>,
)
    requires
        s.wf(),
        s.is_valid_domain(x),
    ensures
        s.tighten_lower_bound(x, value, reason).0.tighten_lower_bound(x, value, reason)
            == s.tighten_lower_bound(x, value, reason),
{
    let first = s.tighten_lower_bound(x, value, reason);
    if value > s.upper_bound(x) {
    } else if value <= s.lower_bound(x) {
    } else {
        let entry = s.lower_bound_entry(x, value, reason);
        let state = s.state(x);
        assert(state.consistent());
        lemma_contains_iff_no_hole(state, state.upper_bound);
        lemma_push_entry(s, entry);
        lemma_first_free_at_or_above(state.holes, value as int, state.upper_bound as int);
        assert(first.0.state(x) == apply_to_domain(state, entry.predicate, x));
    }
}

/// Tightening an upper bound a second time with the same value changes
/// nothing and ends as the first time did.
pub proof fn lemma_tighten_upper_bound_idempotent(
    s: AssignmentsView,
    x: DomainId,
    value: i32,
    reason: Option<ReasonRef>,
)
    requires
        s.wf(),
        s.is_valid_domain(x),
    ensures
        s.tighten_upper_bound(x, value, reason).0.tighten_upper_bound(x, value, reason)
            == s.tighten_upper_bound(x, value, reason),
{
    let first = s.tighten_upper_bound(x, value, reason);
    if value < s.lower_bound(x) {
    } else if value >= s.upper_bound(x) {
    } else {
        let entry = s.upper_bound_entry(x, value, reason);
        let state = s.state(x);
        assert(state.consistent());
        lemma_contains_iff_no_hole(state, state.lower_bound);
        lemma_push_entry(s, entry);
        lemma_first_free_at_or_below(state.holes, value as int, state.lower_bound as int);
        assert(first.0.state(x) == apply_to_domain(state, entry.predicate, x));
    }
}

/// Removing a value that lies outside the bounds succeeds and changes
/// nothing.
pub proof fn lemma_remove_value_outside_bounds(
    s: AssignmentsView,
    x: DomainId,
    value: i32,
    reason: Option<ReasonRef>,
)
    requires
        value < s.lower_bound(x) || value > s.upper_bound(x),
    ensures
        s.remove_value(x, value, reason) == (s, true),
{
}

/// What a successful tightening of the lower bound leaves: the smallest
/// value of the old domain that is at least `value`, and the old upper bound.
pub proof fn lemma_tighten_lower_bound_result(
    s: AssignmentsView,
    x: DomainId,
    value: i32,
    reason: Option<ReasonRef>,
)
    requires
        s.wf(),
        s.is_valid_domain(x),
        value <= s.upper_bound(x),
    ensures
        ({
            let t = s.tighten_lower_bound(x, value, reason).0;
            &&& t.wf()
            &&& t.upper_bound(x) == s.upper_bound(x)
            &&& t.state(x).holes == s.state(x).holes
            &&& t.initial_bounds == s.initial_bounds
            &&& t.lower_bound(x) >= value
            &&& t.lower_bound(x) >= s.lower_bound(x)
            &&& s.contains(x, t.lower_bound(x))
            &&& forall|v: int| value <= v < t.lower_bound(x) ==> !s.contains(x, v)
            &&& forall|y: DomainId| s.is_valid_domain(y) && y != x ==> t.state(y) == s.state(y)
        }),
{
    let t = s.tighten_lower_bound(x, value, reason).0;
    let state = s.state(x);
    assert(state.consistent());
    if value > s.lower_bound(x) {
        let entry = s.lower_bound_entry(x, value, reason);
        lemma_contains_iff_no_hole(state, state.upper_bound);
        lemma_push_entry(s, entry);
        lemma_first_free_at_or_above(state.holes, value as int, state.upper_bound as int);
        assert(t.state(x) == apply_to_domain(state, entry.predicate, x));
        lemma_contains_iff_no_hole(state, t.state(x).lower_bound);
        assert forall|v: int| value <= v < t.lower_bound(x) implies !s.contains(x, v) by {
            lemma_contains_iff_no_hole(state, v as i32);
            assert(state.holes.contains(v as i32));
        }
        assert forall|y: DomainId| s.is_valid_domain(y) && y != x implies t.state(y) == s.state(
            y,
        ) by {
            assert(t.state(y) == apply_to_domain(s.state(y), entry.predicate, y));
        }
    }
}

/// What a successful tightening of the upper bound leaves: the largest value
/// of the old domain that is at most `value`, and the old lower bound.
pub proof fn lemma_tighten_upper_bound_result(
    s: AssignmentsView,
    x: DomainId,
    value: i32,
    reason: Option<ReasonRef>,
)
    requires
        s.wf(),
        s.is_valid_domain(x),
        value >= s.lower_bound(x),
    ensures
        ({
            let t = s.tighten_upper_bound(x, value, reason).0;
            &&& t.wf()
            &&& t.lower_bound(x) == s.lower_bound(x)
            &&& t.state(x).holes == s.state(x).holes
            &&& t.initial_bounds == s.initial_bounds
            &&& t.upper_bound(x) <= value
            &&& t.upper_bound(x) <= s.upper_bound(x)
            &&& s.contains(x, t.upper_bound(x))
            &&& forall|v: int| t.upper_bound(x) < v <= value ==> !s.contains(x, v)
            &&& forall|y: DomainId| s.is_valid_domain(y) && y != x ==> t.state(y) == s.state(y)
        }),
{
    let t = s.tighten_upper_bound(x, value, reason).0;
    let state = s.state(x);
    assert(state.consistent());
    if value < s.upper_bound(x) {
        let entry = s.upper_bound_entry(x, value, reason);
        lemma_contains_iff_no_hole(state, state.lower_bound);
        lemma_push_entry(s, entry);
        lemma_first_free_at_or_below(state.holes, value as int, state.lower_bound as int);
        assert(t.state(x) == apply_to_domain(state, entry.predicate, x));
        lemma_contains_iff_no_hole(state, t.state(x).upper_bound);
        assert forall|v: int| t.upper_bound(x) < v <= value implies !s.contains(x, v) by {
            lemma_contains_iff_no_hole(state, v as i32);
            assert(state.holes.contains(v as i32));
        }
        assert forall|y: DomainId| s.is_valid_domain(y) && y != x implies t.state(y) == s.state(
            y,
        ) by {
            assert(t.state(y) == apply_to_domain(s.state(y), entry.predicate, y));
        }
    }
}

/// Tightening the lower bound to a value that was not removed, and is not
/// above the upper bound, succeeds and leaves exactly the greater of the
/// old bound and the value; the upper bound and the other domains stay.
pub proof fn lemma_tighten_lower_bound_exact(
    s: AssignmentsView,
    x: DomainId,
    value: i32,
    reason: Option<ReasonRef>,
)
    requires
        s.wf(),
        s.is_valid_domain(x),
        value <= s.upper_bound(x),
        !s.state(x).holes.contains(value),
    ensures
        ({
            let r = s.tighten_lower_bound(x, value, reason);
            &&& r.1
            &&& r.0.lower_bound(x) == if value > s.lower_bound(x) {
                value as int
            } else {
                s.lower_bound(x)
            }
            &&& r.0.upper_bound(x) == s.upper_bound(x)
            &&& r.0.lower_bound(x) <= r.0.upper_bound(x)
            &&& forall|y: DomainId| s.is_valid_domain(y) && y != x ==> r.0.state(y) == s.state(y)
        }),
{
    lemma_tighten_lower_bound_result(s, x, value, reason);
    assert(s.state_at(x, s.trail.len()).consistent());
    if value > s.lower_bound(x) {
        lemma_contains_iff_no_hole(s.state(x), value);
        assert(s.contains(x, value as int));
    }
}

/// Tightening the upper bound to a value that was not removed, and is not
/// below the lower bound, succeeds and leaves exactly the lesser of the
/// old bound and the value; the lower bound and the other domains stay.
pub proof fn lemma_tighten_upper_bound_exact(
    s: AssignmentsView,
    x: DomainId,
    value: i32,
    reason: Option<ReasonRef>,
)
    requires
        s.wf(),
        s.is_valid_domain(x),
        value >= s.lower_bound(x),
        !s.state(x).holes.contains(value),
    ensures
        ({
            let r = s.tighten_upper_bound(x, value, reason);
            &&& r.1
            &&& r.0.upper_bound(x) == if value < s.upper_bound(x) {
                value as int
            } else {
                s.upper_bound(x)
            }
            &&& r.0.lower_bound(x) == s.lower_bound(x)
            &&& r.0.lower_bound(x) <= r.0.upper_bound(x)
            &&& forall|y: DomainId| s.is_valid_domain(y) && y != x ==> r.0.state(y) == s.state(y)
        }),
{
    lemma_tighten_upper_bound_result(s, x, value, reason);
    assert(s.state_at(x, s.trail.len()).consistent());
    if value < s.upper_bound(x) {
        lemma_contains_iff_no_hole(s.state(x), value);
        assert(s.contains(x, value as int));
    }
}

} // verus!
