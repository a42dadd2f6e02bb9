//! How much room the domains leave: the sum, over all variables, of the
//! distance between the bounds. Propagation only ever reduces it.

use vstd::prelude::*;
use crate::basic_types::domain_id::DomainId;
use crate::engine::assignments_view::AssignmentsView;
use crate::engine::assignments_view::ReasonRef;
use crate::engine::assignments_laws::lemma_tighten_lower_bound_result;
use crate::engine::assignments_laws::lemma_tighten_upper_bound_result;

verus! {

/// The sum of `ub - lb` over the first `k` variables.
pub open spec fn width_up_to(s: AssignmentsView, k: nat) -> int
    decreases k,
{
    if k == 0 {
        0
    } else {
        let x = DomainId { id: (k - 1) as u32 };
        width_up_to(s, (k - 1) as nat) + s.upper_bound(x) - s.lower_bound(x)
    }
}

/// The sum of `ub - lb` over all variables.
pub open spec fn total_width(s: AssignmentsView) -> int {
    width_up_to(s, s.num_domains())
}

/// `later` was reached from `earlier` by narrowing domains: the variables
/// and the level are the same, the trail was only appended to, and no bound
/// moved outwards.
pub open spec fn extends(earlier: AssignmentsView, later: AssignmentsView) -> bool {
    &&& later.initial_bounds == earlier.initial_bounds
    &&& later.decision_level == earlier.decision_level
    &&& earlier.trail.len() <= later.trail.len()
    &&& later.trail.take(earlier.trail.len() as int) == earlier.trail
    &&& forall|x: DomainId|
        earlier.is_valid_domain(x) ==> #[trigger] later.lower_bound(x) >= earlier.lower_bound(x)
            && later.upper_bound(x) <= earlier.upper_bound(x)
}

/// Either nothing happened, or the domains have less room than before.
pub open spec fn same_or_narrower(earlier: AssignmentsView, later: AssignmentsView) -> bool {
    earlier == later || total_width(later) < total_width(earlier)
}

pub proof fn lemma_width_nonnegative(s: AssignmentsView, k: nat)
    requires
        s.wf(),
        k <= s.num_domains(),
    ensures
        width_up_to(s, k) >= 0,
    decreases k,
{
    if k > 0 {
        lemma_width_nonnegative(s, (k - 1) as nat);
        let x = DomainId { id: (k - 1) as u32 };
        assert(s.state_at(x, s.trail.len()).consistent());
    }
}

/// Where no bound moved outwards, the width did not grow; where the bounds
/// of `x` came closer, it shrank.
pub proof fn lemma_width_monotone(s: AssignmentsView, t: AssignmentsView, k: nat)
    requires
        s.wf(),
        k <= s.num_domains(),
        s.num_domains() == t.num_domains(),
        forall|x: DomainId|
            s.is_valid_domain(x) ==> #[trigger] t.lower_bound(x) >= s.lower_bound(x) && t.upper_bound(x)
                <= s.upper_bound(x),
    ensures
        width_up_to(t, k) <= width_up_to(s, k),
        forall|x: DomainId|
            (x.id as int) < k && (#[trigger] t.upper_bound(x)) - t.lower_bound(x) < s.upper_bound(x)
                - s.lower_bound(x) ==> width_up_to(t, k) < width_up_to(s, k),
    decreases k,
{
    if k > 0 {
        lemma_width_monotone(s, t, (k - 1) as nat);
        let last = DomainId { id: (k - 1) as u32 };
        assert(s.is_valid_domain(last));
        assert(t.lower_bound(last) >= s.lower_bound(last) && t.upper_bound(last) <= s.upper_bound(last));
        assert forall|x: DomainId|
            (x.id as int) < k && (#[trigger] t.upper_bound(x)) - t.lower_bound(x) < s.upper_bound(x)
                - s.lower_bound(x) implies width_up_to(t, k) < width_up_to(s, k) by {
            if x.id as int == k - 1 {
                assert(x == last);
            }
        }
    }
}

pub proof fn lemma_extends_transitive(a: AssignmentsView, b: AssignmentsView, c: AssignmentsView)
    requires
        extends(a, b),
        extends(b, c),
    ensures
        extends(a, c),
{
    assert(c.trail.take(a.trail.len() as int) =~= b.trail.take(a.trail.len() as int));
    assert forall|x: DomainId| a.is_valid_domain(x) implies #[trigger] c.lower_bound(x)
        >= a.lower_bound(x) && c.upper_bound(x) <= a.upper_bound(x) by {
        assert(b.is_valid_domain(x));
        assert(b.lower_bound(x) >= a.lower_bound(x));
    }
}

pub proof fn lemma_extends_reflexive(a: AssignmentsView)
    ensures
        extends(a, a),
{
    assert(a.trail.take(a.trail.len() as int) =~= a.trail);
}

/// A tightened lower bound extends the store, and narrows it unless
/// nothing changed.
pub proof fn lemma_tighten_lower_bound_extends(
    s: AssignmentsView,
    x: DomainId,
    value: i32,
    reason: Option<ReasonRef>,
)
    requires
        s.wf(),
        s.is_valid_domain(x),
        value <= s.upper_bound(x),
    ensures
        extends(s, s.tighten_lower_bound(x, value, reason).0),
        same_or_narrower(s, s.tighten_lower_bound(x, value, reason).0),
{
    let t = s.tighten_lower_bound(x, value, reason).0;
    lemma_tighten_lower_bound_result(s, x, value, reason);
    if value > s.lower_bound(x) {
        assert(t.trail.take(s.trail.len() as int) =~= s.trail);
        assert forall|y: DomainId| s.is_valid_domain(y) implies #[trigger] t.lower_bound(y)
            >= s.lower_bound(y) && t.upper_bound(y) <= s.upper_bound(y) by {
            if y != x {
                assert(t.state(y) == s.state(y));
            }
        }
        lemma_width_monotone(s, t, s.num_domains());
        assert(t.upper_bound(x) - t.lower_bound(x) < s.upper_bound(x) - s.lower_bound(x));
    } else {
        lemma_extends_reflexive(s);
    }
}

/// A tightened upper bound extends the store, and narrows it unless
/// nothing changed.
pub proof fn lemma_tighten_upper_bound_extends(
    s: AssignmentsView,
    x: DomainId,
    value: i32,
    reason: Option<ReasonRef>,
)
    requires
        s.wf(),
        s.is_valid_domain(x),
        value >= s.lower_bound(x),
    ensures
        extends(s, s.tighten_upper_bound(x, value, reason).0),
        same_or_narrower(s, s.tighten_upper_bound(x, value, reason).0),
{
    let t = s.tighten_upper_bound(x, value, reason).0;
    lemma_tighten_upper_bound_result(s, x, value, reason);
    if value < s.upper_bound(x) {
        assert(t.trail.take(s.trail.len() as int) =~= s.trail);
        assert forall|y: DomainId| s.is_valid_domain(y) implies #[trigger] t.lower_bound(y)
            >= s.lower_bound(y) && t.upper_bound(y) <= s.upper_bound(y) by {
            if y != x {
                assert(t.state(y) == s.state(y));
            }
        }
        lemma_width_monotone(s, t, s.num_domains());
        assert(t.upper_bound(x) - t.lower_bound(x) < s.upper_bound(x) - s.lower_bound(x));
    } else {
        lemma_extends_reflexive(s);
    }
}

/// Narrowing twice is narrowing.
pub proof fn lemma_same_or_narrower_chain(a: AssignmentsView, b: AssignmentsView, c: AssignmentsView)
    requires
        a.wf(),
        b.wf(),
        extends(a, b),
        extends(b, c),
        same_or_narrower(a, b),
        same_or_narrower(b, c),
    ensures
        same_or_narrower(a, c),
{
    lemma_width_monotone(a, b, a.num_domains());
    lemma_width_monotone(b, c, b.num_domains());
}

/// Whatever the value, tightening a lower bound leaves a well-formed store
/// that extends the old one and is the same or narrower.
pub proof fn lemma_tighten_lower_bound_any(s: AssignmentsView, x: DomainId, value: i32, reason: Option<ReasonRef>)
    requires
        s.wf(),
        s.is_valid_domain(x),
    ensures
        s.tighten_lower_bound(x, value, reason).0.wf(),
        extends(s, s.tighten_lower_bound(x, value, reason).0),
        same_or_narrower(s, s.tighten_lower_bound(x, value, reason).0),
{
    if value <= s.upper_bound(x) {
        lemma_tighten_lower_bound_result(s, x, value, reason);
        lemma_tighten_lower_bound_extends(s, x, value, reason);
    } else {
        lemma_extends_reflexive(s);
    }
}

/// Whatever the value, tightening an upper bound leaves a well-formed store
/// that extends the old one and is the same or narrower.
pub proof fn lemma_tighten_upper_bound_any(s: AssignmentsView, x: DomainId, value: i32, reason: Option<ReasonRef>)
    requires
        s.wf(),
        s.is_valid_domain(x),
    ensures
        s.tighten_upper_bound(x, value, reason).0.wf(),
        extends(s, s.tighten_upper_bound(x, value, reason).0),
        same_or_narrower(s, s.tighten_upper_bound(x, value, reason).0),
{
    if value >= s.lower_bound(x) {
        lemma_tighten_upper_bound_result(s, x, value, reason);
        lemma_tighten_upper_bound_extends(s, x, value, reason);
    } else {
        lemma_extends_reflexive(s);
    }
}

} // verus!
