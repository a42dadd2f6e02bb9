//! Who waits when a bound moves: a propagator of a linear inequality that
//! is violated or not at its fixpoint waits in the queue, as long as every
//! change of a bound wakes those that watch it.

use vstd::prelude::*;
use crate::engine::domain_width::extends;
use crate::basic_types::domain_events::IntDomainEvent;
use crate::basic_types::domain_id::DomainId;
use crate::basic_types::linear_less_or_equal::LinearLessOrEqual;
use crate::basic_types::linear_terms::lemma_lower_bound_sum_congruent;
use crate::basic_types::linear_terms::term_lower_bound;
use crate::basic_types::linear_terms::term_upper_bound;
use crate::engine::assignments_view::AssignmentsView;
use crate::engine::cp_engine_data_structures::after_changes;
use crate::engine::propagation::store::PropagatorStore;
use crate::engine::propagator_queue::PropagatorId;
use crate::engine::propagator_queue::after_enqueue;
use crate::engine::propagator_queue::after_pop;
use crate::engine::propagator_queue::first_nonempty;
use crate::engine::propagator_queue::holds;
use crate::engine::propagator_queue::is_first_nonempty;
use crate::engine::watch_list_cp::PropagatorVarId;
use crate::engine::watch_list_cp::WatchListCP;
use crate::engine::watch_list_cp::enqueue_all;
use crate::engine::watch_list_cp::enqueue_one;
use crate::propagators::linear_less_or_equal::at_fixpoint;
use crate::propagators::linear_less_or_equal::is_violated;
use crate::propagators::linear_less_or_equal::watched_event;

verus! {

/// Every watcher whose propagator has a priority for which there is a
/// queue waits.
pub open spec fn is_offered(
    queues: Seq<Seq<PropagatorId>>,
    watchers: Seq<PropagatorVarId>,
    priorities: Seq<u32>,
) -> bool {
    forall|j: int|
        0 <= j < watchers.len() && ((#[trigger] watchers[j]).propagator.0 as int) < priorities.len() && (
        priorities[watchers[j].propagator.0 as int] as int) < queues.len() ==> holds(
            queues,
            watchers[j].propagator,
        )
}

/// From the domains `s` with the queues `q` to the domains `t` with the
/// queues `q2`, whoever waited still waits, and whoever watches a bound
/// that moved waits.
pub open spec fn wakes(
    watch_list: &WatchListCP,
    priorities: Seq<u32>,
    s: AssignmentsView,
    q: Seq<Seq<PropagatorId>>,
    t: AssignmentsView,
    q2: Seq<Seq<PropagatorId>>,
) -> bool {
    &&& q2.len() == q.len()
    &&& forall|id: PropagatorId| holds(q, id) ==> #[trigger] holds(q2, id)
    &&& forall|y: DomainId|
        s.is_valid_domain(y) && t.lower_bound(y) > s.lower_bound(y) ==> is_offered(
            q2,
            #[trigger] watch_list.watchers_of(y, IntDomainEvent::LowerBound),
            priorities,
        )
    &&& forall|y: DomainId|
        s.is_valid_domain(y) && t.upper_bound(y) < s.upper_bound(y) ==> is_offered(
            q2,
            #[trigger] watch_list.watchers_of(y, IntDomainEvent::UpperBound),
            priorities,
        )
}

/// The inequality can hold in the domains and removes nothing from them.
pub open spec fn settled(inequality: &LinearLessOrEqual, s: AssignmentsView) -> bool {
    at_fixpoint(inequality, s) && !is_violated(inequality, s)
}

/// Every propagator of a linear inequality is registered, for each of its
/// terms, for the event that raises the least value of the term.
pub open spec fn watched(store: &PropagatorStore, watch_list: &WatchListCP) -> bool {
    forall|i: int, k: int|
        0 <= i < store.propagators@.len() && (#[trigger] store.propagators@[i]) is LinearLessOrEqual && 0
            <= k < store.propagators@[i]->LinearLessOrEqual_0.inequality.lhs@.len() ==> exists|j: int|
            0 <= j < watch_list.watchers_of(
                (#[trigger] store.propagators@[i]->LinearLessOrEqual_0.inequality.lhs@[k]).0,
                watched_event(store.propagators@[i]->LinearLessOrEqual_0.inequality.lhs@[k].1),
            ).len() && (#[trigger] watch_list.watchers_of(
                store.propagators@[i]->LinearLessOrEqual_0.inequality.lhs@[k].0,
                watched_event(store.propagators@[i]->LinearLessOrEqual_0.inequality.lhs@[k].1),
            )[j]).propagator == PropagatorId(i as u32)
}

/// Every propagator of a linear inequality but `except` that is not
/// settled waits in the queue.
pub open spec fn awake(
    queues: Seq<Seq<PropagatorId>>,
    store: &PropagatorStore,
    s: AssignmentsView,
    except: Option<PropagatorId>,
) -> bool {
    forall|i: int|
        0 <= i < store.propagators@.len() && (#[trigger] store.propagators@[i]) is LinearLessOrEqual
            && Some(PropagatorId(i as u32)) != except && !settled(
            &store.propagators@[i]->LinearLessOrEqual_0.inequality,
            s,
        ) ==> holds(queues, PropagatorId(i as u32))
}

/// Every linear inequality can hold in the domains and removes nothing
/// from them.
pub open spec fn all_settled(store: &PropagatorStore, s: AssignmentsView) -> bool {
    forall|i: int|
        0 <= i < store.propagators@.len() && (#[trigger] store.propagators@[i]) is LinearLessOrEqual
            ==> settled(&store.propagators@[i]->LinearLessOrEqual_0.inequality, s)
}

/// Who waited still waits after a propagator was offered, and the
/// propagator waits too.
pub proof fn lemma_enqueue_one(queues: Seq<Seq<PropagatorId>>, id: PropagatorId, priorities: Seq<u32>)
    ensures
        enqueue_one(queues, id, priorities).len() == queues.len(),
        forall|other: PropagatorId|
            holds(queues, other) ==> #[trigger] holds(enqueue_one(queues, id, priorities), other),
        (id.0 as int) < priorities.len() && (priorities[id.0 as int] as int) < queues.len() ==> holds(
            enqueue_one(queues, id, priorities),
            id,
        ),
{
    let after = enqueue_one(queues, id, priorities);
    if (id.0 as int) < priorities.len() && (priorities[id.0 as int] as int) < queues.len() {
        let priority = priorities[id.0 as int] as int;
        if !holds(queues, id) {
            assert(after == queues.update(priority, queues[priority].push(id)));
            assert(after[priority][queues[priority].len() as int] == id);
            assert forall|other: PropagatorId| holds(queues, other) implies #[trigger] holds(
                after,
                other,
            ) by {
                let (p, i) = choose|p: int, i: int|
                    0 <= p < queues.len() && 0 <= i < queues[p].len() && #[trigger] queues[p][i] == other;
                assert(after[p][i] == other);
            }
        }
    }
}

/// Who waited still waits after the watchers were offered, and the
/// watchers' propagators wait too.
pub proof fn lemma_enqueue_all(
    queues: Seq<Seq<PropagatorId>>,
    watchers: Seq<PropagatorVarId>,
    priorities: Seq<u32>,
)
    ensures
        enqueue_all(queues, watchers, priorities).len() == queues.len(),
        forall|other: PropagatorId|
            holds(queues, other) ==> #[trigger] holds(enqueue_all(queues, watchers, priorities), other),
        is_offered(enqueue_all(queues, watchers, priorities), watchers, priorities),
    decreases watchers.len(),
{
    if watchers.len() > 0 {
        let first = enqueue_one(queues, watchers[0].propagator, priorities);
        let rest = watchers.drop_first();
        let after = enqueue_all(queues, watchers, priorities);
        lemma_enqueue_one(queues, watchers[0].propagator, priorities);
        lemma_enqueue_all(first, rest, priorities);
        assert(after == enqueue_all(first, rest, priorities));
        assert forall|other: PropagatorId| holds(queues, other) implies #[trigger] holds(after, other) by {
            assert(holds(first, other));
        }
        assert forall|j: int|
            0 <= j < watchers.len() && ((#[trigger] watchers[j]).propagator.0 as int) < priorities.len()
                && (priorities[watchers[j].propagator.0 as int] as int) < after.len() implies holds(
            after,
            watchers[j].propagator,
        ) by {
            if j == 0 {
                assert(holds(first, watchers[0].propagator));
            } else {
                assert(rest[j - 1] == watchers[j]);
            }
        }
    }
}

/// Watchers that wait still wait where who waited still waits.
pub proof fn lemma_offered_stays(
    q: Seq<Seq<PropagatorId>>,
    q2: Seq<Seq<PropagatorId>>,
    watchers: Seq<PropagatorVarId>,
    priorities: Seq<u32>,
)
    requires
        q2.len() == q.len(),
        forall|id: PropagatorId| holds(q, id) ==> #[trigger] holds(q2, id),
        is_offered(q, watchers, priorities),
    ensures
        is_offered(q2, watchers, priorities),
{
    assert forall|j: int|
        0 <= j < watchers.len() && ((#[trigger] watchers[j]).propagator.0 as int) < priorities.len() && (
        priorities[watchers[j].propagator.0 as int] as int) < q2.len() implies holds(
        q2,
        watchers[j].propagator,
    ) by {
        assert(holds(q, watchers[j].propagator));
    }
}

/// Telling the watchers of `x` how its domain changed wakes those that
/// watch a bound that moved, provided no other domain changed.
pub proof fn lemma_changes_wake(
    watch_list: &WatchListCP,
    priorities: Seq<u32>,
    s: AssignmentsView,
    q: Seq<Seq<PropagatorId>>,
    x: DomainId,
    t: AssignmentsView,
)
    requires
        forall|y: DomainId|
            s.is_valid_domain(y) && y != x ==> #[trigger] t.lower_bound(y) == s.lower_bound(y)
                && t.upper_bound(y) == s.upper_bound(y),
    ensures
        wakes(
            watch_list,
            priorities,
            s,
            q,
            t,
            after_changes(q, watch_list, x, s.state(x), t.state(x), priorities),
        ),
{
    let before = s.state(x);
    let after = t.state(x);
    let lower = watch_list.watchers_of(x, IntDomainEvent::LowerBound);
    let upper = watch_list.watchers_of(x, IntDomainEvent::UpperBound);
    let hole = watch_list.watchers_of(x, IntDomainEvent::Hole);
    let assign = watch_list.watchers_of(x, IntDomainEvent::Assign);
    let q1 = if after.lower_bound > before.lower_bound {
        enqueue_all(q, lower, priorities)
    } else {
        q
    };
    let q2 = if after.upper_bound < before.upper_bound {
        enqueue_all(q1, upper, priorities)
    } else {
        q1
    };
    let q3 = if after.holes.len() > before.holes.len() {
        enqueue_all(q2, hole, priorities)
    } else {
        q2
    };
    let q4 = after_changes(q, watch_list, x, before, after, priorities);
    lemma_enqueue_all(q, lower, priorities);
    lemma_enqueue_all(q1, upper, priorities);
    lemma_enqueue_all(q2, hole, priorities);
    lemma_enqueue_all(q3, assign, priorities);
    assert forall|id: PropagatorId| holds(q, id) implies #[trigger] holds(q4, id) by {
        assert(holds(q1, id));
        assert(holds(q2, id));
        assert(holds(q3, id));
    }
    assert forall|id: PropagatorId| holds(q1, id) implies #[trigger] holds(q4, id) by {
        assert(holds(q2, id));
        assert(holds(q3, id));
    }
    assert forall|id: PropagatorId| holds(q2, id) implies #[trigger] holds(q4, id) by {
        assert(holds(q3, id));
    }
    if after.lower_bound > before.lower_bound {
        lemma_offered_stays(q1, q4, lower, priorities);
    }
    if after.upper_bound < before.upper_bound {
        lemma_offered_stays(q2, q4, upper, priorities);
    }
    assert forall|y: DomainId|
        s.is_valid_domain(y) && t.lower_bound(y) > s.lower_bound(y) implies is_offered(
        q4,
        #[trigger] watch_list.watchers_of(y, IntDomainEvent::LowerBound),
        priorities,
    ) by {
        if y != x {
            assert(t.lower_bound(y) == s.lower_bound(y));
        }
    }
    assert forall|y: DomainId|
        s.is_valid_domain(y) && t.upper_bound(y) < s.upper_bound(y) implies is_offered(
        q4,
        #[trigger] watch_list.watchers_of(y, IntDomainEvent::UpperBound),
        priorities,
    ) by {
        if y != x {
            assert(t.lower_bound(y) == s.lower_bound(y));
        }
    }
}

/// Nothing changed: whoever waited still waits.
pub proof fn lemma_wakes_reflexive(
    watch_list: &WatchListCP,
    priorities: Seq<u32>,
    s: AssignmentsView,
    q: Seq<Seq<PropagatorId>>,
)
    ensures
        wakes(watch_list, priorities, s, q, s, q),
{
}

/// Two changes in a row, each of which only narrows the bounds.
pub proof fn lemma_wakes_transitive(
    watch_list: &WatchListCP,
    priorities: Seq<u32>,
    s: AssignmentsView,
    q: Seq<Seq<PropagatorId>>,
    t: AssignmentsView,
    q2: Seq<Seq<PropagatorId>>,
    u: AssignmentsView,
    q3: Seq<Seq<PropagatorId>>,
)
    requires
        wakes(watch_list, priorities, s, q, t, q2),
        wakes(watch_list, priorities, t, q2, u, q3),
        s.initial_bounds == t.initial_bounds,
        forall|y: DomainId|
            s.is_valid_domain(y) ==> #[trigger] t.lower_bound(y) >= s.lower_bound(y) && t.upper_bound(y)
                <= s.upper_bound(y),
    ensures
        wakes(watch_list, priorities, s, q, u, q3),
{
    assert forall|id: PropagatorId| holds(q, id) implies #[trigger] holds(q3, id) by {
        assert(holds(q2, id));
    }
    assert forall|y: DomainId|
        s.is_valid_domain(y) && u.lower_bound(y) > s.lower_bound(y) implies is_offered(
        q3,
        #[trigger] watch_list.watchers_of(y, IntDomainEvent::LowerBound),
        priorities,
    ) by {
        assert(t.is_valid_domain(y));
        assert(t.lower_bound(y) >= s.lower_bound(y));
        if t.lower_bound(y) > s.lower_bound(y) {
            lemma_offered_stays(q2, q3, watch_list.watchers_of(y, IntDomainEvent::LowerBound), priorities);
        }
    }
    assert forall|y: DomainId|
        s.is_valid_domain(y) && u.upper_bound(y) < s.upper_bound(y) implies is_offered(
        q3,
        #[trigger] watch_list.watchers_of(y, IntDomainEvent::UpperBound),
        priorities,
    ) by {
        assert(t.is_valid_domain(y));
        assert(t.lower_bound(y) >= s.lower_bound(y));
        assert(t.upper_bound(y) <= s.upper_bound(y));
        if t.upper_bound(y) < s.upper_bound(y) {
            lemma_offered_stays(q2, q3, watch_list.watchers_of(y, IntDomainEvent::UpperBound), priorities);
        }
    }
}

/// Two changes in a row, the first of which extends the trail.
pub proof fn lemma_wakes_chain(
    watch_list: &WatchListCP,
    priorities: Seq<u32>,
    s: AssignmentsView,
    q: Seq<Seq<PropagatorId>>,
    t: AssignmentsView,
    q2: Seq<Seq<PropagatorId>>,
    u: AssignmentsView,
    q3: Seq<Seq<PropagatorId>>,
)
    requires
        wakes(watch_list, priorities, s, q, t, q2),
        wakes(watch_list, priorities, t, q2, u, q3),
        extends(s, t),
    ensures
        wakes(watch_list, priorities, s, q, u, q3),
{
    assert forall|y: DomainId| s.is_valid_domain(y) implies (#[trigger] t.lower_bound(y)) >= s.lower_bound(
        y,
    ) && t.upper_bound(y) <= s.upper_bound(y) by {
        assert(t.initial_bounds == s.initial_bounds);
        assert(t.is_valid_domain(y));
        assert(t.lower_bound(y) >= s.lower_bound(y));
        assert(t.upper_bound(y) <= s.upper_bound(y));
    }
    lemma_wakes_transitive(watch_list, priorities, s, q, t, q2, u, q3);
}

/// A settled inequality stays so where no term's least value changes and
/// no term's greatest value grows.
pub proof fn lemma_fixpoint_stays(inequality: &LinearLessOrEqual, s: AssignmentsView, t: AssignmentsView)
    requires
        settled(inequality, s),
        forall|k: int|
            0 <= k < inequality.lhs@.len() ==> #[trigger] term_lower_bound(
                inequality.lhs@[k],
                t,
                t.trail.len(),
            ) == term_lower_bound(inequality.lhs@[k], s, s.trail.len()),
        forall|k: int|
            0 <= k < inequality.lhs@.len() ==> #[trigger] term_upper_bound(
                inequality.lhs@[k],
                t,
                t.trail.len(),
            ) <= term_upper_bound(inequality.lhs@[k], s, s.trail.len()),
    ensures
        settled(inequality, t),
{
    lemma_lower_bound_sum_congruent(inequality.lhs@, t, t.trail.len(), s, s.trail.len());
    assert forall|k: int| 0 <= k < inequality.lhs@.len() implies #[trigger] term_upper_bound(
        inequality.lhs@[k],
        t,
        t.trail.len(),
    ) <= inequality.rhs - crate::propagators::linear_less_or_equal::current_lower_bound_sum(
        inequality,
        t,
    ) + term_lower_bound(inequality.lhs@[k], t, t.trail.len()) by {
        assert(term_upper_bound(inequality.lhs@[k], s, s.trail.len()) <= inequality.rhs
            - crate::propagators::linear_less_or_equal::current_lower_bound_sum(inequality, s)
            + term_lower_bound(inequality.lhs@[k], s, s.trail.len()));
    }
}

/// The bounds of a term move with the bounds of its variable.
pub proof fn lemma_term_bounds_narrow(term: (DomainId, i32), s: AssignmentsView, t: AssignmentsView)
    requires
        t.lower_bound(term.0) >= s.lower_bound(term.0),
        t.upper_bound(term.0) <= s.upper_bound(term.0),
    ensures
        term_upper_bound(term, t, t.trail.len()) <= term_upper_bound(term, s, s.trail.len()),
        term_lower_bound(term, t, t.trail.len()) >= term_lower_bound(term, s, s.trail.len()),
        term.1 >= 0 && t.lower_bound(term.0) == s.lower_bound(term.0) ==> term_lower_bound(
            term,
            t,
            t.trail.len(),
        ) == term_lower_bound(term, s, s.trail.len()),
        term.1 < 0 && t.upper_bound(term.0) == s.upper_bound(term.0) ==> term_lower_bound(
            term,
            t,
            t.trail.len(),
        ) == term_lower_bound(term, s, s.trail.len()),
{
    let a = term.1 as int;
    let (l1, u1, l2, u2) = (
        s.lower_bound(term.0),
        s.upper_bound(term.0),
        t.lower_bound(term.0),
        t.upper_bound(term.0),
    );
    if a < 0 {
        assert(a * l2 <= a * l1 && a * u2 >= a * u1) by (nonlinear_arith)
            requires
                a < 0,
                l2 >= l1,
                u2 <= u1,
        ;
    } else {
        assert(a * u2 <= a * u1 && a * l2 >= a * l1) by (nonlinear_arith)
            requires
                a >= 0,
                l2 >= l1,
                u2 <= u1,
        ;
    }
}

/// Where every change of a bound woke those that watch it, the
/// propagators that are not settled still all wait.
pub proof fn lemma_stays_awake(
    store: &PropagatorStore,
    watch_list: &WatchListCP,
    s: AssignmentsView,
    q: Seq<Seq<PropagatorId>>,
    t: AssignmentsView,
    q2: Seq<Seq<PropagatorId>>,
    except: Option<PropagatorId>,
)
    requires
        store.wf(s),
        watched(store, watch_list),
        q.len() == crate::engine::propagation::propagator::NUM_PRIORITY_LEVELS,
        s.initial_bounds == t.initial_bounds,
        forall|y: DomainId|
            s.is_valid_domain(y) ==> #[trigger] t.lower_bound(y) >= s.lower_bound(y) && t.upper_bound(y)
                <= s.upper_bound(y),
        wakes(watch_list, store.priorities@, s, q, t, q2),
        awake(q, store, s, except),
    ensures
        awake(q2, store, t, except),
{
    assert forall|i: int|
        0 <= i < store.propagators@.len() && (#[trigger] store.propagators@[i]) is LinearLessOrEqual
            && Some(PropagatorId(i as u32)) != except && !settled(
            &store.propagators@[i]->LinearLessOrEqual_0.inequality,
            t,
        ) implies holds(q2, PropagatorId(i as u32)) by {
        let inequality = &store.propagators@[i]->LinearLessOrEqual_0.inequality;
        let terms = inequality.lhs@;
        let id = PropagatorId(i as u32);
        assert(store.propagators@[i].wf(s));
        if settled(inequality, s) {
            assert forall|k: int| 0 <= k < terms.len() implies #[trigger] term_upper_bound(
                terms[k],
                t,
                t.trail.len(),
            ) <= term_upper_bound(terms[k], s, s.trail.len()) by {
                assert(s.is_valid_domain(terms[k].0));
                assert(t.lower_bound(terms[k].0) >= s.lower_bound(terms[k].0));
                lemma_term_bounds_narrow(terms[k], s, t);
            }
            if forall|k: int|
                0 <= k < terms.len() ==> #[trigger] term_lower_bound(terms[k], t, t.trail.len())
                    == term_lower_bound(terms[k], s, s.trail.len()) {
                lemma_fixpoint_stays(inequality, s, t);
            } else {
                let k = choose|k: int|
                    0 <= k < terms.len() && #[trigger] term_lower_bound(terms[k], t, t.trail.len())
                        != term_lower_bound(terms[k], s, s.trail.len());
                let y = terms[k].0;
                assert(s.is_valid_domain(terms[k].0));
                assert(t.lower_bound(y) >= s.lower_bound(y));
                lemma_term_bounds_narrow(terms[k], s, t);
                let watchers = watch_list.watchers_of(y, watched_event(terms[k].1));
                let j = choose|j: int|
                    0 <= j < watchers.len() && (#[trigger] watchers[j]).propagator == id;
                assert(store.priorities@[i] < crate::engine::propagation::propagator::NUM_PRIORITY_LEVELS);
                if terms[k].1 < 0 {
                    assert(t.upper_bound(y) < s.upper_bound(y));
                    assert(is_offered(
                        q2,
                        watch_list.watchers_of(y, IntDomainEvent::UpperBound),
                        store.priorities@,
                    ));
                } else {
                    assert(t.lower_bound(y) > s.lower_bound(y));
                    assert(is_offered(
                        q2,
                        watch_list.watchers_of(y, IntDomainEvent::LowerBound),
                        store.priorities@,
                    ));
                }
                assert(holds(q2, watchers[j].propagator));
            }
        } else {
            assert(holds(q, id));
        }
    }
}

/// Who waited still waits after the next propagator was taken, but for
/// that one.
pub proof fn lemma_pop_keeps_others(queues: Seq<Seq<PropagatorId>>, other: PropagatorId)
    requires
        is_first_nonempty(queues, first_nonempty(queues)),
        holds(queues, other),
        other != queues[first_nonempty(queues)][0],
    ensures
        holds(after_pop(queues), other),
{
    let first = first_nonempty(queues);
    let (p, i) = choose|p: int, i: int|
        0 <= p < queues.len() && 0 <= i < queues[p].len() && #[trigger] queues[p][i] == other;
    let after = after_pop(queues);
    if p == first {
        assert(i > 0);
        assert(after[p][i - 1] == other);
    } else {
        assert(after[p][i] == other);
    }
}

/// Who waited still waits after a propagator was offered at a priority
/// for which there is a queue, and the propagator waits too.
pub proof fn lemma_after_enqueue(queues: Seq<Seq<PropagatorId>>, id: PropagatorId, priority: int)
    requires
        0 <= priority < queues.len(),
    ensures
        after_enqueue(queues, id, priority).len() == queues.len(),
        forall|other: PropagatorId|
            holds(queues, other) ==> #[trigger] holds(after_enqueue(queues, id, priority), other),
        holds(after_enqueue(queues, id, priority), id),
{
    let after = after_enqueue(queues, id, priority);
    if !holds(queues, id) {
        assert(after[priority][queues[priority].len() as int] == id);
        assert forall|other: PropagatorId| holds(queues, other) implies #[trigger] holds(after, other) by {
            let (p, i) = choose|p: int, i: int|
                0 <= p < queues.len() && 0 <= i < queues[p].len() && #[trigger] queues[p][i] == other;
            assert(after[p][i] == other);
        }
    }
}

/// Every list of watchers of `after` begins with the list that `before`
/// has in its place.
pub open spec fn lists_grew(before: &WatchListCP, after: &WatchListCP) -> bool {
    forall|y: DomainId, event: IntDomainEvent|
        (y.id as int) < before.num_domains() ==> before.watchers_of(y, event).len() <= (
        #[trigger] after.watchers_of(y, event)).len() && forall|j: int|
            0 <= j < before.watchers_of(y, event).len() ==> after.watchers_of(y, event)[j]
                == before.watchers_of(y, event)[j]
}

/// Term `k` of propagator `i`, which is one of a linear inequality, has
/// its registration.
pub open spec fn is_registered(store: &PropagatorStore, watch_list: &WatchListCP, i: int, k: int) -> bool {
    exists|j: int|
        0 <= j < watch_list.watchers_of(
            store.propagators@[i]->LinearLessOrEqual_0.inequality.lhs@[k].0,
            watched_event(store.propagators@[i]->LinearLessOrEqual_0.inequality.lhs@[k].1),
        ).len() && (#[trigger] watch_list.watchers_of(
            store.propagators@[i]->LinearLessOrEqual_0.inequality.lhs@[k].0,
            watched_event(store.propagators@[i]->LinearLessOrEqual_0.inequality.lhs@[k].1),
        )[j]).propagator == PropagatorId(i as u32)
}

/// The propagators stay registered where the watch lists only grow and a
/// propagator that is added is registered.
pub proof fn lemma_watched_stays(
    earlier: &PropagatorStore,
    later: &PropagatorStore,
    before: &WatchListCP,
    after: &WatchListCP,
    s: AssignmentsView,
)
    requires
        earlier.wf(s),
        s.num_domains() == before.num_domains(),
        watched(earlier, before),
        lists_grew(before, after),
        earlier.propagators@.len() <= later.propagators@.len(),
        forall|i: int|
            0 <= i < earlier.propagators@.len() ==> #[trigger] later.propagators@[i]
                == earlier.propagators@[i],
        forall|i: int, k: int|
            earlier.propagators@.len() <= i < later.propagators@.len()
                && later.propagators@[i] is LinearLessOrEqual && 0 <= k
                < later.propagators@[i]->LinearLessOrEqual_0.inequality.lhs@.len() ==> #[trigger] is_registered(
                later,
                after,
                i,
                k,
            ),
    ensures
        watched(later, after),
{
    assert forall|i: int, k: int|
        0 <= i < later.propagators@.len() && (#[trigger] later.propagators@[i]) is LinearLessOrEqual && 0
            <= k < later.propagators@[i]->LinearLessOrEqual_0.inequality.lhs@.len() implies exists|j: int|
        0 <= j < after.watchers_of(
            (#[trigger] later.propagators@[i]->LinearLessOrEqual_0.inequality.lhs@[k]).0,
            watched_event(later.propagators@[i]->LinearLessOrEqual_0.inequality.lhs@[k].1),
        ).len() && (#[trigger] after.watchers_of(
            later.propagators@[i]->LinearLessOrEqual_0.inequality.lhs@[k].0,
            watched_event(later.propagators@[i]->LinearLessOrEqual_0.inequality.lhs@[k].1),
        )[j]).propagator == PropagatorId(i as u32) by {
        let term = later.propagators@[i]->LinearLessOrEqual_0.inequality.lhs@[k];
        let event = watched_event(term.1);
        if i < earlier.propagators@.len() {
            assert(earlier.propagators@[i] == later.propagators@[i]);
            assert(earlier.propagators@[i].wf(s));
            assert(s.is_valid_domain(term.0));
            let old_list = before.watchers_of(term.0, event);
            let j = choose|j: int| 0 <= j < old_list.len() && (#[trigger] old_list[j]).propagator
                == PropagatorId(i as u32);
            assert(after.watchers_of(term.0, event)[j] == old_list[j]);
        } else {
            assert(is_registered(later, after, i, k));
        }
    }
}

/// With one more propagator that waits, all that are not settled still
/// wait.
pub proof fn lemma_awake_with_more(
    earlier: &PropagatorStore,
    later: &PropagatorStore,
    q: Seq<Seq<PropagatorId>>,
    q2: Seq<Seq<PropagatorId>>,
    s: AssignmentsView,
)
    requires
        awake(q, earlier, s, None),
        forall|id: PropagatorId| holds(q, id) ==> #[trigger] holds(q2, id),
        earlier.propagators@.len() <= later.propagators@.len(),
        forall|i: int|
            0 <= i < earlier.propagators@.len() ==> #[trigger] later.propagators@[i]
                == earlier.propagators@[i],
        forall|i: int|
            earlier.propagators@.len() <= i < later.propagators@.len() ==> #[trigger] holds(
                q2,
                PropagatorId(i as u32),
            ),
    ensures
        awake(q2, later, s, None),
{
    assert forall|i: int|
        0 <= i < later.propagators@.len() && (#[trigger] later.propagators@[i]) is LinearLessOrEqual
            && !settled(&later.propagators@[i]->LinearLessOrEqual_0.inequality, s) implies holds(
        q2,
        PropagatorId(i as u32),
    ) by {
        if i < earlier.propagators@.len() {
            assert(earlier.propagators@[i] == later.propagators@[i]);
            assert(holds(q, PropagatorId(i as u32)));
        }
    }
}

/// With a new variable, all that are not settled still wait.
pub proof fn lemma_awake_grown(
    store: &PropagatorStore,
    q: Seq<Seq<PropagatorId>>,
    s: AssignmentsView,
    lower: i32,
    upper: i32,
)
    requires
        s.wf(),
        lower <= upper,
        s.initial_bounds.len() < u32::MAX,
        store.wf(s),
        awake(q, store, s, None),
    ensures
        awake(q, store, s.grow(lower, upper), None),
{
    let t = s.grow(lower, upper);
    crate::engine::assignments_view::lemma_grow(s, lower, upper);
    assert forall|i: int|
        0 <= i < store.propagators@.len() && (#[trigger] store.propagators@[i]) is LinearLessOrEqual
            && !settled(&store.propagators@[i]->LinearLessOrEqual_0.inequality, t) implies holds(
        q,
        PropagatorId(i as u32),
    ) by {
        let inequality = &store.propagators@[i]->LinearLessOrEqual_0.inequality;
        let terms = inequality.lhs@;
        assert(store.propagators@[i].wf(s));
        if settled(inequality, s) {
            assert forall|k: int| 0 <= k < terms.len() implies #[trigger] term_lower_bound(
                terms[k],
                t,
                t.trail.len(),
            ) == term_lower_bound(terms[k], s, s.trail.len()) && term_upper_bound(
                terms[k],
                t,
                t.trail.len(),
            ) == term_upper_bound(terms[k], s, s.trail.len()) by {
                assert(s.is_valid_domain(terms[k].0));
                assert(t.state_at(terms[k].0, s.trail.len()) == s.state_at(terms[k].0, s.trail.len()));
            }
            lemma_fixpoint_stays(inequality, s, t);
        }
    }
}

/// The sum of the least values only grows where the bounds only narrow.
pub proof fn lemma_least_value_grows(terms: Seq<(DomainId, i32)>, s: AssignmentsView, t: AssignmentsView)
    requires
        forall|k: int|
            0 <= k < terms.len() ==> t.lower_bound((#[trigger] terms[k]).0) >= s.lower_bound(terms[k].0)
                && t.upper_bound(terms[k].0) <= s.upper_bound(terms[k].0),
    ensures
        crate::basic_types::linear_terms::lower_bound_sum(terms, t, t.trail.len())
            >= crate::basic_types::linear_terms::lower_bound_sum(terms, s, s.trail.len()),
    decreases terms.len(),
{
    if terms.len() > 0 {
        let rest = terms.drop_last();
        assert forall|k: int| 0 <= k < rest.len() implies t.lower_bound((#[trigger] rest[k]).0)
            >= s.lower_bound(rest[k].0) && t.upper_bound(rest[k].0) <= s.upper_bound(rest[k].0) by {
            assert(rest[k] == terms[k]);
        }
        lemma_least_value_grows(rest, s, t);
        assert(terms[terms.len() - 1] == terms.last());
        lemma_term_bounds_narrow(terms.last(), s, t);
    }
}

} // verus!
