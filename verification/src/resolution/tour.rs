//! What the model means: the paths that its decisions allow from the root
//! are the tours, and the objective of a path is minus what the tour costs.

use crate::bitset::{below, lemma_below_finite};
use crate::resolution::model::{
    allowed, initial_view, is_least_cost, lemma_singleton_exact, transition_value, transition_view,
};
use crate::resolution::state::TspStateView;
use vstd::prelude::*;

verus! {

/// The state reached from the root of a model of `n` cities by visiting the
/// cities of `path` in order.
pub open spec fn state_after(n: nat, path: Seq<u8>) -> TspStateView
    decreases path.len(),
{
    if path.len() == 0 {
        initial_view(n)
    } else {
        transition_view(state_after(n, path.drop_last()), path.last())
    }
}

/// Every visit of the path was allowed in the state in which it was made.
pub open spec fn follows(n: nat, path: Seq<u8>) -> bool
    decreases path.len(),
{
    path.len() == 0 || (follows(n, path.drop_last()) && allowed(
        state_after(n, path.drop_last()),
    ).contains(path.last()))
}

/// The start of a tour of `n` cities: cities of the model, none visited
/// twice, and the start visited at the very end only, as visit `n - 1`.
pub open spec fn partial_tour(n: nat, path: Seq<u8>) -> bool {
    &&& path.len() <= n
    &&& forall|i: int| 0 <= i < path.len() ==> (#[trigger] path[i]) < n
    &&& forall|i: int, j: int| 0 <= i < j < path.len() ==> path[i] != path[j]
    &&& forall|i: int| 0 <= i < path.len() ==> ((#[trigger] path[i]) == 0 <==> i == n - 1)
}

/// A tour of `n` cities: every city once, the start last. With the start in
/// front it is a Hamiltonian cycle through city 0.
pub open spec fn is_tour(n: nat, path: Seq<u8>) -> bool {
    path.len() == n && partial_tour(n, path)
}

/// The city from which visit `i` of the path sets out.
pub open spec fn origin(path: Seq<u8>, i: int) -> u8 {
    if i == 0 {
        0u8
    } else {
        path[i - 1]
    }
}

/// The cost of travelling from city 0 along the path.
pub open spec fn travel_cost(costs: Seq<Seq<isize>>, path: Seq<u8>) -> int
    decreases path.len(),
{
    if path.len() == 0 {
        0
    } else {
        travel_cost(costs, path.drop_last()) + costs[origin(path, path.len() - 1) as int][path.last() as int]
    }
}

/// The objective of a path: the values of its transitions, added up.
pub open spec fn path_value(costs: Seq<Seq<isize>>, n: nat, path: Seq<u8>) -> int
    decreases path.len(),
{
    if path.len() == 0 {
        0
    } else {
        path_value(costs, n, path.drop_last()) + transition_value(
            costs,
            state_after(n, path.drop_last()),
            path.last() as int,
        )
    }
}

/// A path stands where its last visit went, or at the start.
pub proof fn lemma_state_after_exact(n: nat, path: Seq<u8>)
    ensures
        state_after(n, path).current == set![origin(path, path.len() as int)],
        state_after(n, path).is_exact(),
        state_after(n, path).depth == path.len(),
        state_after(n, path).might_visit == Set::<u8>::empty(),
    decreases path.len(),
{
    lemma_singleton_exact(origin(path, path.len() as int));
    if path.len() > 0 {
        lemma_state_after_exact(n, path.drop_last());
        assert(state_after(n, path).might_visit =~= Set::<u8>::empty());
    }
}

/// Every state reached from the root is well formed and exact: it owes no
/// city both for sure and perhaps, and it stands at one city. Only a merge
/// makes a state that stands at several.
pub proof fn lemma_reached_states_wf(n: nat, path: Seq<u8>)
    requires
        n <= 64,
        forall|i: int| 0 <= i < path.len() ==> (#[trigger] path[i]) < 64,
    ensures
        state_after(n, path).wf(),
        state_after(n, path).must_visit.disjoint(state_after(n, path).might_visit),
        state_after(n, path).is_exact(),
    decreases path.len(),
{
    lemma_state_after_exact(n, path);
    if path.len() > 0 {
        let front = path.drop_last();
        assert forall|i: int| 0 <= i < front.len() implies (#[trigger] front[i]) < 64 by {
            assert(front[i] == path[i]);
        }
        lemma_reached_states_wf(n, front);
        assert(path[path.len() - 1] == path.last());
    }
}

/// After the start of a tour that has not come back to city 0, the cities
/// owed are those not visited, and there are as many as visits are left.
proof fn lemma_owed_after(n: nat, path: Seq<u8>)
    requires
        n <= 64,
        partial_tour(n, path),
        path.len() < n,
    ensures
        forall|x: u8|
            #![trigger state_after(n, path).must_visit.contains(x)]
            state_after(n, path).must_visit.contains(x) <==> x < n && !path.contains(x),
        state_after(n, path).must_visit.finite(),
        state_after(n, path).must_visit.len() == n - path.len(),
        state_after(n, path).remaining() == state_after(n, path).must_visit,
    decreases path.len(),
{
    let s = state_after(n, path);
    lemma_state_after_exact(n, path);
    assert(s.remaining() =~= s.must_visit);
    if path.len() == 0 {
        lemma_below_finite(n);
        assert forall|x: u8| #![trigger s.must_visit.contains(x)] s.must_visit.contains(x) <==> x < n && !path.contains(x) by {
            assert(below(n).contains(x) <==> (x as nat) < n);
        }
    } else {
        let front = path.drop_last();
        let city = path.last();
        assert forall|i: int| 0 <= i < front.len() implies (#[trigger] front[i]) == path[i] by {}
        lemma_owed_after(n, front);
        let before = state_after(n, front);
        assert(!front.contains(city)) by {
            if front.contains(city) {
                let i = choose|i: int| 0 <= i < front.len() && front[i] == city;
                assert(path[i] == path[path.len() - 1]);
            }
        }
        assert(city == path[path.len() - 1]);
        assert(before.must_visit.contains(city));
        assert forall|x: u8| #![trigger s.must_visit.contains(x)] s.must_visit.contains(x) <==> x < n && !path.contains(x) by {
            if path.contains(x) {
                let i = choose|i: int| 0 <= i < path.len() && path[i] == x;
                if i < front.len() {
                    assert(front[i] == x);
                    assert(front.contains(x));
                }
            }
            if x != city && front.contains(x) {
                let i = choose|i: int| 0 <= i < front.len() && front[i] == x;
                assert(path[i] == x);
            }
            if x == city {
                assert(path[path.len() - 1] == x);
            }
        }
    }
}

/// One more visit keeps a path the start of a tour exactly when the visit
/// is allowed.
proof fn lemma_next_visit(n: nat, path: Seq<u8>)
    requires
        1 <= n <= 64,
        0 < path.len() <= n,
        partial_tour(n, path.drop_last()),
    ensures
        allowed(state_after(n, path.drop_last())).contains(path.last()) <==> partial_tour(n, path),
{
    let front = path.drop_last();
    let city = path.last();
    let last = path.len() - 1;
    let before = state_after(n, front);
    lemma_owed_after(n, front);
    assert forall|i: int| 0 <= i < front.len() implies (#[trigger] front[i]) == path[i] by {}
    assert(path[last] == city);
    if allowed(before).contains(city) {
        if before.remaining().len() == 1 {
            assert(city == 0);
            assert(last == n - 1);
        } else {
            assert(before.must_visit.contains(city));
            assert(city != 0);
        }
        assert forall|i: int, j: int| 0 <= i < j < path.len() implies path[i] != path[j] by {
            if j == last {
                assert(front[i] == path[i]);
                if path[i] == city {
                    if last == n - 1 {
                        assert(front[i] == 0);
                    } else {
                        assert(front.contains(city));
                    }
                }
            } else {
                assert(front[i] != front[j]);
            }
        }
        assert forall|i: int| 0 <= i < path.len() implies ((#[trigger] path[i]) == 0 <==> i == n
            - 1) by {
            if i < last {
                assert(front[i] == path[i]);
            }
        }
        assert forall|i: int| 0 <= i < path.len() implies (#[trigger] path[i]) < n by {
            if i < last {
                assert(front[i] == path[i]);
            }
        }
        assert(partial_tour(n, path));
    }
    if partial_tour(n, path) {
        assert(!front.contains(city)) by {
            if front.contains(city) {
                let i = choose|i: int| 0 <= i < front.len() && front[i] == city;
                assert(path[i] == path[last]);
            }
        }
        assert(before.must_visit.contains(city));
        if last == n - 1 {
            assert(city == 0);
        } else {
            assert(city != 0);
            assert(before.remaining().len() != 1);
        }
        assert(allowed(before).contains(city));
    }
}

/// The paths that the decisions allow are the starts of tours: from the
/// root, a run of allowed visits never visits a city twice and comes back
/// to city 0 with the last visit and no sooner; and every such run is
/// allowed.
pub proof fn lemma_paths_are_tours(n: nat, path: Seq<u8>)
    requires
        1 <= n <= 64,
        path.len() <= n,
    ensures
        follows(n, path) <==> partial_tour(n, path),
        path.len() == n ==> (follows(n, path) <==> is_tour(n, path)),
    decreases path.len(),
{
    if path.len() > 0 {
        let front = path.drop_last();
        lemma_paths_are_tours(n, front);
        if partial_tour(n, front) {
            lemma_next_visit(n, path);
        } else if partial_tour(n, path) {
            assert forall|i: int| 0 <= i < front.len() implies (#[trigger] front[i]) == path[i] by {}
            assert(partial_tour(n, front));
        }
    }
}

/// A whole tour leaves nothing owed: the diagram ends there.
pub proof fn lemma_tour_owes_nothing(n: nat, path: Seq<u8>)
    requires
        1 <= n <= 64,
        is_tour(n, path),
    ensures
        state_after(n, path).remaining() == Set::<u8>::empty(),
        state_after(n, path).depth == n,
{
    let front = path.drop_last();
    assert forall|i: int| 0 <= i < front.len() implies (#[trigger] front[i]) == path[i] by {}
    lemma_owed_after(n, front);
    lemma_state_after_exact(n, path);
    let before = state_after(n, front);
    assert(before.must_visit.len() == 1);
    assert(path[n - 1] == 0);
    assert(before.must_visit.contains(0u8)) by {
        if front.contains(0u8) {
            let i = choose|i: int| 0 <= i < front.len() && front[i] == 0u8;
            assert(path[i] == 0);
        }
    }
    assert(before.must_visit.remove(0u8).len() == 0);
    assert(state_after(n, path).remaining() =~= Set::<u8>::empty());
}

/// From a state that stands at one city, the value of a transition is minus
/// the cost of the one edge.
pub proof fn lemma_exact_transition_value(costs: Seq<Seq<isize>>, s: TspStateView, from: u8, to: int)
    requires
        s.current == set![from],
    ensures
        transition_value(costs, s, to) == -costs[from as int][to],
{
    let c = costs[from as int][to] as int;
    assert(s.current.contains(from));
    assert(is_least_cost(costs, s.current, to, c));
    crate::resolution::model::lemma_least_cost_unique(costs, s.current, to, c);
}

/// The objective of a path is minus the cost of travelling along it. For a
/// tour that is the cost of the whole cycle, so that the greater objective
/// belongs to the cheaper tour.
pub proof fn lemma_path_value(costs: Seq<Seq<isize>>, n: nat, path: Seq<u8>)
    ensures
        path_value(costs, n, path) == -travel_cost(costs, path),
    decreases path.len(),
{
    if path.len() > 0 {
        let front = path.drop_last();
        lemma_path_value(costs, n, front);
        lemma_state_after_exact(n, front);
        assert(origin(front, front.len() as int) == origin(path, path.len() - 1));
        lemma_exact_transition_value(
            costs,
            state_after(n, front),
            origin(path, path.len() - 1),
            path.last() as int,
        );
    }
}

} // verus!
