//! The travelling-salesman problem as a sequence of decisions.
//!
//! City 0 is where the tour starts and ends. Layer `d` of the diagram
//! decides the `d`-th city visited after the start; the last layer closes
//! the tour by going back to city 0.

use crate::bitset::{below, increasing, items, members};
use crate::resolution::state::{TspState, TspStateView};
use smallbitset::Set64;
use vstd::prelude::*;

verus! {

/// Travel costs are held as integers: the metric (metres or seconds) times
/// this factor, rounded. An objective divided by minus this factor is the
/// metric again.
pub const COST_SCALE: isize = 100_000;

/// The choice of one city at one layer of the diagram.
#[derive(Debug, Clone, Copy, PartialEq, Eq, Structural)]
pub struct Decision {
    /// The layer: the rank of the visit after the start.
    pub variable: usize,
    /// The city visited.
    pub value: isize,
}

/// The rows of a matrix, each as a sequence.
pub open spec fn matrix_view(m: Vec<Vec<isize>>) -> Seq<Seq<isize>> {
    Seq::new(m@.len(), |i: int| m@[i]@)
}

/// A cost matrix that a model accepts: square, for 1 to 64 cities, without
/// a negative entry.
pub open spec fn well_formed_costs(c: Seq<Seq<isize>>) -> bool {
    &&& 1 <= c.len() <= 64
    &&& forall|i: int| 0 <= i < c.len() ==> (#[trigger] c[i]).len() == c.len()
    &&& forall|i: int, j: int| 0 <= i < c.len() && 0 <= j < c.len() ==> #[trigger] c[i][j] >= 0
}

/// The state from which every tour starts: at city 0, nothing decided, all
/// `n` cities owed (city 0 is owed as the closing move).
pub open spec fn initial_view(n: nat) -> TspStateView {
    TspStateView {
        depth: 0,
        current: set![0u8],
        must_visit: below(n),
        might_visit: Set::empty(),
    }
}

/// The state reached from `s` by visiting `city`.
pub open spec fn transition_view(s: TspStateView, city: u8) -> TspStateView {
    TspStateView {
        depth: s.depth + 1,
        current: set![city],
        must_visit: s.must_visit.remove(city),
        might_visit: s.might_visit.remove(city),
    }
}

/// `c` is the cheapest way into `to` from a city of `froms`: some city of
/// `froms` reaches `to` at cost `c`, and none for less.
pub open spec fn is_least_cost(costs: Seq<Seq<isize>>, froms: Set<u8>, to: int, c: int) -> bool {
    &&& exists|from: u8| froms.contains(from) && #[trigger] costs[from as int][to] == c
    &&& forall|from: u8| froms.contains(from) ==> c <= #[trigger] costs[from as int][to]
}

/// The least cost into `to` from a city of `froms`, where there is one.
pub open spec fn least_cost(costs: Seq<Seq<isize>>, froms: Set<u8>, to: int) -> int {
    choose|c: int| is_least_cost(costs, froms, to, c)
}

/// What a visit of `to` from the state `s` adds to the objective: minus the
/// least cost into `to` from a city at which `s` may stand; nothing where
/// it stands nowhere.
pub open spec fn transition_value(costs: Seq<Seq<isize>>, s: TspStateView, to: int) -> int {
    if s.current.is_empty() {
        0
    } else {
        -least_cost(costs, s.current, to)
    }
}

/// The cities that may be visited next from a state. When one city is left
/// to visit the tour closes: the only move is back to the start. Before
/// that, every city still open but the start is a candidate, so that the
/// tour returns to the start once, at its end.
pub open spec fn allowed(s: TspStateView) -> Set<u8> {
    if s.remaining().len() == 1 {
        set![0u8]
    } else {
        s.remaining().remove(0u8)
    }
}

/// `ds` lists, for layer `var`, the given cities, each once, in increasing
/// order.
pub open spec fn lists(ds: Seq<Decision>, var: usize, cities: Set<u8>) -> bool {
    &&& forall|i: int| 0 <= i < ds.len() ==> (#[trigger] ds[i]).variable == var
    &&& forall|i: int, j: int| 0 <= i < j < ds.len() ==> ds[i].value < ds[j].value
    &&& forall|i: int|
        0 <= i < ds.len() ==> 0 <= (#[trigger] ds[i]).value < 64 && cities.contains(
            ds[i].value as u8,
        )
    &&& forall|city: u8|
        cities.contains(city) ==> exists|i: int|
            0 <= i < ds.len() && (#[trigger] ds[i]).value == city
}

/// A travelling-salesman problem over the cities `0..n`, given by the cost
/// of going from each city to each other.
#[derive(Debug, Clone)]
pub struct TspModel {
    costs: Vec<Vec<isize>>,
}

impl TspModel {
    /// The scaled cost matrix: `costs()[i][j]` is the cost of going from
    /// city `i` to city `j`.
    pub closed spec fn costs(&self) -> Seq<Seq<isize>> {
        matrix_view(self.costs)
    }

    /// The number of cities.
    pub open spec fn size(&self) -> nat {
        self.costs().len()
    }

    /// The cost matrix is well formed.
    pub open spec fn wf(&self) -> bool {
        well_formed_costs(self.costs())
    }

    /// The state is well formed and speaks of this model's cities only.
    pub open spec fn admits(&self, s: TspStateView) -> bool {
        &&& s.wf()
        &&& s.current.subset_of(below(self.size()))
        &&& s.must_visit.subset_of(below(self.size()))
        &&& s.might_visit.subset_of(below(self.size()))
    }

    /// A model over the given scaled costs, if they form a square matrix
    /// for 1 to 64 cities without a negative entry.
    pub fn new(costs: Vec<Vec<isize>>) -> (r: Option<TspModel>)
        ensures
            r is Some <==> well_formed_costs(matrix_view(costs)),
            r is Some ==> r->0.costs() == matrix_view(costs) && r->0.wf(),
    {
        let n = costs.len();
        if n < 1 || n > 64 {
            return None;
        }
        let mut i: usize = 0;
        while i < n
            invariant
                n == costs@.len(),
                1 <= n <= 64,
                i <= n,
                forall|a: int| 0 <= a < i ==> (#[trigger] matrix_view(costs)[a]).len() == n,
                forall|a: int, b: int|
                    0 <= a < i && 0 <= b < n ==> #[trigger] matrix_view(costs)[a][b] >= 0,
            decreases n - i,
        {
            if costs[i].len() != n {
                assert(matrix_view(costs)[i as int].len() != n);
                return None;
            }
            let mut j: usize = 0;
            while j < n
                invariant
                    n == costs@.len(),
                    i < n,
                    j <= n,
                    costs@[i as int]@.len() == n,
                    forall|b: int| 0 <= b < j ==> #[trigger] costs@[i as int]@[b] >= 0,
                decreases n - j,
            {
                if costs[i][j] < 0 {
                    assert(matrix_view(costs)[i as int][j as int] < 0);
                    return None;
                }
                j += 1;
            }
            assert forall|a: int, b: int| 0 <= a < i + 1 && 0 <= b < n implies #[trigger] matrix_view(
                costs,
            )[a][b] >= 0 by {
                if a == i {
                    assert(matrix_view(costs)[a][b] == costs@[i as int]@[b]);
                }
            }
            i += 1;
        }
        Some(TspModel { costs })
    }

    /// The number of decisions of a tour, which is the number of cities.
    pub fn nb_variables(&self) -> (r: usize)
        ensures
            r == self.size(),
    {
        self.costs.len()
    }

    /// The scaled cost of going from city `from` to city `to`.
    pub fn cost(&self, from: usize, to: usize) -> (r: isize)
        requires
            self.wf(),
            from < self.size(),
            to < self.size(),
        ensures
            r == self.costs()[from as int][to as int],
            r >= 0,
    {
        assert(self.costs()[from as int].len() == self.size());
        self.costs[from][to]
    }

    /// The root of the search: at city 0, with every city still owed.
    pub fn initial_state(&self) -> (r: TspState)
        requires
            self.wf(),
        ensures
            r@ == initial_view(self.size()),
            r@.is_exact(),
            self.admits(r@),
    {
        let n = self.nb_variables();
        let mut must = Set64::empty();
        assert(members(must) =~= below(0));
        let mut i: usize = 0;
        while i < n
            invariant
                n <= 64,
                i <= n,
                members(must) == below(i as nat),
            decreases n - i,
        {
            must = must.insert(i as u8);
            assert(members(must) =~= below((i + 1) as nat));
            i += 1;
        }
        let r = TspState::new(0, Set64::singleton(0), must, Set64::empty());
        proof {
            lemma_singleton_exact(0u8);
            assert(set![0u8].subset_of(below(n as nat)));
        }
        r
    }

    /// The objective of the empty tour.
    pub fn initial_value(&self) -> (r: isize)
        ensures
            r == 0,
    {
        0
    }

    /// The state reached from `state` by the given decision: one level
    /// deeper, standing at the chosen city, which is owed no more.
    pub fn transition(&self, state: &TspState, decision: Decision) -> (r: TspState)
        requires
            self.wf(),
            0 <= decision.value < self.size(),
            state@.depth < usize::MAX,
        ensures
            r@ == transition_view(state@, decision.value as u8),
            r@.is_exact(),
            !r@.remaining().contains(decision.value as u8),
            state.wf() ==> r.wf(),
            self.admits(state@) ==> self.admits(r@),
    {
        let city = decision.value as u8;
        let r = TspState::new(
            state.depth() + 1,
            Set64::singleton(city),
            state.must_visit().remove(city),
            state.might_visit().remove(city),
        );
        proof {
            lemma_singleton_exact(city);
        }
        r
    }

    /// What the decision adds to the objective: minus the cost of the
    /// cheapest way into the chosen city from a city at which `state` may
    /// stand. Taking the least keeps the bound of a merged node optimistic.
    /// The engine maximises, hence the sign.
    pub fn transition_cost(&self, state: &TspState, decision: Decision) -> (r: isize)
        requires
            self.wf(),
            state@.current.subset_of(below(self.size())),
            0 <= decision.value < self.size(),
        ensures
            r == transition_value(self.costs(), state@, decision.value as int),
            state@.current.is_empty() ==> r == 0,
            !state@.current.is_empty() ==> is_least_cost(
                self.costs(),
                state@.current,
                decision.value as int,
                -r,
            ),
            r <= 0,
    {
        let to = decision.value as usize;
        let froms = items(state.current());
        let ghost current = state@.current;
        let ghost costs = self.costs();
        assert forall|j: int| 0 <= j < froms.len() implies (#[trigger] froms@[j]) < self.size() by {
            assert(froms@.contains(froms@[j]));
        }
        let mut least: Option<isize> = None;
        let mut k: usize = 0;
        while k < froms.len()
            invariant
                self.wf(),
                costs == self.costs(),
                to < self.size(),
                k <= froms.len(),
                forall|j: int| 0 <= j < froms.len() ==> (#[trigger] froms@[j]) < self.size(),
                k == 0 ==> least is None,
                k > 0 ==> least is Some && least->0 >= 0,
                k > 0 ==> exists|j: int|
                    0 <= j < k && #[trigger] costs[froms@[j] as int][to as int] == least->0,
                forall|j: int|
                    0 <= j < k ==> least->0 <= #[trigger] costs[froms@[j] as int][to as int],
            decreases froms.len() - k,
        {
            let c = self.cost(froms[k] as usize, to);
            let ghost found = k as int;
            match least {
                Some(l) => {
                    if c < l {
                        least = Some(c);
                    } else {
                        proof {
                            let j = choose|j: int|
                                0 <= j < k && #[trigger] costs[froms@[j] as int][to as int] == l;
                            assert(costs[froms@[j] as int][to as int] == least->0);
                        }
                    }
                },
                None => {
                    least = Some(c);
                },
            }
            proof {
                if least->0 == c {
                    assert(costs[froms@[found] as int][to as int] == least->0);
                }
            }
            k += 1;
        }
        match least {
            Some(l) => {
                proof {
                    let j = choose|j: int|
                        0 <= j < k && #[trigger] costs[froms@[j] as int][to as int] == l;
                    assert(froms@.contains(froms@[j]));
                    assert(current.contains(froms@[j]));
                    assert forall|from: u8| current.contains(from) implies l
                        <= #[trigger] costs[from as int][to as int] by {
                        assert(froms@.contains(from));
                        let i = choose|i: int| 0 <= i < froms@.len() && froms@[i] == from;
                        assert(l <= costs[froms@[i] as int][to as int]);
                    }
                    lemma_least_cost_unique(costs, current, to as int, l as int);
                }
                -l
            },
            None => {
                proof {
                    assert forall|x: u8| !current.contains(x) by {
                        if current.contains(x) {
                            assert(froms@.contains(x));
                        }
                    }
                    assert(current =~= Set::<u8>::empty());
                }
                0
            },
        }
    }

    /// The layer to decide next: the depth of the first state of the next
    /// layer, as long as a decision is left at that depth.
    pub fn next_variable(&self, next_layer: &[TspState]) -> (r: Option<usize>)
        ensures
            r is Some <==> next_layer@.len() > 0 && next_layer@[0]@.depth < self.size(),
            r is Some ==> r->0 == next_layer@[0]@.depth,
    {
        if next_layer.len() == 0 {
            return None;
        }
        let depth = next_layer[0].depth();
        if depth < self.nb_variables() {
            Some(depth)
        } else {
            None
        }
    }

    /// The decisions open for layer `var` at `state`, in the order in which
    /// they are to be tried: one for each city that may be visited next.
    pub fn for_each_in_domain(&self, var: usize, state: &TspState) -> (r: Vec<Decision>)
        ensures
            lists(r@, var, allowed(state@)),
    {
        let dest = state.must_visit().union(state.might_visit());
        let mut out: Vec<Decision> = Vec::new();
        if dest.len() == 1 {
            out.push(Decision { variable: var, value: 0 });
            assert(out@[0].value == 0u8);
        } else {
            let tos = items(dest);
            let ghost remaining = state@.remaining();
            let mut k: usize = 0;
            while k < tos.len()
                invariant
                    k <= tos.len(),
                    increasing(tos@),
                    forall|x: u8| tos@.contains(x) <==> remaining.contains(x),
                    forall|j: int| 0 <= j < tos@.len() ==> (#[trigger] tos@[j]) < 64,
                    forall|i: int| 0 <= i < out@.len() ==> (#[trigger] out@[i]).variable == var,
                    forall|i: int, j: int| 0 <= i < j < out@.len() ==> out@[i].value < out@[j].value,
                    forall|i: int|
                        0 <= i < out@.len() ==> 0 < (#[trigger] out@[i]).value < 64
                            && remaining.contains(out@[i].value as u8),
                    forall|i: int, j: int|
                        0 <= i < out@.len() && k <= j < tos@.len() ==> (#[trigger] out@[i]).value
                            < #[trigger] tos@[j],
                    forall|j: int|
                        0 <= j < k && tos@[j] != 0 ==> exists|i: int|
                            0 <= i < out@.len() && (#[trigger] out@[i]).value == tos@[j],
                decreases tos.len() - k,
            {
                let to = tos[k];
                assert(tos@.contains(to));
                if to != 0 {
                    let ghost before = out@;
                    out.push(Decision { variable: var, value: to as isize });
                    proof {
                        let last = before.len() as int;
                        assert(out@[last].value == to);
                        assert forall|j: int| 0 <= j < k + 1 && tos@[j] != 0 implies exists|i: int|
                            0 <= i < out@.len() && (#[trigger] out@[i]).value == tos@[j] by {
                            if j < k {
                                let i = choose|i: int|
                                    0 <= i < before.len() && (#[trigger] before[i]).value
                                        == tos@[j];
                                assert(out@[i].value == tos@[j]);
                            } else {
                                assert(out@[last].value == tos@[j]);
                            }
                        }
                    }
                }
                k += 1;
            }
            proof {
                assert forall|city: u8| allowed(state@).contains(city) implies exists|i: int|
                    0 <= i < out@.len() && (#[trigger] out@[i]).value == city by {
                    assert(tos@.contains(city));
                    let j = choose|j: int| 0 <= j < tos@.len() && tos@[j] == city;
                    assert(tos@[j] != 0);
                }
            }
        }
        out
    }
}

/// There is one least cost at most.
pub proof fn lemma_least_cost_unique(costs: Seq<Seq<isize>>, froms: Set<u8>, to: int, c: int)
    requires
        is_least_cost(costs, froms, to, c),
    ensures
        least_cost(costs, froms, to) == c,
        !froms.is_empty(),
{
    let other = least_cost(costs, froms, to);
    assert(is_least_cost(costs, froms, to, other));
    let a = choose|from: u8| froms.contains(from) && #[trigger] costs[from as int][to] == c;
    let b = choose|from: u8| froms.contains(from) && #[trigger] costs[from as int][to] == other;
    assert(other <= costs[a as int][to]);
    assert(c <= costs[b as int][to]);
}

/// A set of one city is finite and has one member.
pub proof fn lemma_singleton_exact(city: u8)
    ensures
        set![city].finite(),
        set![city].len() == 1,
{
    assert(set![city] =~= Set::<u8>::empty().insert(city));
}

} // verus!
