//! Merging the nodes that a bounded layer cannot hold.

use crate::bitset::{lemma_bounded_finite, members};
use crate::resolution::model::{allowed, is_least_cost, transition_view, Decision};
use crate::resolution::state::{TspState, TspStateView};
use smallbitset::Set64;
use vstd::prelude::*;

verus! {

/// What each state of a sequence means.
pub open spec fn views(states: Seq<TspState>) -> Seq<TspStateView> {
    states.map_values(|s: TspState| s@)
}

/// The greatest depth among the states; 0 where there is none.
pub open spec fn deepest(vs: Seq<TspStateView>) -> nat
    decreases vs.len(),
{
    if vs.len() == 0 {
        0
    } else {
        let rest = deepest(vs.drop_last());
        if vs.last().depth > rest {
            vs.last().depth
        } else {
            rest
        }
    }
}

/// The cities at which some state may stand.
pub open spec fn any_current(vs: Seq<TspStateView>) -> Set<u8> {
    Set::new(|x: u8| exists|i: int| 0 <= i < vs.len() && (#[trigger] vs[i]).current.contains(x))
}

/// The cities that every state owes for sure.
pub open spec fn common_must(vs: Seq<TspStateView>) -> Set<u8> {
    Set::new(
        |x: u8| x < 64 && forall|i: int| 0 <= i < vs.len() ==> (#[trigger] vs[i]).must_visit.contains(x),
    )
}

/// The cities that some state owes, for sure or perhaps.
pub open spec fn any_owed(vs: Seq<TspStateView>) -> Set<u8> {
    Set::new(
        |x: u8| exists|i: int| 0 <= i < vs.len() && (#[trigger] vs[i]).remaining().contains(x),
    )
}

/// The one state that stands for all of `vs`: as deep as the deepest, at
/// any city where one of them stands; it owes for sure what all of them owe
/// for sure, and perhaps whatever else any of them owes.
pub open spec fn merge_view(vs: Seq<TspStateView>) -> TspStateView {
    TspStateView {
        depth: deepest(vs),
        current: any_current(vs),
        must_visit: common_must(vs),
        might_visit: any_owed(vs).difference(common_must(vs)),
    }
}

/// The relaxation of the travelling-salesman model.
#[derive(Debug, Clone, Copy)]
pub struct TspRelax;

impl TspRelax {
    /// Merges the given states into one that over-approximates them all.
    pub fn merge(&self, states: &[TspState]) -> (r: TspState)
        ensures
            r@ == merge_view(views(states@)),
            r@.must_visit.disjoint(r@.might_visit),
            (forall|i: int| 0 <= i < states@.len() ==> (#[trigger] states@[i]).wf()) ==> r.wf(),
    {
        let ghost vs = views(states@);
        let mut depth: usize = 0;
        let mut curr = Set64::empty();
        let mut must = Set64::full();
        let mut owed = Set64::empty();
        proof {
            assert(vs.take(0).len() == 0);
            assert(members(curr) =~= any_current(vs.take(0)));
            assert(members(must) =~= common_must(vs.take(0)));
            assert(members(owed) =~= any_owed(vs.take(0)));
        }
        let mut k: usize = 0;
        while k < states.len()
            invariant
                vs == views(states@),
                k <= states.len(),
                depth == deepest(vs.take(k as int)),
                members(curr) == any_current(vs.take(k as int)),
                members(must) == common_must(vs.take(k as int)),
                members(owed) == any_owed(vs.take(k as int)),
            decreases states.len() - k,
        {
            let state = &states[k];
            let ghost before = vs.take(k as int);
            let ghost after = vs.take(k + 1);
            proof {
                assert(vs[k as int] == state@);
                lemma_take_next(vs, k as int);
            }
            if state.depth() > depth {
                depth = state.depth();
            }
            curr = curr.union(state.current());
            must = must.inter(state.must_visit());
            owed = owed.union(state.must_visit()).union(state.might_visit());
            proof {
                lemma_merge_step(before, state@);
                assert(after == before.push(state@));
            }
            k += 1;
        }
        proof {
            assert(vs.take(k as int) =~= vs);
        }
        let r = TspState::new(depth, curr, must, owed.diff(must));
        proof {
            if forall|i: int| 0 <= i < states@.len() ==> (#[trigger] states@[i]).wf() {
                assert forall|i: int| 0 <= i < vs.len() implies (#[trigger] vs[i]).wf() by {
                    assert(states@[i].wf());
                }
                lemma_merge_wf(vs);
            }
        }
        r
    }

    /// The cost of an edge into a merged node: the cost it had. The least
    /// cost over all the cities at which a merged node stands is optimistic
    /// already.
    pub fn relax(
        &self,
        source: &TspState,
        dest: &TspState,
        merged: &TspState,
        decision: Decision,
        cost: isize,
    ) -> (r: isize)
        ensures
            r == cost,
    {
        cost
    }
}

/// The first `k + 1` states are the first `k` and the one that follows.
proof fn lemma_take_next(vs: Seq<TspStateView>, k: int)
    requires
        0 <= k < vs.len(),
    ensures
        vs.take(k + 1) == vs.take(k).push(vs[k]),
{
    assert(vs.take(k + 1) =~= vs.take(k).push(vs[k]));
}

/// What one more state does to each part of a merge.
proof fn lemma_merge_step(vs: Seq<TspStateView>, s: TspStateView)
    ensures
        deepest(vs.push(s)) == if s.depth > deepest(vs) {
            s.depth
        } else {
            deepest(vs)
        },
        any_current(vs.push(s)) == any_current(vs).union(s.current),
        common_must(vs.push(s)) == common_must(vs).intersect(s.must_visit),
        any_owed(vs.push(s)) == any_owed(vs).union(s.must_visit).union(s.might_visit),
{
    let ws = vs.push(s);
    let last = vs.len() as int;
    assert(ws.drop_last() =~= vs);
    assert(ws.last() == s);
    assert forall|i: int| 0 <= i < vs.len() implies #[trigger] ws[i] == vs[i] by {}
    assert(ws[last] == s);
    assert forall|x: u8| any_current(ws).contains(x) <==> any_current(vs).union(
        s.current,
    ).contains(x) by {
        if any_current(ws).contains(x) {
            let i = choose|i: int| 0 <= i < ws.len() && (#[trigger] ws[i]).current.contains(x);
            if i < last {
                assert(vs[i].current.contains(x));
            }
        }
        if any_current(vs).contains(x) {
            let i = choose|i: int| 0 <= i < vs.len() && (#[trigger] vs[i]).current.contains(x);
            assert(ws[i].current.contains(x));
        }
        if s.current.contains(x) {
            assert(ws[last].current.contains(x));
        }
    }
    assert(any_current(ws) =~= any_current(vs).union(s.current));
    assert forall|x: u8| common_must(ws).contains(x) <==> common_must(vs).intersect(
        s.must_visit,
    ).contains(x) by {
        if common_must(ws).contains(x) {
            assert(ws[last].must_visit.contains(x));
            assert forall|i: int| 0 <= i < vs.len() implies (#[trigger] vs[i]).must_visit.contains(
                x,
            ) by {
                assert(ws[i].must_visit.contains(x));
            }
        }
        if common_must(vs).contains(x) && s.must_visit.contains(x) {
            assert forall|i: int| 0 <= i < ws.len() implies (#[trigger] ws[i]).must_visit.contains(
                x,
            ) by {
                if i < last {
                    assert(vs[i].must_visit.contains(x));
                }
            }
        }
    }
    assert(common_must(ws) =~= common_must(vs).intersect(s.must_visit));
    assert forall|x: u8| any_owed(ws).contains(x) <==> any_owed(vs).union(s.must_visit).union(
        s.might_visit,
    ).contains(x) by {
        if any_owed(ws).contains(x) {
            let i = choose|i: int| 0 <= i < ws.len() && (#[trigger] ws[i]).remaining().contains(x);
            if i < last {
                assert(vs[i].remaining().contains(x));
            }
        }
        if any_owed(vs).contains(x) {
            let i = choose|i: int| 0 <= i < vs.len() && (#[trigger] vs[i]).remaining().contains(x);
            assert(ws[i].remaining().contains(x));
        }
        if s.remaining().contains(x) {
            assert(ws[last].remaining().contains(x));
        }
    }
    assert(any_owed(ws) =~= any_owed(vs).union(s.must_visit).union(s.might_visit));
}

/// A merge of well-formed states is well formed: it owes no city both for
/// sure and perhaps, and its sets stay within the capacity of a bitset.
pub proof fn lemma_merge_wf(vs: Seq<TspStateView>)
    requires
        forall|i: int| 0 <= i < vs.len() ==> (#[trigger] vs[i]).wf(),
    ensures
        merge_view(vs).wf(),
{
    let m = merge_view(vs);
    assert forall|x: u8| m.current.contains(x) implies x < 64 by {
        let i = choose|i: int| 0 <= i < vs.len() && (#[trigger] vs[i]).current.contains(x);
        assert(vs[i].wf());
    }
    assert forall|x: u8| m.might_visit.contains(x) implies x < 64 by {
        let i = choose|i: int| 0 <= i < vs.len() && (#[trigger] vs[i]).remaining().contains(x);
        assert(vs[i].wf());
    }
}

/// Merging loses no move. A city that may be visited from one of the
/// merged states may be visited from the merge, and the merge then owes for
/// sure no more than that state did after the same visit.
pub proof fn lemma_merge_keeps_transitions(vs: Seq<TspStateView>, i: int, city: u8)
    requires
        0 <= i < vs.len(),
        vs[i].remaining().contains(city),
    ensures
        merge_view(vs).remaining().contains(city),
        transition_view(merge_view(vs), city).must_visit.subset_of(
            transition_view(vs[i], city).must_visit,
        ),
{
    assert(any_owed(vs).contains(city));
    assert forall|x: u8| common_must(vs).contains(x) implies vs[i].must_visit.contains(x) by {}
}

/// Merging loses no move of a tour under way. From a state that is not about
/// to close its tour, every city that may be visited next may be visited
/// next from the merge too. The closing move is the exception: a state with
/// one city left goes back to the start, which a merge with more cities
/// left does not offer.
pub proof fn lemma_merge_keeps_allowed(vs: Seq<TspStateView>, i: int, city: u8)
    requires
        forall|j: int| 0 <= j < vs.len() ==> (#[trigger] vs[j]).wf(),
        0 <= i < vs.len(),
        vs[i].remaining().len() != 1,
        allowed(vs[i]).contains(city),
    ensures
        allowed(merge_view(vs)).contains(city),
{
    let m = merge_view(vs);
    let s = vs[i];
    lemma_merge_keeps_transitions(vs, i, city);
    lemma_merge_wf(vs);
    assert(s.wf());
    lemma_bounded_finite(m.must_visit);
    lemma_bounded_finite(m.might_visit);
    lemma_bounded_finite(s.must_visit);
    lemma_bounded_finite(s.might_visit);
    assert(s.remaining().subset_of(m.remaining())) by {
        assert forall|x: u8| s.remaining().contains(x) implies m.remaining().contains(x) by {
            lemma_merge_keeps_transitions(vs, i, x);
        }
    }
    vstd::set_lib::lemma_len_subset(s.remaining(), m.remaining());
    if m.remaining().len() == 1 {
        assert(s.remaining().len() == 0);
        assert(s.remaining().contains(city));
        assert(false);
    }
}

/// Merging keeps the bound optimistic. The merge stands wherever one of the
/// merged states stands, so its cheapest way into a city costs no more than
/// theirs.
pub proof fn lemma_merge_cost_optimistic(
    costs: Seq<Seq<isize>>,
    vs: Seq<TspStateView>,
    i: int,
    to: int,
    merged: int,
    single: int,
)
    requires
        0 <= i < vs.len(),
        is_least_cost(costs, merge_view(vs).current, to, merged),
        is_least_cost(costs, vs[i].current, to, single),
    ensures
        merged <= single,
        vs[i].current.subset_of(merge_view(vs).current),
{
    let from = choose|from: u8|
        vs[i].current.contains(from) && #[trigger] costs[from as int][to] == single;
    assert(any_current(vs).contains(from));
}

} // verus!
