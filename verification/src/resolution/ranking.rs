//! The order in which the nodes of a layer are kept when the layer is
//! bounded.

use crate::resolution::state::{TspState, TspStateView};
use std::cmp::Ordering;
use vstd::prelude::*;

verus! {

/// Whether `a` holds more work than `b`: more cities owed for sure; with as
/// many of those, more owed perhaps; with as many of both, more cities at
/// which the node may stand.
pub open spec fn more_work(a: TspStateView, b: TspStateView) -> bool {
    ||| a.must_visit.len() > b.must_visit.len()
    ||| a.must_visit.len() == b.must_visit.len() && a.might_visit.len() > b.might_visit.len()
    ||| a.must_visit.len() == b.must_visit.len() && a.might_visit.len() == b.might_visit.len()
        && a.current.len() > b.current.len()
}

/// Whether the two nodes hold as much work: the three sets have the same
/// sizes.
pub open spec fn same_work(a: TspStateView, b: TspStateView) -> bool {
    &&& a.must_visit.len() == b.must_visit.len()
    &&& a.might_visit.len() == b.might_visit.len()
    &&& a.current.len() == b.current.len()
}

/// The rank of `a` against `b`: nodes come in descending order of work, so
/// the one with more work is the lesser.
pub open spec fn ranking(a: TspStateView, b: TspStateView) -> Ordering {
    if more_work(a, b) {
        Ordering::Less
    } else if same_work(a, b) {
        Ordering::Equal
    } else {
        Ordering::Greater
    }
}

/// The ranking of travelling-salesman states.
#[derive(Debug, Clone, Copy)]
pub struct TspRanking;

impl TspRanking {
    /// Compares two states by the work they hold, most work first.
    pub fn compare(&self, a: &TspState, b: &TspState) -> (r: Ordering)
        ensures
            r == ranking(a@, b@),
    {
        let a_must = a.must_visit().len();
        let b_must = b.must_visit().len();
        if a_must != b_must {
            return if a_must > b_must {
                Ordering::Less
            } else {
                Ordering::Greater
            };
        }
        let a_might = a.might_visit().len();
        let b_might = b.might_visit().len();
        if a_might != b_might {
            return if a_might > b_might {
                Ordering::Less
            } else {
                Ordering::Greater
            };
        }
        let a_current = a.current().len();
        let b_current = b.current().len();
        if a_current > b_current {
            Ordering::Less
        } else if a_current == b_current {
            Ordering::Equal
        } else {
            Ordering::Greater
        }
    }
}

/// The ranking is a total preorder on states, and an order on the sizes it
/// compares: a state ranks equal to itself; swapping the arguments reverses
/// the result; and ranking no later is transitive.
pub proof fn lemma_ranking_total(a: TspStateView, b: TspStateView, c: TspStateView)
    ensures
        ranking(a, a) == Ordering::Equal,
        ranking(a, b) == Ordering::Less <==> ranking(b, a) == Ordering::Greater,
        ranking(a, b) == Ordering::Equal <==> ranking(b, a) == Ordering::Equal,
        ranking(a, b) != Ordering::Greater && ranking(b, c) != Ordering::Greater ==> ranking(a, c)
            != Ordering::Greater,
        ranking(a, b) == Ordering::Equal <==> same_work(a, b),
{
}

} // verus!
