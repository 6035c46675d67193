//! Solving an instance by branch and bound over decision diagrams: the
//! travelling-salesman model that the search engine explores, and what is
//! reported of its answer.

pub mod model;
pub mod ranking;
pub mod relax;
pub mod state;
pub mod tour;

use crate::resolution::model::{Decision, COST_SCALE};
use crate::solution::{line_of, write_solution};
use vstd::prelude::*;

verus! {

/// A travel cost in the metric of the instance (metres or seconds), exact
/// to five decimals: `units + fraction / 100_000`.
#[derive(Debug, Clone, Copy, PartialEq, Eq, Structural)]
pub struct Metric {
    /// The whole part, rounded down.
    pub units: isize,
    /// The hundred-thousandths above the whole part, from 0 to 99 999.
    pub fraction: isize,
}

/// The metric that an objective stands for: the objective divided by minus
/// the scale of the costs. An absent objective reads as zero.
pub open spec fn metric_of(best_value: Option<isize>) -> Metric {
    match best_value {
        Some(v) => Metric {
            units: ((-(v as int)) / (COST_SCALE as int)) as isize,
            fraction: ((-(v as int)) % (COST_SCALE as int)) as isize,
        },
        None => Metric { units: 0, fraction: 0 },
    }
}

/// The request to solve an instance.
#[derive(Debug, Clone)]
pub struct Solve {
    /// The path to the instance file.
    pub instance: String,
    /// The most nodes that a layer of a diagram may hold.
    pub width: usize,
    /// The time the search may take, in seconds.
    pub timeout: u64,
    /// Where the answer is written; standard output where absent.
    pub output: Option<String>,
}

impl Solve {
    /// The travel cost that the solver's objective stands for.
    pub fn best_metric(best_value: Option<isize>) -> (r: Metric)
        ensures
            r == metric_of(best_value),
            0 <= r.fraction < COST_SCALE,
            best_value is Some ==> r.units * COST_SCALE + r.fraction == -best_value->0,
    {
        match best_value {
            None => Metric { units: 0, fraction: 0 },
            Some(v) => {
                if v <= 0 {
                    let m: i128 = -(v as i128);
                    let units = m / 100_000;
                    let fraction = m % 100_000;
                    proof {
                        vstd::arithmetic::div_mod::lemma_fundamental_div_mod(m as int, 100_000);
                    }
                    Metric { units: units as isize, fraction: fraction as isize }
                } else {
                    let up: i128 = (v as i128 + 99_999) / 100_000;
                    let fraction: i128 = up * 100_000 - v as i128;
                    proof {
                        vstd::arithmetic::div_mod::lemma_fundamental_div_mod(
                            v as int + 99_999,
                            100_000,
                        );
                        vstd::arithmetic::div_mod::lemma_fundamental_div_mod_converse(
                            -(v as int),
                            100_000,
                            -(up as int),
                            fraction as int,
                        );
                    }
                    Metric { units: (-up) as isize, fraction: fraction as isize }
                }
            },
        }
    }

    /// The cities of a solution, in the order of its decisions.
    pub fn solution_values(decisions: &[Decision]) -> (r: Vec<isize>)
        ensures
            r@ == decisions@.map_values(|d: Decision| d.value),
    {
        let mut values: Vec<isize> = Vec::new();
        let mut i: usize = 0;
        while i < decisions.len()
            invariant
                i <= decisions@.len(),
                values@ == decisions@.take(i as int).map_values(|d: Decision| d.value),
            decreases decisions.len() - i,
        {
            values.push(decisions[i].value);
            assert(decisions@.take(i + 1) =~= decisions@.take(i as int).push(decisions@[i as int]));
            assert(values@ =~= decisions@.take(i + 1).map_values(|d: Decision| d.value));
            i += 1;
        }
        assert(decisions@.take(i as int) =~= decisions@);
        values
    }

    /// The text of a solution: the city of each decision, in order, each
    /// followed by a space.
    pub fn solution_text(decisions: &[Decision]) -> (r: Vec<u8>)
        ensures
            r@ == line_of(decisions@.map_values(|d: Decision| d.value)),
    {
        let values = Solve::solution_values(decisions);
        write_solution(values.as_slice())
    }
}

} // verus!
