//! Showing an instance, and a tour through it, on a map: what is drawn is
//! decided here, the drawing is done outside.

use crate::solution::{read_solution, readable, reads_as, SolutionError};
use vstd::prelude::*;
use vstd::utf8::encode_utf8;

verus! {

/// The request to show an instance, with a tour through it if one is given.
#[derive(Debug, Clone)]
pub struct Visualize {
    /// The path to the instance file.
    pub instance: String,
    /// A tour: the destinations' numbers in the order of the visit.
    pub solution: Option<String>,
    /// Where the page is written; standard output where absent.
    pub output: Option<String>,
    /// The address of the routing service, where it is not the default one.
    pub url_osrm: Option<String>,
}

impl Visualize {
    /// The tour to show, where the request holds one: the numbers that the
    /// bytes of its text read as.
    pub fn tour(&self) -> (r: Result<Option<Vec<usize>>, SolutionError>)
        ensures
            self.solution is None ==> r == Ok::<Option<Vec<usize>>, SolutionError>(None),
            self.solution is Some ==> {
                let text = encode_utf8(self.solution->0@);
                &&& r is Ok <==> readable(text)
                &&& r is Ok ==> r->Ok_0 is Some && reads_as(text, r->Ok_0->0@)
                &&& r is Err ==> r->Err_0 == SolutionError::Malformed
            },
    {
        match &self.solution {
            None => Ok(None),
            Some(text) => {
                match read_solution(text.as_str().as_bytes()) {
                    Ok(tour) => Ok(Some(tour)),
                    Err(e) => Err(e),
                }
            },
        }
    }

    /// The places that a tour goes through, in the order of the visit: for
    /// each number of the solution, the destination of that number.
    pub fn solution_path<L: Copy>(destinations: &[L], solution: &[usize]) -> (r: Result<
        Vec<L>,
        SolutionError,
    >)
        ensures
            r is Ok <==> forall|i: int|
                0 <= i < solution@.len() ==> (#[trigger] solution@[i]) < destinations@.len(),
            r is Ok ==> r->Ok_0@.len() == solution@.len() && forall|i: int|
                0 <= i < solution@.len() ==> (#[trigger] r->Ok_0@[i]) == destinations@[solution@[i] as int],
            r is Err ==> r->Err_0 == SolutionError::UnknownDestination,
    {
        let mut path: Vec<L> = Vec::new();
        let mut i: usize = 0;
        while i < solution.len()
            invariant
                i <= solution@.len(),
                path@.len() == i,
                forall|j: int| 0 <= j < i ==> (#[trigger] solution@[j]) < destinations@.len(),
                forall|j: int|
                    0 <= j < i ==> (#[trigger] path@[j]) == destinations@[solution@[j] as int],
            decreases solution.len() - i,
        {
            let city = solution[i];
            if city >= destinations.len() {
                return Err(SolutionError::UnknownDestination);
            }
            path.push(destinations[city]);
            i += 1;
        }
        Ok(path)
    }
}

} // verus!
