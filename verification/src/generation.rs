//! Generating a clustered instance: what is asked for, whether it can be
//! done, and in which order the work is laid out.
//!
//! Cities are drawn around centroids, and centroids within a bounding box.
//! The drawing itself and the routing service are reached from outside;
//! this module decides everything about a generation that does not depend
//! on the numbers drawn.

use crate::number::Single;
use crate::random::{key_of, seeded_generator, seeded_rng};
use rand_chacha::ChaCha20Rng;
use vstd::arithmetic::div_mod::{lemma_fundamental_div_mod, lemma_mod_bound};
use vstd::arithmetic::mul::lemma_mul_inequality;
use vstd::prelude::*;

verus! {

/// The most cities an instance may hold: the capacity of the bitsets that
/// the solver's states are made of.
pub const MAX_CITIES: usize = 64;

/// Why a generation request cannot be served.
#[derive(Debug, Clone, Copy, PartialEq, Eq, Structural)]
pub enum ParameterError {
    /// More cities are asked for than a state can hold.
    TooManyCities,
    /// There is no centroid to draw cities around.
    NoCentroid,
    /// A bound of the bounding box is an infinity or a NaN.
    NonFiniteBox,
}

/// Which of its two matrices the routing service is asked for.
#[derive(Debug, Clone, Copy, PartialEq, Eq, Structural)]
pub enum Annotation {
    /// Travel distances, in metres.
    Distance,
    /// Travel times, in seconds.
    Duration,
}

/// One stage of a generation.
#[derive(Debug, Clone, Copy, PartialEq, Eq, Structural)]
pub enum GenerationStep {
    /// Draw the centroids, uniformly within the bounding box.
    DrawCentroids,
    /// Move each centroid to the nearest routable point.
    SnapCentroids,
    /// Draw the cities around their centroids.
    DrawCities,
    /// Move each city to the nearest routable point.
    SnapCities,
    /// Ask the routing service for the cost of every pair of cities.
    BuildMatrix(Annotation),
}

/// What the routing service may answer that cannot be used.
#[derive(Debug, Clone, Copy, PartialEq, Eq, Structural)]
pub enum OracleError {
    /// The answer lacks the matrix that was asked for.
    MissingMatrix,
    /// A cell of the matrix is empty: no route joins the two cities.
    NullCell,
    /// No routable point was found near a location.
    NoWaypoint,
}

/// The number of cities drawn around centroid `i`, when `n` cities are
/// spread over `k` centroids as evenly as can be: the first `n % k`
/// centroids get one city more than the others.
pub open spec fn cluster_size(n: nat, k: nat, i: nat) -> nat {
    n / k + if i < n % k {
        1nat
    } else {
        0nat
    }
}

/// The number of cities drawn around the centroids before centroid `i`.
pub open spec fn cities_before(n: nat, k: nat, i: nat) -> nat
    decreases i,
{
    if i == 0 {
        0
    } else {
        cities_before(n, k, (i - 1) as nat) + cluster_size(n, k, (i - 1) as nat)
    }
}

/// The sum of the sizes.
pub open spec fn total(sizes: Seq<usize>) -> nat
    decreases sizes.len(),
{
    if sizes.len() == 0 {
        0
    } else {
        total(sizes.drop_last()) + sizes.last() as nat
    }
}

/// The stages of a generation, in order. Cities are moved to routable
/// points only on demand; centroids always are.
pub open spec fn plan(force_routable: bool, duration: bool) -> Seq<GenerationStep> {
    let matrix = GenerationStep::BuildMatrix(
        if duration {
            Annotation::Duration
        } else {
            Annotation::Distance
        },
    );
    if force_routable {
        seq![
            GenerationStep::DrawCentroids,
            GenerationStep::SnapCentroids,
            GenerationStep::DrawCities,
            GenerationStep::SnapCities,
            matrix,
        ]
    } else {
        seq![
            GenerationStep::DrawCentroids,
            GenerationStep::SnapCentroids,
            GenerationStep::DrawCities,
            matrix,
        ]
    }
}

/// Every cell of the matrix is filled.
pub open spec fn complete<T>(m: Seq<Vec<Option<T>>>) -> bool {
    forall|i: int, j: int| 0 <= i < m.len() && 0 <= j < m[i]@.len() ==> (#[trigger] m[i]@[j]) is Some
}

/// `out` holds, cell by cell, what the cells of `m` are filled with.
pub open spec fn unwrapped<T>(out: Seq<Vec<T>>, m: Seq<Vec<Option<T>>>) -> bool {
    &&& out.len() == m.len()
    &&& forall|i: int| 0 <= i < m.len() ==> (#[trigger] out[i])@.len() == m[i]@.len()
    &&& forall|i: int, j: int|
        0 <= i < m.len() && 0 <= j < m[i]@.len() ==> m[i]@[j] == Some(#[trigger] out[i]@[j])
}

/// A request for a clustered instance.
#[derive(Debug, Clone)]
pub struct GenerateInstance {
    /// The seed of the random source; the clock stands in where it is
    /// absent.
    pub seed: Option<u128>,
    /// The number of cities to visit.
    pub nb_cities: usize,
    /// The number of centroids that the cities gather around.
    pub nb_centroids: usize,
    /// The standard deviation between a city and its centroid.
    pub std_dev: Single,
    /// The westmost longitude of the bounding box.
    pub min_longitude: Single,
    /// The eastmost longitude of the bounding box.
    pub max_longitude: Single,
    /// The southmost latitude of the bounding box.
    pub min_latitude: Single,
    /// The northmost latitude of the bounding box.
    pub max_latitude: Single,
    /// Whether every city is moved to a routable point.
    pub force_routable: bool,
    /// Whether costs are travel times rather than distances.
    pub duration: bool,
    /// Where the instance is written; standard output where absent.
    pub output: Option<String>,
    /// The address of the routing service, where it is not the default one.
    pub url_osrm: Option<String>,
}

impl GenerateInstance {
    /// All four bounds of the bounding box are finite.
    pub open spec fn finite_box(&self) -> bool {
        &&& self.min_longitude.finite()
        &&& self.max_longitude.finite()
        &&& self.min_latitude.finite()
        &&& self.max_latitude.finite()
    }

    /// The request can be served.
    pub open spec fn valid(&self) -> bool {
        &&& self.nb_cities <= MAX_CITIES
        &&& self.nb_centroids > 0
        &&& self.finite_box()
    }

    /// Checks the request, as a generation does before anything is drawn.
    /// The first fault found is reported: too many cities, then no
    /// centroid, then a bounding box that is not finite.
    pub fn validate(&self) -> (r: Result<(), ParameterError>)
        ensures
            r is Ok <==> self.valid(),
            r == Err::<(), ParameterError>(ParameterError::TooManyCities) <==> self.nb_cities
                > MAX_CITIES,
            r == Err::<(), ParameterError>(ParameterError::NoCentroid) <==> self.nb_cities
                <= MAX_CITIES && self.nb_centroids == 0,
            r == Err::<(), ParameterError>(ParameterError::NonFiniteBox) <==> self.nb_cities
                <= MAX_CITIES && self.nb_centroids > 0 && !self.finite_box(),
    {
        if self.nb_cities > MAX_CITIES {
            return Err(ParameterError::TooManyCities);
        }
        if self.nb_centroids == 0 {
            return Err(ParameterError::NoCentroid);
        }
        if !(self.min_longitude.is_finite() && self.max_longitude.is_finite()
            && self.min_latitude.is_finite() && self.max_latitude.is_finite()) {
            return Err(ParameterError::NonFiniteBox);
        }
        Ok(())
    }

    /// The seed that the generation runs on: the one asked for, or else the
    /// clock's count of milliseconds.
    pub open spec fn effective_seed(&self, clock_millis: u128) -> u128 {
        match self.seed {
            Some(seed) => seed,
            None => clock_millis,
        }
    }

    /// The random source of the generation, ready to be drawn from.
    pub fn rng(&self, clock_millis: u128) -> (r: ChaCha20Rng)
        ensures
            r == seeded_generator(key_of(self.effective_seed(clock_millis))),
    {
        let seed = match self.seed {
            Some(seed) => seed,
            None => clock_millis,
        };
        seeded_rng(seed)
    }

    /// The stages of the generation, in the order in which they are run.
    pub fn steps(&self) -> (r: Vec<GenerationStep>)
        ensures
            r@ == plan(self.force_routable, self.duration),
    {
        let mut steps: Vec<GenerationStep> = Vec::new();
        steps.push(GenerationStep::DrawCentroids);
        steps.push(GenerationStep::SnapCentroids);
        steps.push(GenerationStep::DrawCities);
        if self.force_routable {
            steps.push(GenerationStep::SnapCities);
        }
        let annotation = if self.duration {
            Annotation::Duration
        } else {
            Annotation::Distance
        };
        steps.push(GenerationStep::BuildMatrix(annotation));
        assert(steps@ =~= plan(self.force_routable, self.duration));
        steps
    }

    /// The number of cities to draw around each centroid, centroid by
    /// centroid.
    pub fn cities_per_centroid(&self) -> (r: Vec<usize>)
        requires
            self.nb_centroids > 0,
        ensures
            r@.len() == self.nb_centroids,
            forall|i: int|
                0 <= i < r@.len() ==> r@[i] == cluster_size(
                    self.nb_cities as nat,
                    self.nb_centroids as nat,
                    i as nat,
                ),
            total(r@) == self.nb_cities,
    {
        let n = self.nb_cities;
        let k = self.nb_centroids;
        let base = n / k;
        let extra = n % k;
        let mut sizes: Vec<usize> = Vec::new();
        let mut i: usize = 0;
        proof {
            lemma_fundamental_div_mod(n as int, k as int);
            lemma_mul_inequality(1, k as int, base as int);
        }
        while i < k
            invariant
                n == self.nb_cities,
                k == self.nb_centroids,
                k > 0,
                base == n / k,
                extra == n % k,
                extra > 0 ==> base < n,
                i <= k,
                sizes@.len() == i,
                forall|j: int|
                    0 <= j < i ==> sizes@[j] == cluster_size(n as nat, k as nat, j as nat),
                total(sizes@) == cities_before(n as nat, k as nat, i as nat),
            decreases k - i,
        {
            let ghost before = sizes@;
            let size = if i < extra {
                base + 1
            } else {
                base
            };
            sizes.push(size);
            assert(sizes@.drop_last() =~= before);
            i += 1;
        }
        proof {
            lemma_cities_before(n as nat, k as nat, k as nat);
        }
        sizes
    }

    /// For each city, in the order in which the cities are drawn, the
    /// centroid around which it is drawn: the cities of the first centroid
    /// come first, then those of the second, and so on.
    pub fn city_centroids(&self) -> (r: Vec<usize>)
        requires
            self.nb_centroids > 0,
        ensures
            r@.len() == self.nb_cities,
            forall|j: int|
                0 <= j < r@.len() ==> (#[trigger] r@[j]) < self.nb_centroids && cities_before(
                    self.nb_cities as nat,
                    self.nb_centroids as nat,
                    r@[j] as nat,
                ) <= j < cities_before(
                    self.nb_cities as nat,
                    self.nb_centroids as nat,
                    (r@[j] + 1) as nat,
                ),
    {
        let sizes = self.cities_per_centroid();
        let ghost n = self.nb_cities as nat;
        let ghost k = self.nb_centroids as nat;
        let mut out: Vec<usize> = Vec::new();
        let mut i: usize = 0;
        while i < sizes.len()
            invariant
                n == self.nb_cities,
                k == self.nb_centroids,
                sizes@.len() == k,
                forall|c: int| 0 <= c < k ==> sizes@[c] == cluster_size(n, k, c as nat),
                i <= k,
                out@.len() == cities_before(n, k, i as nat),
                forall|j: int|
                    0 <= j < out@.len() ==> (#[trigger] out@[j]) < k && cities_before(
                        n,
                        k,
                        out@[j] as nat,
                    ) <= j < cities_before(n, k, (out@[j] + 1) as nat),
            decreases sizes.len() - i,
        {
            let size = sizes[i];
            let mut c: usize = 0;
            proof {
                lemma_cities_before(n, k, (i + 1) as nat);
                lemma_cities_before(n, k, k);
                lemma_cities_before_monotonic(n, k, (i + 1) as nat, k);
            }
            while c < size
                invariant
                    i < k,
                    size == cluster_size(n, k, i as nat),
                    c <= size,
                    cities_before(n, k, (i + 1) as nat) == cities_before(n, k, i as nat) + size,
                    cities_before(n, k, (i + 1) as nat) <= usize::MAX,
                    out@.len() == cities_before(n, k, i as nat) + c,
                    forall|j: int|
                        0 <= j < out@.len() ==> (#[trigger] out@[j]) < k && cities_before(
                            n,
                            k,
                            out@[j] as nat,
                        ) <= j < cities_before(n, k, (out@[j] + 1) as nat),
                decreases size - c,
            {
                out.push(i);
                c += 1;
            }
            i += 1;
        }
        proof {
            lemma_cities_before(n, k, k);
        }
        out
    }

    /// The cost matrix of the instance, out of what the routing service
    /// answered: the travel times where the request asks for durations, the
    /// distances otherwise, every cell filled.
    pub fn travel_cost_matrix<T: Copy>(
        &self,
        durations: &Option<Vec<Vec<Option<T>>>>,
        distances: &Option<Vec<Vec<Option<T>>>>,
    ) -> (r: Result<Vec<Vec<T>>, OracleError>)
        ensures
            ({
                let chosen = if self.duration {
                    *durations
                } else {
                    *distances
                };
                match r {
                    Ok(out) => chosen is Some && unwrapped(out@, chosen->0@),
                    Err(OracleError::MissingMatrix) => chosen is None,
                    Err(OracleError::NullCell) => chosen is Some && !complete(chosen->0@),
                    Err(OracleError::NoWaypoint) => false,
                }
            }),
    {
        let chosen = if self.duration {
            durations
        } else {
            distances
        };
        match chosen {
            None => Err(OracleError::MissingMatrix),
            Some(matrix) => {
                let mut out: Vec<Vec<T>> = Vec::new();
                let mut i: usize = 0;
                while i < matrix.len()
                    invariant
                        (if self.duration {
                            *durations
                        } else {
                            *distances
                        }) == Some(*matrix),
                        i <= matrix@.len(),
                        out@.len() == i,
                        forall|a: int| 0 <= a < i ==> (#[trigger] out@[a])@.len() == matrix@[a]@.len(),
                        forall|a: int, b: int|
                            0 <= a < i && 0 <= b < matrix@[a]@.len() ==> matrix@[a]@[b] == Some(
                                #[trigger] out@[a]@[b],
                            ),
                    decreases matrix.len() - i,
                {
                    let line = &matrix[i];
                    let mut row: Vec<T> = Vec::new();
                    let mut j: usize = 0;
                    while j < line.len()
                        invariant
                            (if self.duration {
                                *durations
                            } else {
                                *distances
                            }) == Some(*matrix),
                            i < matrix@.len(),
                            line@ == matrix@[i as int]@,
                            j <= line@.len(),
                            row@.len() == j,
                            forall|b: int| 0 <= b < j ==> line@[b] == Some(#[trigger] row@[b]),
                        decreases line.len() - j,
                    {
                        match line[j] {
                            Some(cell) => row.push(cell),
                            None => {
                                assert(!(matrix@[i as int]@[j as int] is Some));
                                return Err(OracleError::NullCell);
                            },
                        }
                        j += 1;
                    }
                    out.push(row);
                    i += 1;
                }
                Ok(out)
            },
        }
    }
}

/// The routable point that stands for a location: the first of the
/// waypoints that the routing service found near it.
pub fn nearest_waypoint<L: Copy>(waypoints: &Option<Vec<L>>) -> (r: Result<L, OracleError>)
    ensures
        match r {
            Ok(first) => waypoints is Some && waypoints->0@.len() > 0 && first == waypoints->0@[0],
            Err(e) => e == OracleError::NoWaypoint && (waypoints is None || waypoints->0@.len()
                == 0),
        },
{
    match waypoints {
        Some(found) => {
            if found.len() > 0 {
                Ok(found[0])
            } else {
                Err(OracleError::NoWaypoint)
            }
        },
        None => Err(OracleError::NoWaypoint),
    }
}

/// Before centroid `i` stand `i` clusters of the common size, and one more
/// city for each of them that is among the first `n % k`.
pub proof fn lemma_cities_before(n: nat, k: nat, i: nat)
    requires
        k > 0,
        i <= k,
    ensures
        cities_before(n, k, i) == i * (n / k) + if i < n % k {
            i
        } else {
            n % k
        },
        cities_before(n, k, i) <= n,
        i == k ==> cities_before(n, k, i) == n,
        i < k ==> cities_before(n, k, i + 1) == cities_before(n, k, i) + cluster_size(n, k, i),
    decreases i,
{
    let q = n / k;
    let r = n % k;
    lemma_fundamental_div_mod(n as int, k as int);
    lemma_mod_bound(n as int, k as int);
    if i > 0 {
        let h = (i - 1) as nat;
        lemma_cities_before(n, k, h);
        assert(cities_before(n, k, i) == cities_before(n, k, h) + cluster_size(n, k, h));
        assert(i * q == h * q + q) by (nonlinear_arith)
            requires
                i == h + 1,
        ;
    }
    assert(i * q <= k * q && (i == 0 ==> i * q == 0)) by (nonlinear_arith)
        requires
            i <= k,
    ;
    assert(n == k * q + r);
    if i < k {
        assert(cities_before(n, k, i + 1) == cities_before(n, k, i) + cluster_size(n, k, i));
    }
}

/// The clusters are laid out one after the other.
pub proof fn lemma_cities_before_monotonic(n: nat, k: nat, i: nat, j: nat)
    requires
        k > 0,
        i <= j,
    ensures
        cities_before(n, k, i) <= cities_before(n, k, j),
    decreases j,
{
    if i < j {
        lemma_cities_before_monotonic(n, k, i, (j - 1) as nat);
    }
}

/// The law of distribution: `n` cities over `k` centroids give the first
/// `n % k` centroids `n / k + 1` cities each, which is `n / k` rounded up,
/// and the others `n / k`; all together that makes `n`.
pub proof fn lemma_distribution(n: nat, k: nat, i: nat)
    requires
        k > 0,
        i < k,
    ensures
        i < n % k ==> cluster_size(n, k, i) == n / k + 1 && cluster_size(n, k, i) == (n + k - 1)
            / (k as int),
        i >= n % k ==> cluster_size(n, k, i) == n / k,
        cities_before(n, k, k) == n,
{
    lemma_cities_before(n, k, k);
    if i < n % k {
        lemma_fundamental_div_mod(n as int, k as int);
        lemma_mod_bound(n as int, k as int);
        let q = (n / k) as int;
        let r = (n % k) as int;
        assert((n + k - 1) == (q + 1) * k + (r - 1)) by (nonlinear_arith)
            requires
                n == k * q + r,
        ;
        vstd::arithmetic::div_mod::lemma_fundamental_div_mod_converse(
            (n + k - 1) as int,
            k as int,
            q + 1,
            r - 1,
        );
    }
}

} // verus!
