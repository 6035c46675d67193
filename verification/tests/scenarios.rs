use std::time::Duration;

use ddo::{
    Completion, Cutoff, DecisionCallback, FixedWidth, MaxUB, NoCutoff, ParallelSolver, Problem,
    Relaxation, SimpleFrontier, Solver, StateRanking, TimeBudget, Variable,
};
use rand::Rng;
use rand_chacha::ChaCha20Rng;
use rand_distr::{Distribution, Normal, Uniform};
use tspgen::generation::{nearest_waypoint, Annotation, GenerateInstance, GenerationStep};
use tspgen::number::Single;
use tspgen::random::seeded_rng;
use tspgen::resolution::model::{Decision, TspModel, COST_SCALE};
use tspgen::resolution::ranking::TspRanking;
use tspgen::resolution::relax::TspRelax;
use tspgen::resolution::state::TspState;
use tspgen::resolution::Solve;

// --- the model, as the search engine wants it -------------------------------

struct Model(TspModel);

struct Relax;

struct Ranking;

fn ours(decision: ddo::Decision) -> Decision {
    Decision { variable: decision.variable.id(), value: decision.value }
}

impl Problem for Model {
    type State = TspState;

    fn nb_variables(&self) -> usize {
        self.0.nb_variables()
    }

    fn initial_state(&self) -> TspState {
        self.0.initial_state()
    }

    fn initial_value(&self) -> isize {
        self.0.initial_value()
    }

    fn transition(&self, state: &TspState, decision: ddo::Decision) -> TspState {
        assert!(0 <= decision.value && (decision.value as usize) < self.0.nb_variables());
        self.0.transition(state, ours(decision))
    }

    fn transition_cost(&self, state: &TspState, decision: ddo::Decision) -> isize {
        assert!(0 <= decision.value && (decision.value as usize) < self.0.nb_variables());
        assert!(state.current().iter().all(|from| (from as usize) < self.0.nb_variables()));
        self.0.transition_cost(state, ours(decision))
    }

    fn next_variable(&self, next_layer: &mut dyn Iterator<Item = &TspState>) -> Option<Variable> {
        let first: Vec<TspState> = next_layer.next().into_iter().copied().collect();
        self.0.next_variable(&first).map(Variable)
    }

    fn for_each_in_domain(&self, var: Variable, state: &TspState, f: &mut dyn DecisionCallback) {
        for d in self.0.for_each_in_domain(var.id(), state) {
            f.apply(ddo::Decision { variable: Variable(d.variable), value: d.value });
        }
    }
}

impl Relaxation for Relax {
    type State = TspState;

    fn merge(&self, states: &mut dyn Iterator<Item = &TspState>) -> TspState {
        let states: Vec<TspState> = states.copied().collect();
        TspRelax.merge(&states)
    }

    fn relax(&self, src: &TspState, dst: &TspState, new: &TspState, d: ddo::Decision, cost: isize) -> isize {
        TspRelax.relax(src, dst, new, ours(d), cost)
    }
}

impl StateRanking for Ranking {
    type State = TspState;

    fn compare(&self, a: &TspState, b: &TspState) -> std::cmp::Ordering {
        TspRanking.compare(a, b)
    }
}

/// Solves the model within the time given, or until the search is over
/// where none is given; gives the outcome and the cities in the order of
/// the visit.
fn solve(
    costs: &[Vec<isize>],
    width: usize,
    timeout: Option<Duration>,
) -> (Completion, Option<Vec<isize>>) {
    let problem = Model(TspModel::new(costs.to_vec()).unwrap());
    let relaxation = Relax;
    let ranking = Ranking;
    let width = FixedWidth(width);
    let budget = timeout.map(TimeBudget::new);
    let cutoff: &(dyn Cutoff + Send + Sync) = match budget.as_ref() {
        Some(budget) => budget,
        None => &NoCutoff,
    };
    let mut fringe = SimpleFrontier::new(MaxUB::new(&ranking));
    let mut solver =
        ParallelSolver::new(&problem, &relaxation, &ranking, &width, cutoff, &mut fringe);
    let completion = solver.maximize();
    let tour = solver.best_solution().map(|mut decisions| {
        decisions.sort_by_key(|d| d.variable.id());
        let decisions: Vec<Decision> = decisions.into_iter().map(ours).collect();
        Solve::solution_values(&decisions)
    });
    (completion, tour)
}

// --- what the answer is held against ----------------------------------------

fn cycle_cost(costs: &[Vec<isize>], tour: &[isize]) -> isize {
    let mut at = 0usize;
    let mut total = 0;
    for city in tour {
        total += costs[at][*city as usize];
        at = *city as usize;
    }
    total
}

fn is_tour(n: usize, tour: &[isize]) -> bool {
    let mut seen = vec![false; n];
    for city in tour {
        if *city < 0 || *city as usize >= n || seen[*city as usize] {
            return false;
        }
        seen[*city as usize] = true;
    }
    tour.len() == n && tour[n - 1] == 0
}

fn permutations(cities: &mut Vec<isize>, from: usize, visit: &mut dyn FnMut(&[isize])) {
    if from == cities.len() {
        visit(cities);
        return;
    }
    for i in from..cities.len() {
        cities.swap(from, i);
        permutations(cities, from + 1, visit);
        cities.swap(from, i);
    }
}

/// The cost of the cheapest cycle through all the cities, from city 0 and
/// back, found by trying them all.
fn cheapest_cycle(costs: &[Vec<isize>]) -> isize {
    let n = costs.len();
    let mut inner: Vec<isize> = (1..n as isize).collect();
    let mut best = isize::MAX;
    permutations(&mut inner, 0, &mut |order| {
        let mut tour = order.to_vec();
        tour.push(0);
        best = best.min(cycle_cost(costs, &tour));
    });
    best
}

fn random_costs(n: usize, seed: u128) -> Vec<Vec<isize>> {
    let mut rng = seeded_rng(seed);
    (0..n)
        .map(|i| (0..n).map(|j| if i == j { 0 } else { rng.gen_range(1..1_000_000) }).collect())
        .collect()
}

// --- a generation against a routing service that is made up -----------------

type Place = (f32, f32);

fn single(x: f32) -> Single {
    Single { bits: x.to_bits() }
}

fn number(x: Single) -> f32 {
    f32::from_bits(x.bits)
}

fn belgium(seed: u128, nb_cities: usize, nb_centroids: usize) -> GenerateInstance {
    GenerateInstance {
        seed: Some(seed),
        nb_cities,
        nb_centroids,
        std_dev: single(0.1),
        min_longitude: single(2.376776),
        max_longitude: single(5.91469),
        min_latitude: single(50.2840167),
        max_latitude: single(51.034368),
        force_routable: false,
        duration: false,
        output: None,
        url_osrm: None,
    }
}

struct Answer {
    durations: Option<Vec<Vec<Option<f32>>>>,
    distances: Option<Vec<Vec<Option<f32>>>>,
}

struct Generated {
    centroids: Vec<Place>,
    drawn: Vec<Place>,
    destinations: Vec<Place>,
    asked: Annotation,
    distances: Vec<Vec<f32>>,
}

fn draw_centroid(request: &GenerateInstance, rng: &mut ChaCha20Rng) -> Place {
    let lon = Uniform::new_inclusive(number(request.min_longitude), number(request.max_longitude));
    let lat = Uniform::new_inclusive(number(request.min_latitude), number(request.max_latitude));
    let longitude = lon.sample(rng);
    let latitude = lat.sample(rng);
    (longitude, latitude)
}

fn draw_city(request: &GenerateInstance, rng: &mut ChaCha20Rng, centroid: Place) -> Place {
    let x = Normal::new(centroid.0, number(request.std_dev)).unwrap();
    let y = Normal::new(centroid.1, number(request.std_dev)).unwrap();
    let longitude = x.sample(rng);
    let latitude = y.sample(rng);
    (longitude, latitude)
}

fn snap(places: &[Place], nearest: &dyn Fn(Place) -> Option<Vec<Place>>) -> Vec<Place> {
    places.iter().map(|p| nearest_waypoint(&nearest(*p)).unwrap()).collect()
}

fn generate(
    request: &GenerateInstance,
    nearest: &dyn Fn(Place) -> Option<Vec<Place>>,
    table: &dyn Fn(&[Place], Annotation) -> Answer,
) -> Generated {
    request.validate().unwrap();
    let mut rng = request.rng(0);
    let mut out = Generated {
        centroids: vec![],
        drawn: vec![],
        destinations: vec![],
        asked: Annotation::Distance,
        distances: vec![],
    };
    for step in request.steps() {
        match step {
            GenerationStep::DrawCentroids => {
                for _ in 0..request.nb_centroids {
                    out.centroids.push(draw_centroid(request, &mut rng));
                }
            }
            GenerationStep::SnapCentroids => out.centroids = snap(&out.centroids, nearest),
            GenerationStep::DrawCities => {
                for centroid in request.city_centroids() {
                    out.drawn.push(draw_city(request, &mut rng, out.centroids[centroid]));
                }
                out.destinations = out.drawn.clone();
            }
            GenerationStep::SnapCities => out.destinations = snap(&out.destinations, nearest),
            GenerationStep::BuildMatrix(annotation) => {
                let answer = table(&out.destinations, annotation);
                out.asked = annotation;
                out.distances =
                    request.travel_cost_matrix(&answer.durations, &answer.distances).unwrap();
            }
        }
    }
    out
}

fn identity(place: Place) -> Option<Vec<Place>> {
    Some(vec![place])
}

fn shifted(place: Place) -> Option<Vec<Place>> {
    Some(vec![(place.0 + 1.0, place.1 - 1.0), place])
}

fn euclidean(places: &[Place], _: Annotation) -> Answer {
    let matrix: Vec<Vec<Option<f32>>> = places
        .iter()
        .map(|a| {
            places
                .iter()
                .map(|b| Some(((a.0 - b.0).powi(2) + (a.1 - b.1).powi(2)).sqrt() * 111_000.0))
                .collect()
        })
        .collect();
    Answer { durations: Some(matrix.clone()), distances: Some(matrix) }
}

fn ones_and_twos(places: &[Place], _: Annotation) -> Answer {
    let n = places.len();
    Answer {
        durations: Some(vec![vec![Some(2.0); n]; n]),
        distances: Some(vec![vec![Some(1.0); n]; n]),
    }
}

fn scaled(distances: &[Vec<f32>]) -> Vec<Vec<isize>> {
    distances
        .iter()
        .map(|row| row.iter().map(|cost| (cost * COST_SCALE as f32).round() as isize).collect())
        .collect()
}

fn bits(places: &[Place]) -> Vec<(u32, u32)> {
    places.iter().map(|p| (p.0.to_bits(), p.1.to_bits())).collect()
}

// --- scenarios ---------------------------------------------------------------

#[test]
fn tiny_instance_is_solved_exactly() {
    let request = belgium(42, 5, 1);
    let generated = generate(&request, &identity, &euclidean);
    assert_eq!(generated.centroids.len(), 1);
    assert_eq!(generated.destinations.len(), 5);
    assert_eq!(generated.asked, Annotation::Distance);
    let costs = scaled(&generated.distances);
    let (completion, tour) = solve(&costs, 1024, Some(Duration::from_secs(10)));
    assert!(completion.is_exact);
    let tour = tour.unwrap();
    assert!(is_tour(5, &tour));
    let best = cheapest_cycle(&costs);
    assert_eq!(completion.best_value, Some(-best));
    assert_eq!(cycle_cost(&costs, &tour), best);
    let metric = Solve::best_metric(completion.best_value);
    assert_eq!(metric.units * COST_SCALE + metric.fraction, best);
}

#[test]
fn generation_is_decided_by_the_seed() {
    let first = generate(&belgium(42, 10, 3), &identity, &euclidean);
    let second = generate(&belgium(42, 10, 3), &identity, &euclidean);
    assert_eq!(bits(&first.centroids), bits(&second.centroids));
    assert_eq!(bits(&first.drawn), bits(&second.drawn));
    assert_eq!(first.distances, second.distances);
    let other = generate(&belgium(43, 10, 3), &identity, &euclidean);
    assert_ne!(bits(&first.drawn), bits(&other.drawn));
}

#[test]
fn centroids_are_drawn_within_the_box() {
    let request = belgium(7, 12, 40);
    let generated = generate(&request, &identity, &euclidean);
    assert_eq!(generated.centroids.len(), 40);
    for (longitude, latitude) in generated.centroids {
        assert!(number(request.min_longitude) <= longitude);
        assert!(longitude <= number(request.max_longitude));
        assert!(number(request.min_latitude) <= latitude);
        assert!(latitude <= number(request.max_latitude));
    }
}

#[test]
fn snapping_with_the_identity_keeps_what_was_drawn() {
    let mut request = belgium(42, 10, 3);
    request.force_routable = true;
    let snapped = generate(&request, &identity, &euclidean);
    assert_eq!(bits(&snapped.destinations), bits(&snapped.drawn));
    request.force_routable = false;
    let unsnapped = generate(&request, &identity, &euclidean);
    assert_eq!(bits(&unsnapped.destinations), bits(&snapped.destinations));
}

#[test]
fn snapping_moves_cities_only_on_demand() {
    let mut request = belgium(42, 6, 2);
    let kept = generate(&request, &shifted, &euclidean);
    assert_eq!(bits(&kept.destinations), bits(&kept.drawn));
    request.force_routable = true;
    let moved = generate(&request, &shifted, &euclidean);
    let expected: Vec<Place> = moved.drawn.iter().map(|p| (p.0 + 1.0, p.1 - 1.0)).collect();
    assert_eq!(bits(&moved.destinations), bits(&expected));
}

#[test]
fn matrix_follows_the_duration_flag() {
    let mut request = belgium(42, 4, 2);
    let by_distance = generate(&request, &identity, &ones_and_twos);
    request.duration = true;
    let by_duration = generate(&request, &identity, &ones_and_twos);
    assert_eq!(by_distance.asked, Annotation::Distance);
    assert_eq!(by_duration.asked, Annotation::Duration);
    assert_eq!(bits(&by_distance.destinations), bits(&by_duration.destinations));
    assert_eq!(by_distance.distances, vec![vec![1.0; 4]; 4]);
    assert_eq!(by_duration.distances, vec![vec![2.0; 4]; 4]);
    for i in 0..4 {
        for j in 0..4 {
            assert_eq!(by_duration.distances[i][j], 2.0 * by_distance.distances[i][j]);
        }
    }
}

#[test]
fn wide_diagrams_find_the_cheapest_cycle() {
    for (n, seed) in
        [(1usize, 1u128), (2, 2), (3, 3), (4, 4), (5, 5), (6, 6), (7, 7), (8, 8), (9, 9), (10, 10)]
    {
        let costs = random_costs(n, seed);
        let (completion, tour) = solve(&costs, 1 << n, None);
        assert!(completion.is_exact);
        let tour = tour.unwrap();
        assert!(is_tour(n, &tour));
        assert_eq!(completion.best_value, Some(-cheapest_cycle(&costs)));
        assert_eq!(cycle_cost(&costs, &tour), cheapest_cycle(&costs));
    }
}

#[test]
fn narrow_diagrams_find_the_cheapest_cycle_too() {
    for (n, seed) in [(5usize, 11u128), (6, 12), (7, 13), (8, 14)] {
        let costs = random_costs(n, seed);
        let (completion, tour) = solve(&costs, 3, None);
        assert!(completion.is_exact);
        assert!(is_tour(n, &tour.unwrap()));
        assert_eq!(completion.best_value, Some(-cheapest_cycle(&costs)));
    }
}

#[test]
fn a_short_budget_still_gives_a_tour() {
    let costs = random_costs(25, 2023);
    let (completion, tour) = solve(&costs, 50, Some(Duration::from_secs(1)));
    assert!(!completion.is_exact);
    let tour = tour.unwrap();
    assert_eq!(tour.len(), 25);
    assert!(is_tour(25, &tour));
    assert_eq!(completion.best_value, Some(-cycle_cost(&costs, &tour)));
}
