use tspgen::instance::{Instance, Location, COORDINATE_WIDTH, COST_WIDTH};
use tspgen::number::Single;

fn written(x: f32) -> Vec<u8> {
    format!("{x:.5}").into_bytes()
}

fn expected_text(destinations: &[(f32, f32)], distances: &[Vec<f32>]) -> String {
    let mut result = String::new();
    result.push_str("c This instance has been generated with tspgen \n");
    result.push_str("c https://github.com/xgillard/tspgen           \n");
    result.push_str("c --- destinations ----------------------------\n");
    for c in destinations.iter() {
        result.push_str(&format!("c {:>10.5} {:>10.5}\n", c.0, c.1));
    }
    result.push_str("c --- distances -------------------------------\n");
    for i in 0..destinations.len() {
        for j in 0..destinations.len() {
            result.push_str(&format!("{:>15.5} ", distances[i][j]));
        }
        result.push('\n');
    }
    result
}

fn library_text(destinations: &[(f32, f32)], distances: &[Vec<f32>]) -> String {
    let places: Vec<(Vec<u8>, Vec<u8>)> =
        destinations.iter().map(|c| (written(c.0), written(c.1))).collect();
    let cells: Vec<Vec<Vec<u8>>> =
        distances.iter().map(|row| row.iter().map(|x| written(*x)).collect()).collect();
    String::from_utf8(Instance::instance_text(&places, &cells)).unwrap()
}

#[test]
fn columns_are_ten_and_fifteen_wide() {
    assert_eq!(COORDINATE_WIDTH, 10);
    assert_eq!(COST_WIDTH, 15);
}

#[test]
fn instance_text_of_two_destinations() {
    let destinations = [(4.35171f32, 50.85034f32), (5.5666f32, 50.6333f32)];
    let distances = vec![vec![0.0f32, 97123.5], vec![96900.25, 0.0]];
    let text = library_text(&destinations, &distances);
    let expected = "c This instance has been generated with tspgen \n\
c https://github.com/xgillard/tspgen           \n\
c --- destinations ----------------------------\n\
c    4.35171   50.85034\n\
c    5.56660   50.63330\n\
c --- distances -------------------------------\n        0.00000     97123.50000 \n    96900.25000         0.00000 \n";
    assert_eq!(text, expected);
    assert_eq!(text, expected_text(&destinations, &distances));
}

#[test]
fn instance_text_of_nothing_is_the_headings() {
    let text = library_text(&[], &[]);
    assert_eq!(
        text,
        "c This instance has been generated with tspgen \n\
c https://github.com/xgillard/tspgen           \n\
c --- destinations ----------------------------\n\
c --- distances -------------------------------\n"
    );
}

#[test]
fn instance_text_leaves_wide_numbers_whole() {
    let destinations = [(-123456.789f32, 0.5f32)];
    let distances = vec![vec![1.0e12f32]];
    let text = library_text(&destinations, &distances);
    assert_eq!(text, expected_text(&destinations, &distances));
    assert!(text.contains("c -123456.78906    0.50000\n"));
}

#[test]
fn instance_text_reads_the_square_of_the_matrix() {
    let destinations = [(1.0f32, 2.0f32), (3.0, 4.0)];
    let distances = vec![vec![0.0f32, 1.0, 7.0], vec![2.0, 0.0, 8.0], vec![9.0, 9.0, 9.0]];
    let text = library_text(&destinations, &distances);
    assert_eq!(text, expected_text(&destinations, &distances));
    assert_eq!(text.lines().count(), 8);
}

#[test]
fn instance_text_lays_out_as_the_standard_formatter_does() {
    let destinations: Vec<(f32, f32)> =
        (0..7).map(|i| (2.5 + 0.37 * i as f32, 50.1 + 0.11 * i as f32)).collect();
    let distances: Vec<Vec<f32>> = (0..7)
        .map(|i| (0..7).map(|j| if i == j { 0.0 } else { 1234.5678 * (i * 7 + j) as f32 }).collect())
        .collect();
    assert_eq!(library_text(&destinations, &distances), expected_text(&destinations, &distances));
}

fn single(x: f32) -> Single {
    Single { bits: x.to_bits() }
}

fn instance(destinations: &[(f32, f32)], distances: &[Vec<f32>]) -> Instance {
    Instance {
        destinations: destinations
            .iter()
            .map(|c| Location { longitude: single(c.0), latitude: single(c.1) })
            .collect(),
        distances: distances.iter().map(|row| row.iter().map(|x| single(*x)).collect()).collect(),
    }
}

fn square(n: usize) -> (Vec<(f32, f32)>, Vec<Vec<f32>>) {
    let destinations = (0..n).map(|i| (4.0 + i as f32, 50.0 - i as f32)).collect();
    let distances = (0..n).map(|i| (0..n).map(|j| (i * n + j) as f32).collect()).collect();
    (destinations, distances)
}

#[test]
fn instances_of_one_to_sixty_four_destinations_are_well_formed() {
    for n in [1usize, 2, 5, 64] {
        let (destinations, distances) = square(n);
        assert!(instance(&destinations, &distances).is_well_formed());
    }
    let (destinations, distances) = square(0);
    assert!(!instance(&destinations, &distances).is_well_formed());
    let (destinations, distances) = square(65);
    assert!(!instance(&destinations, &distances).is_well_formed());
}

#[test]
fn instance_needs_a_square_matrix() {
    let (destinations, mut distances) = square(3);
    distances[1].pop();
    assert!(!instance(&destinations, &distances).is_well_formed());
    let (destinations, mut distances) = square(3);
    distances.pop();
    assert!(!instance(&destinations, &distances).is_well_formed());
    let (destinations, mut distances) = square(3);
    distances.push(vec![0.0; 3]);
    assert!(!instance(&destinations, &distances).is_well_formed());
    let (mut destinations, distances) = square(3);
    destinations.pop();
    assert!(!instance(&destinations, &distances).is_well_formed());
}

#[test]
fn instance_needs_finite_costs_that_are_not_negative() {
    for bad in [-1.0f32, -0.001, f32::NAN, f32::INFINITY, f32::NEG_INFINITY, f32::MIN] {
        let (destinations, mut distances) = square(3);
        distances[2][1] = bad;
        assert!(!instance(&destinations, &distances).is_well_formed());
    }
    for good in [0.0f32, -0.0, 0.5, f32::MAX, f32::MIN_POSITIVE] {
        let (destinations, mut distances) = square(3);
        distances[2][1] = good;
        distances[0][0] = good;
        assert!(instance(&destinations, &distances).is_well_formed());
    }
}

#[test]
fn instance_needs_finite_coordinates() {
    for bad in [f32::NAN, f32::INFINITY, f32::NEG_INFINITY] {
        let (mut destinations, distances) = square(3);
        destinations[1].0 = bad;
        assert!(!instance(&destinations, &distances).is_well_formed());
        let (mut destinations, distances) = square(3);
        destinations[2].1 = bad;
        assert!(!instance(&destinations, &distances).is_well_formed());
    }
    let (mut destinations, distances) = square(3);
    destinations[1] = (-179.5, -89.5);
    assert!(instance(&destinations, &distances).is_well_formed());
}

#[test]
fn instance_may_be_asymmetric_with_a_diagonal() {
    let destinations = [(4.0f32, 50.0f32), (5.0, 51.0)];
    let distances = vec![vec![3.0f32, 10.0], vec![700.0, 0.25]];
    assert!(instance(&destinations, &distances).is_well_formed());
}

#[test]
fn sign_and_finiteness_are_read_off_the_bits() {
    for x in [0.0f32, -0.0, 1.0, 2.5e-40, f32::MAX] {
        assert!(single(x).is_non_negative());
    }
    for x in [-1.0f32, -2.5e-40, f32::MIN, f32::NAN, f32::INFINITY, f32::NEG_INFINITY] {
        assert!(!single(x).is_non_negative());
    }
}
