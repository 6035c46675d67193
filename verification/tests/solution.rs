use tspgen::resolution::model::Decision;
use tspgen::resolution::{Metric, Solve};
use tspgen::solution::{read_solution, write_solution, SolutionError};
use tspgen::visualisation::Visualize;

fn text(bytes: Vec<u8>) -> String {
    String::from_utf8(bytes).unwrap()
}

fn show(solution: Option<&str>) -> Visualize {
    Visualize {
        instance: "instance.json".to_string(),
        solution: solution.map(|s| s.to_string()),
        output: None,
        url_osrm: None,
    }
}

#[test]
fn write_solution_follows_each_value_with_a_space() {
    assert_eq!(text(write_solution(&[1, 4, 2, 3, 0])), "1 4 2 3 0 ");
    assert_eq!(text(write_solution(&[0])), "0 ");
    assert_eq!(text(write_solution(&[])), "");
    assert_eq!(text(write_solution(&[10, 63, 100, 9])), "10 63 100 9 ");
}

#[test]
fn write_solution_writes_as_the_standard_formatter_does() {
    let values = [0, 1, 9, 10, 11, 99, 100, 101, 12345, -1, -10, -12345, isize::MAX, isize::MIN];
    let mut expected = String::new();
    values.iter().for_each(|v| expected.push_str(&format!("{v} ")));
    assert_eq!(text(write_solution(&values)), expected);
}

#[test]
fn solution_text_lists_the_cities_of_the_decisions() {
    let decisions = [
        Decision { variable: 0, value: 2 },
        Decision { variable: 1, value: 1 },
        Decision { variable: 2, value: 0 },
    ];
    assert_eq!(Solve::solution_values(&decisions), vec![2, 1, 0]);
    assert_eq!(text(Solve::solution_text(&decisions)), "2 1 0 ");
    assert_eq!(text(Solve::solution_text(&[])), "");
}

#[test]
fn read_solution_splits_on_whitespace() {
    assert_eq!(read_solution(b"1 4 2 3 0"), Ok(vec![1, 4, 2, 3, 0]));
    assert_eq!(read_solution(b"1 4 2 3 0 "), Ok(vec![1, 4, 2, 3, 0]));
    assert_eq!(read_solution(b"  12\t7\n\n 0\r\n"), Ok(vec![12, 7, 0]));
    assert_eq!(read_solution(b"5\x0b6\x0c7"), Ok(vec![5, 6, 7]));
    assert_eq!(read_solution(b"42"), Ok(vec![42]));
}

#[test]
fn read_solution_of_an_empty_text_is_empty() {
    assert_eq!(read_solution(b""), Ok(vec![]));
    assert_eq!(read_solution(b"   \n\t "), Ok(vec![]));
}

#[test]
fn read_solution_takes_a_plus_sign_and_leading_zeros() {
    assert_eq!(read_solution(b"+5 007 +0"), Ok(vec![5, 7, 0]));
}

#[test]
fn read_solution_refuses_what_is_no_number() {
    for bad in ["a", "1 two 3", "1,2", "-1", "1.5", "+", "1 + 2", "++1", "1+", "0x10", "1 2 3x", "\u{e9}"] {
        assert_eq!(read_solution(bad.as_bytes()), Err(SolutionError::Malformed));
        let parsed: Result<Vec<usize>, _> =
            bad.split_whitespace().map(|tok| tok.parse::<usize>()).collect();
        assert!(parsed.is_err());
    }
}

#[test]
fn read_solution_refuses_a_number_that_does_not_fit() {
    let most = usize::MAX.to_string();
    assert_eq!(read_solution(most.as_bytes()), Ok(vec![usize::MAX]));
    let mut more = most.clone();
    more.push('0');
    assert_eq!(read_solution(more.as_bytes()), Err(SolutionError::Malformed));
    let next = (usize::MAX as u128 + 1).to_string();
    assert_eq!(read_solution(next.as_bytes()), Err(SolutionError::Malformed));
    let padded = format!("000000000000000000000000000000{most}");
    assert_eq!(read_solution(padded.as_bytes()), Ok(vec![usize::MAX]));
}

#[test]
fn read_solution_reads_as_the_standard_parser_does() {
    for good in ["0", "1 2 3", " 10  20 ", "+7", "0001", "18446744073709551615"] {
        let expected: Vec<usize> =
            good.split_whitespace().map(|tok| tok.parse::<usize>().unwrap()).collect();
        assert_eq!(read_solution(good.as_bytes()), Ok(expected));
    }
}

#[test]
fn what_is_written_is_read_back() {
    let tours: [&[isize]; 4] = [&[], &[0], &[3, 1, 2, 0], &[63, 62, 10, 9, 0]];
    for tour in tours {
        let expected: Vec<usize> = tour.iter().map(|v| *v as usize).collect();
        assert_eq!(read_solution(&write_solution(tour)), Ok(expected));
    }
}

#[test]
fn tour_reads_the_solution_of_the_request() {
    assert_eq!(show(None).tour(), Ok(None));
    assert_eq!(show(Some("3 1 2 0")).tour(), Ok(Some(vec![3, 1, 2, 0])));
    assert_eq!(show(Some("")).tour(), Ok(Some(vec![])));
    assert_eq!(show(Some("3 one 2")).tour(), Err(SolutionError::Malformed));
}

#[test]
fn solution_path_picks_the_destinations_in_order() {
    let places = [(4.0f32, 50.0f32), (4.1, 50.1), (4.2, 50.2), (4.3, 50.3)];
    assert_eq!(
        Visualize::solution_path(&places, &[3, 1, 2, 0]),
        Ok(vec![(4.3, 50.3), (4.1, 50.1), (4.2, 50.2), (4.0, 50.0)])
    );
    assert_eq!(Visualize::solution_path(&places, &[1, 1]), Ok(vec![(4.1, 50.1), (4.1, 50.1)]));
    assert_eq!(Visualize::solution_path(&places, &[]), Ok(vec![]));
}

#[test]
fn solution_path_refuses_an_unknown_destination() {
    let places = ['a', 'b', 'c'];
    assert_eq!(Visualize::solution_path(&places, &[0, 3]), Err(SolutionError::UnknownDestination));
    assert_eq!(Visualize::solution_path(&places, &[0, 2]), Ok(vec!['a', 'c']));
    let none: [char; 0] = [];
    assert_eq!(Visualize::solution_path(&none, &[0]), Err(SolutionError::UnknownDestination));
}

#[test]
fn metric_is_the_objective_over_minus_the_scale() {
    assert_eq!(Solve::best_metric(Some(-123_456_789)), Metric { units: 1234, fraction: 56_789 });
    assert_eq!(Solve::best_metric(Some(-100_000)), Metric { units: 1, fraction: 0 });
    assert_eq!(Solve::best_metric(Some(-99_999)), Metric { units: 0, fraction: 99_999 });
    assert_eq!(Solve::best_metric(Some(-1)), Metric { units: 0, fraction: 1 });
    assert_eq!(Solve::best_metric(Some(0)), Metric { units: 0, fraction: 0 });
}

#[test]
fn metric_of_no_objective_is_zero() {
    assert_eq!(Solve::best_metric(None), Metric { units: 0, fraction: 0 });
}

#[test]
fn metric_of_a_positive_objective_is_negative() {
    assert_eq!(Solve::best_metric(Some(1)), Metric { units: -1, fraction: 99_999 });
    assert_eq!(Solve::best_metric(Some(100_000)), Metric { units: -1, fraction: 0 });
    assert_eq!(Solve::best_metric(Some(250_000)), Metric { units: -3, fraction: 50_000 });
}

#[test]
fn metric_gives_the_objective_back() {
    for v in [isize::MIN, isize::MIN + 1, -7_654_321, -1, 0, 1, 99_999, 7_654_321, isize::MAX] {
        let m = Solve::best_metric(Some(v));
        assert!(0 <= m.fraction && m.fraction < 100_000);
        assert_eq!(m.units as i128 * 100_000 + m.fraction as i128, -(v as i128));
    }
}

#[test]
fn metric_recovers_the_travel_cost() {
    let metres = 1234.56789f64;
    let scaled = (metres * 100_000.0).round() as isize;
    let m = Solve::best_metric(Some(-scaled));
    let back = m.units as f64 + m.fraction as f64 / 100_000.0;
    assert!((back - metres).abs() < 0.000_01);
    let best_value = -scaled;
    assert_eq!(back, best_value as f64 / -100_000.0);
}
