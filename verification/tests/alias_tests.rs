//! The same checks under the names their other homes use.

use aoc21::depth::{count_increasing, sum_sliding_window};
use aoc21::diagnostics::{calc_epsilon, calc_gamma};
use aoc21::navigation::{navigate, AimNavigation, NaiveNavigation, Navigation};

#[test]
fn main_test_count_increasing() {
    let numbers = vec![1, 2, 1, 3, 5, 6, 7, 8, 7, 9];
    assert_eq!(7, count_increasing(&numbers));
}

#[test]
fn main_test_sum_sliding_window() {
    let numbers = vec![1, 2, 1, 3, 5, 6, 7, 8, 7, 9];
    assert_eq!(
        vec![4, 6, 9, 14, 18, 21, 22, 24],
        sum_sliding_window(&numbers, 3)
    );
}

fn example_instructions() -> Vec<String> {
    vec![
        "forward 5".to_owned(),
        "down 5".to_owned(),
        "forward 8".to_owned(),
        "up 3".to_owned(),
        "down 8".to_owned(),
        "forward 2".to_owned(),
    ]
}

#[test]
fn main_test_navigate_naive() {
    let instructions = example_instructions();
    let mut navigation = NaiveNavigation::default();
    let result = navigate(&instructions, &mut navigation);
    assert!(result.is_ok());
    assert_eq!(15, navigation.horizontal_position());
    assert_eq!(10, navigation.vertical_position());
}

#[test]
fn main_test_navigate_aim() {
    let instructions = example_instructions();
    let mut navigation = AimNavigation::default();
    let result = navigate(&instructions, &mut navigation);
    assert!(result.is_ok());
    assert_eq!(15, navigation.horizontal_position());
    assert_eq!(60, navigation.vertical_position());
}

#[test]
fn main_test_calc_gamma() {
    let input: Vec<String> = [
        "00100", "11110", "10110", "10111", "10101", "01111", "00111", "11100", "10000", "11001",
        "00010", "01010",
    ]
    .iter()
    .map(|s| s.to_string())
    .collect();
    let result = calc_gamma(&input);
    assert!(result.is_ok());
    assert_eq!((22, 5), result.unwrap());
}

#[test]
fn main_test_calc_epsilon() {
    let gamma = 22;
    let num_bits = 5;

    let epsilon = calc_epsilon(gamma, num_bits);
    assert_eq!(9, epsilon);
}
