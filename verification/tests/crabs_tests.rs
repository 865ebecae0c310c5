use aoc21::crabs::{calc_fuel, cheap_cost_function, expensive_cost_function, optimize};

#[test]
fn test_optimize() {
    let numbers = vec![16, 1, 2, 0, 4, 2, 7, 1, 2, 14];
    let result = optimize(&numbers, false);
    assert_eq!((2, 37), result);
}

#[test]
fn expensive_optimize_matches_example() {
    let numbers = vec![16, 1, 2, 0, 4, 2, 7, 1, 2, 14];
    let result = optimize(&numbers, true);
    assert_eq!((5, 168), result);
}

#[test]
fn cost_functions_match_examples() {
    assert_eq!(14, cheap_cost_function(16, 2));
    assert_eq!(2, cheap_cost_function(0, 2));
    assert_eq!(66, expensive_cost_function(16, 5));
    assert_eq!(10, expensive_cost_function(1, 5));
    assert_eq!(45, expensive_cost_function(14, 5));
    let numbers = vec![16, 1, 2, 0, 4, 2, 7, 1, 2, 14];
    assert_eq!(37, calc_fuel(&numbers, 2, false));
}
