use aoc21::depth::{count_increasing, sum_sliding_window};

#[test]
fn test_count_increasing() {
    let numbers = vec![1, 2, 1, 3, 5, 6, 7, 8, 7, 9];
    assert_eq!(7, count_increasing(&numbers));
}

#[test]
fn test_sum_sliding_window() {
    let numbers = vec![1, 2, 1, 3, 5, 6, 7, 8, 7, 9];
    assert_eq!(
        vec![4, 6, 9, 14, 18, 21, 22, 24],
        sum_sliding_window(&numbers, 3)
    );
}

#[test]
fn sliding_window_empty_for_oversized_window() {
    let numbers = vec![1, 2, 3];
    assert_eq!(Vec::<i64>::new(), sum_sliding_window(&numbers, 4));
    assert_eq!(Vec::<i64>::new(), sum_sliding_window(&numbers, 0));
}
