use aoc21::lanternfish::{count_fish, count_fishes};

#[test]
fn single_fish_counts_match_examples() {
    assert_eq!(3, count_fish(0, 8));
    assert_eq!(2, count_fish(7, 8));
    assert_eq!(2, count_fish(5, 8));
    assert_eq!(5, count_fish(3, 18));
    assert_eq!(4, count_fish(4, 18));
    assert_eq!(5, count_fish(2, 18));
    assert_eq!(7, count_fish(1, 18));
}

#[test]
fn school_counts_match_examples() {
    let starts = vec![3, 4, 3, 1, 2];
    assert_eq!(26, count_fishes(&starts, 18));
    assert_eq!(5934, count_fishes(&starts, 80));
}
