use aoc21::octopus::{Field, FieldError};

fn large_field() -> Field {
    Field(vec![
        vec![5u8, 4, 8, 3, 1, 4, 3, 2, 2, 3],
        vec![2u8, 7, 4, 5, 8, 5, 4, 7, 1, 1],
        vec![5u8, 2, 6, 4, 5, 5, 6, 1, 7, 3],
        vec![6u8, 1, 4, 1, 3, 3, 6, 1, 4, 6],
        vec![6u8, 3, 5, 7, 3, 8, 5, 4, 7, 8],
        vec![4u8, 1, 6, 7, 5, 2, 4, 6, 4, 5],
        vec![2u8, 1, 7, 6, 8, 4, 1, 7, 2, 1],
        vec![6u8, 8, 8, 2, 8, 8, 1, 1, 3, 4],
        vec![4u8, 8, 4, 6, 8, 4, 8, 5, 5, 4],
        vec![5u8, 2, 8, 3, 7, 5, 1, 5, 2, 6],
    ])
}

#[test]
fn test_small_run() {
    let field = Field(vec![
        vec![1u8, 1, 1, 1, 1],
        vec![1u8, 9, 9, 9, 1],
        vec![1u8, 9, 1, 9, 1],
        vec![1u8, 9, 9, 9, 1],
        vec![1u8, 1, 1, 1, 1],
    ]);
    assert_eq!(9, field.run(2, false).1);
}

#[test]
fn test_large_run_10() {
    let field = large_field();
    assert_eq!(204, field.run(10, false).1);
}

#[test]
fn test_large_run_100() {
    let field = large_field();
    assert_eq!(1656, field.run(100, false).1);
}

#[test]
fn test_large_synch() {
    let field = large_field();
    assert_eq!(194, field.run(usize::MAX, true).0);
}

#[test]
fn grid_parsing_reports_shape_problems() {
    let lines: Vec<String> = vec!["11".to_string(), "12".to_string()];
    let field = Field::parse(&lines, 2, 2).unwrap();
    assert_eq!(Field(vec![vec![1, 1], vec![1, 2]]), field);
    assert_eq!(Err(FieldError::WrongRows), Field::parse(&lines, 3, 2));
    assert_eq!(Err(FieldError::WrongColumns), Field::parse(&lines, 2, 3));
    let bad: Vec<String> = vec!["1x".to_string()];
    assert_eq!(Err(FieldError::InvalidDigit), Field::parse(&bad, 1, 2));
}
