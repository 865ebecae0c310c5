use aoc21::diagnostics::{calc_epsilon, calc_gamma, sieve, DiagError};

fn example() -> Vec<String> {
    [
        "00100", "11110", "10110", "10111", "10101", "01111", "00111", "11100", "10000", "11001",
        "00010", "01010",
    ]
    .iter()
    .map(|s| s.to_string())
    .collect()
}

#[test]
fn test_sieve() {
    let input = example();

    let result = sieve(&input, 0, false);
    assert!(result.is_ok());
    assert_eq!(23, result.unwrap());

    let result = sieve(&input, 0, true);
    assert!(result.is_ok());
    assert_eq!(10, result.unwrap());
}

#[test]
fn test_calc_gamma() {
    let input = example();
    let result = calc_gamma(&input);
    assert!(result.is_ok());
    assert_eq!((22, 5), result.unwrap());
}

#[test]
fn test_calc_epsilon() {
    let gamma = 22;
    let num_bits = 5;

    let epsilon = calc_epsilon(gamma, num_bits);
    assert_eq!(9, epsilon);
}

#[test]
fn gamma_rejects_stray_characters() {
    let input = vec!["0012".to_string()];
    assert_eq!(Err(DiagError::InvalidBit), calc_gamma(&input));
    let empty: Vec<String> = Vec::new();
    assert_eq!(Err(DiagError::NoInput), calc_gamma(&empty));
}
