use aoc21::segments::{Digit, Signal, SignalError, map_digit_through};

const EXAMPLE: &str =
    "acedgfb cdfbe gcdfa fbcad dab cefabd cdfgeb eafb cagedb ab | cdfeb fcadb cdfeb cdbaf";

#[test]
fn test_deduce_wiring() {
    let signal = Signal::parse(EXAMPLE).unwrap();
    let wiring = signal.deduce_wiring().unwrap();
    assert_eq!(vec!['d', 'e', 'a', 'f', 'g', 'b', 'c'], wiring);
}

#[test]
fn test_get_single_output() {
    let signal = Signal::parse(EXAMPLE).unwrap();
    assert_eq!(5353, signal.get_output().unwrap());
}

#[test]
fn nine_catalog_patterns_are_malformed() {
    let line = "cdfbe gcdfa fbcad dab cefabd cdfgeb eafb cagedb ab | cdfeb fcadb cdfeb cdbaf";
    match Signal::parse(line) {
        Err(SignalError::MalformedReadout) => {}
        other => panic!("expected MalformedReadout, got {:?}", other),
    }
}

#[test]
fn known_length_outputs_are_counted() {
    let pattern: Vec<Digit> = (0..10).map(|_| Digit::new("a")).collect();
    let output = vec![
        Digit::new("ab"),
        Digit::new("abcdef"),
        Digit::new("abcdef"),
        Digit::new("abcde"),
    ];
    let signal = Signal::new(pattern, output);
    assert_eq!(1, signal.known_output_digits());
}

#[test]
fn known_length_output_variants() {
    let patterns = |outs: [&str; 4]| {
        let pattern: Vec<Digit> = (0..10).map(|_| Digit::new("a")).collect();
        let output = outs.iter().map(|d| Digit::new(d)).collect();
        Signal::new(pattern, output)
    };
    assert_eq!(2, patterns(["ab", "abc", "abcdef", "abcdef"]).known_output_digits());
    assert_eq!(3, patterns(["ab", "abcd", "abc", "abcdef"]).known_output_digits());
    assert_eq!(4, patterns(["ab", "abcd", "abc", "abcdefg"]).known_output_digits());
}

#[test]
fn identity_wiring_decodes_catalog_patterns() {
    let wiring: Vec<char> = ('a'..='g').collect();
    let cases = [
        ("abcefg", 0u8),
        ("cf", 1),
        ("acdeg", 2),
        ("acdfg", 3),
        ("bcdf", 4),
        ("abdfg", 5),
        ("abdefg", 6),
        ("acf", 7),
        ("abcdefg", 8),
        ("abcdfg", 9),
    ];
    for (pattern, digit) in cases {
        assert_eq!(Ok(digit), Digit::new(pattern).get_value(&wiring));
    }
}

#[test]
fn mapping_and_decoding_round_trips() {
    let wiring = vec!['d', 'e', 'a', 'f', 'g', 'b', 'c'];
    for digit in 0u8..=9 {
        let mapped = map_digit_through(digit, &wiring);
        let decoded = Digit::from_wires(mapped).get_value(&wiring);
        assert_eq!(Ok(digit), decoded);
    }
}

#[test]
fn unresolvable_catalog_is_reported() {
    // Ten patterns with the right length distribution but no information:
    // every length-five pattern is the same, as is every length-six one.
    let line = "ab abc abcd abcde abcde abcde abcdef abcdef abcdef abcdefg | ab ab ab ab";
    let signal = Signal::parse(line).unwrap();
    match signal.deduce_wiring() {
        Err(SignalError::UnresolvableWiring) => {}
        other => panic!("expected UnresolvableWiring, got {:?}", other),
    }
}

#[test]
fn frequency_candidates_follow_the_catalog() {
    let signal = Signal::parse(EXAMPLE).unwrap();
    // Segment BottomRight has expected frequency nine; in the example the
    // only wire appearing in nine of the ten patterns is 'b'.
    let candidates =
        signal.get_possible_wires_by_frequency(aoc21::segments::Segment::BottomRight);
    assert_eq!(vec!['b'], candidates);
}
