use aoc21::chunks::{analyze_line, get_closing, ChunkError};
use im::Vector;

#[test]
fn balanced_lines_are_good() {
    let result = analyze_line("[({(<(())[]>[[{[]{<()<>>}}]])})]", Vector::new()).unwrap();
    assert!(result.is_good());
}

#[test]
fn corrupted_lines_report_the_first_bad_closer() {
    let cases = [
        ("{([(<{}[<>[]}>{[]{[(<()>", '}'),
        ("[[<[([]))<([[{}[[()]]]", ')'),
        ("[{[{({}]{}}([{[{{{}}([]", ']'),
        ("[<(<(<(<{}))><([]([]()", ')'),
        ("<{([([[(<>()){}]>(<<{{", '>'),
    ];
    for (line, expected) in cases {
        let result = analyze_line(line, Vector::new()).unwrap();
        assert!(result.is_syntax_error());
        assert_eq!(expected, result.unwrap_syntax_error());
    }
}

#[test]
fn incomplete_lines_report_missing_closers() {
    let result = analyze_line("[(()[<>])]({[<{<<[]>>(", Vector::new()).unwrap();
    assert!(result.is_incomplete());
    let expected: Vector<char> = ")}>]})".chars().collect();
    assert_eq!(expected, result.unwrap_incomplete());
}

#[test]
fn stray_characters_are_invalid() {
    assert!(matches!(
        analyze_line("(a)", Vector::new()),
        Err(ChunkError::InvalidCharacter)
    ));
    assert_eq!(Ok(')'), get_closing('('));
    assert_eq!(Ok('>'), get_closing('<'));
    assert!(matches!(get_closing('x'), Err(ChunkError::InvalidCharacter)));
}
