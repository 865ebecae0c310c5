use aoc21::text::{chars_of, parse_i64, parse_u32, split_on};

#[test]
fn numbers_parse_exactly() {
    assert_eq!(Some(42), parse_u32(&chars_of("42")));
    assert_eq!(Some(42), parse_u32(&chars_of("+42")));
    assert_eq!(None, parse_u32(&chars_of("")));
    assert_eq!(None, parse_u32(&chars_of("4x2")));
    assert_eq!(None, parse_u32(&chars_of("4294967296")));
    assert_eq!(Some(4294967295), parse_u32(&chars_of("4294967295")));
    assert_eq!(Some(-17), parse_i64(&chars_of("-17")));
    assert_eq!(Some(i64::MIN), parse_i64(&chars_of("-9223372036854775808")));
    assert_eq!(None, parse_i64(&chars_of("-9223372036854775809")));
    assert_eq!(Some(i64::MAX), parse_i64(&chars_of("9223372036854775807")));
}

#[test]
fn splitting_matches_str_split() {
    let v = chars_of("a b  c");
    let sep = chars_of(" ");
    let parts: Vec<String> = split_on(&v, &sep)
        .into_iter()
        .map(|p| p.into_iter().collect())
        .collect();
    assert_eq!(vec!["a", "b", "", "c"], parts);
    let line = chars_of("one | two | three");
    let bar = chars_of(" | ");
    let groups: Vec<String> = split_on(&line, &bar)
        .into_iter()
        .map(|p| p.into_iter().collect())
        .collect();
    assert_eq!(vec!["one", "two", "three"], groups);
}
