use aoc21::heightmap::{HeightMap, MapError};
use std::collections::HashSet;

fn example() -> HeightMap {
    HeightMap(vec![
        vec![2u8, 1, 9, 9, 9, 4, 3, 2, 1, 0],
        vec![3u8, 9, 8, 7, 8, 9, 4, 9, 2, 1],
        vec![9u8, 8, 5, 6, 7, 8, 9, 8, 9, 2],
        vec![8u8, 7, 6, 7, 8, 9, 6, 7, 8, 9],
        vec![9u8, 8, 9, 9, 9, 6, 5, 6, 7, 8],
    ])
}

#[test]
fn test_find_lowpoints() {
    let map = example();
    let lowpoints = map.find_lowpoints();
    assert_eq!(vec![1, 0, 5, 5], lowpoints);
}

#[test]
fn test_find_basins() {
    let map = example();
    let expected: Vec<HashSet<(usize, usize)>> = vec![
        [(0, 0), (0, 1), (1, 0)].into_iter().collect(),
        [(0, 5), (0, 6), (0, 7), (0, 8), (0, 9), (1, 6), (1, 8), (1, 9), (2, 9)]
            .into_iter()
            .collect(),
        [
            (1, 2),
            (1, 3),
            (1, 4),
            (2, 1),
            (2, 2),
            (2, 3),
            (2, 4),
            (2, 5),
            (3, 0),
            (3, 1),
            (3, 2),
            (3, 3),
            (3, 4),
            (4, 1),
        ]
        .into_iter()
        .collect(),
        [(2, 7), (3, 6), (3, 7), (3, 8), (4, 5), (4, 6), (4, 7), (4, 8), (4, 9)]
            .into_iter()
            .collect(),
    ];
    let basins: Vec<HashSet<_>> = map
        .find_basins()
        .into_iter()
        .map(|basin| basin.into_iter().collect())
        .collect();
    assert_eq!(expected, basins);
}

#[test]
fn parse_checks_shape_and_digits() {
    let lines: Vec<String> = vec!["219".to_string(), "398".to_string()];
    let map = HeightMap::parse(&lines, 2, 3).unwrap();
    assert_eq!(HeightMap(vec![vec![2, 1, 9], vec![3, 9, 8]]), map);
    assert_eq!(Err(MapError::WrongRows), HeightMap::parse(&lines, 3, 3));
    assert_eq!(Err(MapError::WrongColumns), HeightMap::parse(&lines, 2, 4));
    let bad: Vec<String> = vec!["2x9".to_string()];
    assert_eq!(Err(MapError::InvalidDigit), HeightMap::parse(&bad, 1, 3));
}
