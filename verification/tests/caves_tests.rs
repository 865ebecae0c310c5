use aoc21::caves::{CaveError, Graph, Node};
use std::collections::HashSet;

fn graph_with_edges(names: &[&str], edges: &[(usize, usize)]) -> Graph {
    let mut g = Graph {
        nodes: names.iter().map(|n| Node::new(n)).collect(),
        start: 0,
    };
    for (a, b) in edges {
        g.connect(*a, *b);
    }
    g
}

fn small_graph() -> Graph {
    // start, A, b, c, d, end connected as in the worked example.
    graph_with_edges(
        &["start", "A", "b", "c", "d", "end"],
        &[(0, 1), (0, 2), (1, 2), (1, 3), (1, 5), (2, 4), (2, 5)],
    )
}

#[test]
fn test_parse() {
    let lines: Vec<String> = ["start-A", "start-b", "A-c", "A-b", "b-d", "A-end", "b-end"]
        .iter()
        .map(|s| s.to_string())
        .collect();
    let graph = Graph::parse(&lines);
    assert!(graph.is_ok());
    let expected = graph_with_edges(
        &["start", "A", "b", "c", "d", "end"],
        &[(0, 1), (0, 2), (1, 3), (1, 2), (2, 4), (1, 5), (2, 5)],
    );
    assert_eq!(expected, graph.unwrap());
}

fn to_path_set(paths: Vec<Vec<String>>) -> HashSet<Vec<String>> {
    paths.into_iter().collect()
}

fn expected_set(paths: &[&[&str]]) -> HashSet<Vec<String>> {
    paths
        .iter()
        .map(|p| p.iter().map(|s| s.to_string()).collect())
        .collect()
}

#[test]
fn test_traverse() {
    let graph = small_graph();
    let expected = expected_set(&[
        &["start", "A", "b", "A", "c", "A", "end"],
        &["start", "A", "b", "A", "end"],
        &["start", "A", "b", "end"],
        &["start", "A", "c", "A", "b", "A", "end"],
        &["start", "A", "c", "A", "b", "end"],
        &["start", "A", "c", "A", "end"],
        &["start", "A", "end"],
        &["start", "b", "A", "c", "A", "end"],
        &["start", "b", "A", "end"],
        &["start", "b", "end"],
    ]);
    assert_eq!(expected, to_path_set(graph.get_paths(false)));
}

#[test]
fn test_traverse_twice() {
    let graph = small_graph();
    let expected = expected_set(&[
        &["start", "A", "b", "A", "b", "A", "c", "A", "end"],
        &["start", "A", "b", "A", "b", "A", "end"],
        &["start", "A", "b", "A", "b", "end"],
        &["start", "A", "b", "A", "c", "A", "b", "A", "end"],
        &["start", "A", "b", "A", "c", "A", "b", "end"],
        &["start", "A", "b", "A", "c", "A", "c", "A", "end"],
        &["start", "A", "b", "A", "c", "A", "end"],
        &["start", "A", "b", "A", "end"],
        &["start", "A", "b", "d", "b", "A", "c", "A", "end"],
        &["start", "A", "b", "d", "b", "A", "end"],
        &["start", "A", "b", "d", "b", "end"],
        &["start", "A", "b", "end"],
        &["start", "A", "c", "A", "b", "A", "b", "A", "end"],
        &["start", "A", "c", "A", "b", "A", "b", "end"],
        &["start", "A", "c", "A", "b", "A", "c", "A", "end"],
        &["start", "A", "c", "A", "b", "A", "end"],
        &["start", "A", "c", "A", "b", "d", "b", "A", "end"],
        &["start", "A", "c", "A", "b", "d", "b", "end"],
        &["start", "A", "c", "A", "b", "end"],
        &["start", "A", "c", "A", "c", "A", "b", "A", "end"],
        &["start", "A", "c", "A", "c", "A", "b", "end"],
        &["start", "A", "c", "A", "c", "A", "end"],
        &["start", "A", "c", "A", "end"],
        &["start", "A", "end"],
        &["start", "b", "A", "b", "A", "c", "A", "end"],
        &["start", "b", "A", "b", "A", "end"],
        &["start", "b", "A", "b", "end"],
        &["start", "b", "A", "c", "A", "b", "A", "end"],
        &["start", "b", "A", "c", "A", "b", "end"],
        &["start", "b", "A", "c", "A", "c", "A", "end"],
        &["start", "b", "A", "c", "A", "end"],
        &["start", "b", "A", "end"],
        &["start", "b", "d", "b", "A", "c", "A", "end"],
        &["start", "b", "d", "b", "A", "end"],
        &["start", "b", "d", "b", "end"],
        &["start", "b", "end"],
    ]);
    assert_eq!(expected, to_path_set(graph.get_paths(true)));
}

#[test]
fn tunnel_lines_are_validated() {
    let bad: Vec<String> = vec!["start-A".to_string(), "loose".to_string()];
    assert!(matches!(Graph::parse(&bad), Err(CaveError::InvalidLine)));
    let no_start: Vec<String> = vec!["A-b".to_string()];
    assert!(matches!(Graph::parse(&no_start), Err(CaveError::NoStart)));
}
