use aoc21::vents::{get_covered_points, Line, Point, VentError};
use std::collections::HashMap;

#[test]
fn test_get_line_points_horizontal() {
    let line = Line(Point::new(0, 5), Point::new(0, 8));
    let points = line.get_points(false);
    assert!(points.is_some());
    assert_eq!(
        vec![
            Point::new(0, 5),
            Point::new(0, 6),
            Point::new(0, 7),
            Point::new(0, 8),
        ],
        points.unwrap()
    );
}

#[test]
fn test_get_line_points_vertical() {
    let line = Line(Point::new(0, 5), Point::new(8, 5));
    let points = line.get_points(false);
    assert!(points.is_some());
    assert_eq!(
        vec![
            Point::new(0, 5),
            Point::new(1, 5),
            Point::new(2, 5),
            Point::new(3, 5),
            Point::new(4, 5),
            Point::new(5, 5),
            Point::new(6, 5),
            Point::new(7, 5),
            Point::new(8, 5),
        ],
        points.unwrap()
    );
}

#[test]
fn test_get_line_points_negative() {
    let line = Line(Point::new(2, 5), Point::new(0, 5));
    let points = line.get_points(false);
    assert!(points.is_some());
    assert_eq!(
        vec![Point::new(2, 5), Point::new(1, 5), Point::new(0, 5)],
        points.unwrap()
    );
}

#[test]
fn test_get_covered_points_non_diagonal() {
    let lines = vec![
        Line(Point::new(0, 5), Point::new(0, 2)),
        Line(Point::new(0, 5), Point::new(0, 1)),
        Line(Point::new(0, 5), Point::new(2, 5)),
        Line(Point::new(0, 3), Point::new(3, 0)),
    ];

    let expected: HashMap<Point, u32> = [
        (Point::new(0, 5), 3),
        (Point::new(0, 4), 2),
        (Point::new(0, 3), 2),
        (Point::new(0, 2), 2),
        (Point::new(0, 1), 1),
        (Point::new(1, 5), 1),
        (Point::new(2, 5), 1),
    ]
    .into_iter()
    .collect();

    let covered: HashMap<Point, u32> = get_covered_points(&lines, false).into_iter().collect();
    assert_eq!(expected, covered);
}

#[test]
fn diagonal_points_are_kept_only_when_allowed() {
    let line = Line(Point::new(0, 5), Point::new(5, 0));
    assert!(line.get_points(false).is_none());
    assert_eq!(
        vec![
            Point::new(0, 5),
            Point::new(1, 4),
            Point::new(2, 3),
            Point::new(3, 2),
            Point::new(4, 1),
            Point::new(5, 0),
        ],
        line.get_points(true).unwrap()
    );
}

#[test]
fn point_and_line_parsing() {
    assert_eq!(Ok(Point::new(5, 6)), Point::parse("5,6"));
    assert_eq!(Ok(Point::new(5, 6)), Point::parse("5 , 6"));
    assert_eq!(Err(VentError::InvalidNumber), Point::parse("5,"));
    assert_eq!(Err(VentError::InvalidNumber), Point::parse("foo"));
    assert_eq!(
        Ok(Line(Point::new(5, 6), Point::new(5, 6))),
        Line::parse("5,6 -> 5,6")
    );
    assert_eq!(Err(VentError::InvalidLine), Line::parse("5,6"));
}

#[test]
fn too_many_coordinates_make_no_point() {
    assert_eq!(Err(VentError::InvalidPoint), Point::parse("5,6,7"));
}
