use aoc21::origami::{Image, OrigamiError, Pixel};

fn original_image() -> Image {
    Image::from_pixels(vec![
        Pixel(6, 10),
        Pixel(0, 14),
        Pixel(9, 10),
        Pixel(0, 3),
        Pixel(10, 4),
        Pixel(4, 11),
        Pixel(6, 0),
        Pixel(6, 12),
        Pixel(4, 1),
        Pixel(0, 13),
        Pixel(10, 12),
        Pixel(3, 4),
        Pixel(3, 0),
        Pixel(8, 4),
        Pixel(1, 10),
        Pixel(2, 14),
        Pixel(8, 10),
        Pixel(9, 0),
    ])
}

fn folded_image() -> Image {
    Image::from_pixels(vec![
        Pixel(0, 0),
        Pixel(2, 0),
        Pixel(3, 0),
        Pixel(6, 0),
        Pixel(9, 0),
        Pixel(0, 1),
        Pixel(4, 1),
        Pixel(6, 2),
        Pixel(10, 2),
        Pixel(0, 3),
        Pixel(4, 3),
        Pixel(1, 4),
        Pixel(3, 4),
        Pixel(6, 4),
        Pixel(8, 4),
        Pixel(9, 4),
        Pixel(10, 4),
    ])
}

fn twice_folded_image() -> Image {
    Image::from_pixels(vec![
        Pixel(0, 0),
        Pixel(1, 0),
        Pixel(2, 0),
        Pixel(3, 0),
        Pixel(4, 0),
        Pixel(0, 1),
        Pixel(4, 1),
        Pixel(0, 2),
        Pixel(4, 2),
        Pixel(0, 3),
        Pixel(4, 3),
        Pixel(0, 4),
        Pixel(1, 4),
        Pixel(2, 4),
        Pixel(3, 4),
        Pixel(4, 4),
    ])
}

#[test]
fn main_test_parse() {
    let lines: Vec<String> = [
        "6,10", "0,14", "9,10", "0,3", "10,4", "4,11", "6,0", "6,12", "4,1", "0,13", "10,12",
        "3,4", "3,0", "8,4", "1,10", "2,14", "8,10", "9,0", "", "fold along y=7",
        "fold along x=5",
    ]
    .iter()
    .map(|s| s.to_string())
    .collect();
    let expected = original_image();

    let result = Image::parse(&lines);
    assert!(result.is_ok());

    let (image, rest) = result.unwrap();
    assert_eq!(
        vec!["fold along y=7".to_string(), "fold along x=5".to_string()],
        lines[rest..].to_vec()
    );
    assert_eq!(expected, image);
}

#[test]
fn test_pixel_fold_vertical() {
    let pixel = Pixel(6, 0);
    assert_eq!(Pixel(4, 0), pixel.fold_vertical(5));
}

#[test]
fn test_pixel_fold_horizontal() {
    let pixel = Pixel(0, 6);
    assert_eq!(Pixel(0, 4), pixel.fold_horizontal(5));
}

#[test]
fn test_fold_vertical() {
    let image = original_image();
    let expected = folded_image();
    let folded = image.fold_horizontal(7);
    assert_eq!(expected, folded)
}

#[test]
fn test_fold_horizontal() {
    let image = folded_image();
    let expected = twice_folded_image();
    let folded = image.fold_vertical(5);
    assert_eq!(expected, folded)
}

#[test]
fn test_dots() {
    let image = folded_image();
    assert_eq!(17, image.dots());
}

#[test]
fn painting_shows_the_folded_sheet() {
    let expected = "\
#.##..#..#.
#...#......
......#...#
#...#......
.#.#..#.###
";
    assert_eq!(expected, folded_image().paint());
}

#[test]
fn dot_section_errors_are_reported() {
    let no_folds: Vec<String> = vec!["1,2".to_string()];
    assert!(matches!(Image::parse(&no_folds), Err(OrigamiError::NoFolds)));
    let bad: Vec<String> = vec!["1;2".to_string(), "fold along y=1".to_string()];
    assert!(matches!(Image::parse(&bad), Err(OrigamiError::InvalidCoordinate)));
}
