use aoc21::trench::{Image, ImageEnhancer, TrenchError};

fn enhancer() -> ImageEnhancer {
    ImageEnhancer(vec![false, false, true, false, true, false, false, true, true, true, true, true, false, true, false, true, false, true, false, true, true, true, false, true, true, false, false, false, false, false, true, true, true, false, true, true, false, true, false, false, true, true, true, false, true, true, true, true, false, false, true, true, true, true, true, false, false, true, false, false, false, false, true, false, false, true, false, false, true, true, false, false, true, true, true, false, false, true, true, true, true, true, true, false, true, true, true, false, false, false, true, true, true, true, false, false, true, false, false, true, true, true, true, true, false, false, true, true, false, false, true, false, true, true, true, true, true, false, false, false, true, true, false, true, false, true, false, false, true, false, true, true, false, false, true, false, true, false, false, false, false, false, false, true, false, true, true, true, false, true, true, true, true, true, true, false, true, true, true, false, true, true, true, true, false, false, false, true, false, true, true, false, true, true, false, false, true, false, false, true, false, false, true, true, true, true, true, false, false, false, false, false, true, false, true, false, false, false, false, true, true, true, false, false, true, false, true, true, false, false, false, false, false, false, true, false, false, false, false, false, true, false, false, true, false, false, true, false, false, true, true, false, false, true, false, false, false, true, true, false, true, true, true, true, true, true, false, true, true, true, true, false, true, true, true, true, false, true, false, true, false, false, false, true, false, false, false, false, false, false, false, true, false, false, true, false, true, false, true, false, false, false, true, true, true, true, false, true, true, false, true, false, false, false, false, false, false, true, false, false, true, false, false, false, true, true, false, true, false, true, true, false, false, true, false, false, false, true, true, false, true, false, true, true, false, false, true, true, true, false, true, false, false, false, false, false, false, true, false, true, false, false, false, false, false, false, false, true, false, true, false, true, false, true, true, true, true, false, true, true, true, false, true, true, false, false, false, true, false, false, false, false, false, true, true, true, true, false, true, false, false, true, false, false, true, false, true, true, false, true, false, false, false, false, true, true, false, false, true, false, true, true, true, true, false, false, false, false, true, true, false, false, false, true, true, false, false, true, false, false, false, true, false, false, false, false, false, false, true, false, true, false, false, false, false, false, false, false, true, false, false, false, false, false, false, false, true, true, false, false, true, true, true, true, false, false, true, false, false, false, true, false, true, false, true, false, false, false, true, true, false, false, true, false, true, false, false, true, true, true, false, false, true, true, true, true, true, false, false, false, false, false, false, false, false, true, false, false, true, true, true, true, false, false, false, false, false, false, true, false, false, true])
}

#[test]
fn test_small() {
    let enhancer = enhancer();
    let image = Image {
        pixels: vec![
                vec![true, false, false, true, false],
                vec![true, false, false, false, false],
                vec![true, true, false, false, true],
                vec![false, false, true, false, false],
                vec![false, false, true, true, true],
            ],
        height: 5,
        width: 5,
        default_pixel: false,
    };

    let expected1 = Image {
        pixels: vec![
                vec![false, true, true, false, true, true, false],
                vec![true, false, false, true, false, true, false],
                vec![true, true, false, true, false, false, true],
                vec![true, true, true, true, false, false, true],
                vec![false, true, false, false, true, true, false],
                vec![false, false, true, true, false, false, true],
                vec![false, false, false, true, false, true, false],
            ],
        width: 7,
        height: 7,
        default_pixel: false,
    };

    let image1 = enhancer.enhance(image);
    assert_eq!(7, image1.width);
    assert_eq!(7, image1.height);
    assert_eq!(expected1.paint(), image1.paint());

    let expected2 = Image {
        pixels: vec![
                vec![false, false, false, false, false, false, false, true, false],
                vec![false, true, false, false, true, false, true, false, false],
                vec![true, false, true, false, false, false, true, true, true],
                vec![true, false, false, false, true, true, false, true, false],
                vec![true, false, false, false, false, false, true, false, true],
                vec![false, true, false, true, true, true, true, true, false],
                vec![false, false, true, false, true, true, true, true, true],
                vec![false, false, false, true, true, false, true, true, false],
                vec![false, false, false, false, true, true, true, false, false],
            ],
        width: 9,
        height: 9,
        default_pixel: false,
    };

    let image2 = enhancer.enhance(image1);
    assert_eq!(9, image2.width);
    assert_eq!(9, image2.height);
    assert_eq!(expected2.paint(), image2.paint());

    assert_eq!(35, expected2.lit_pixels());
}

#[test]
fn enhancer_lines_are_validated() {
    assert!(matches!(
        ImageEnhancer::parse("#.#"),
        Err(TrenchError::WrongLength)
    ));
    assert!(matches!(
        ImageEnhancer::parse("#.x"),
        Err(TrenchError::InvalidPixel)
    ));
}
