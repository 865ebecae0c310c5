use aoc21::navigation::{navigate, AimNavigation, Command, NaiveNavigation, NavError, Navigation,
    parse_instruction};

fn example_instructions() -> Vec<String> {
    vec![
        "forward 5".to_owned(),
        "down 5".to_owned(),
        "forward 8".to_owned(),
        "up 3".to_owned(),
        "down 8".to_owned(),
        "forward 2".to_owned(),
    ]
}

#[test]
fn test_navigate_naive() {
    let instructions = example_instructions();
    let mut navigation = NaiveNavigation::default();
    let result = navigate(&instructions, &mut navigation);
    assert!(result.is_ok());
    assert_eq!(15, navigation.horizontal_position());
    assert_eq!(10, navigation.vertical_position());
}

#[test]
fn test_navigate_aim() {
    let instructions = example_instructions();
    let mut navigation = AimNavigation::default();
    let result = navigate(&instructions, &mut navigation);
    assert!(result.is_ok());
    assert_eq!(15, navigation.horizontal_position());
    assert_eq!(60, navigation.vertical_position());
}

#[test]
fn unknown_direction_is_reported() {
    assert_eq!(Err(NavError::UnknownDirection), parse_instruction("sideways 3"));
    assert_eq!(Err(NavError::InvalidInstruction), parse_instruction("forward"));
    assert_eq!(Err(NavError::InvalidAmount), parse_instruction("forward x"));
    assert_eq!(Ok(Command::Forward(5)), parse_instruction("forward 5"));
}
