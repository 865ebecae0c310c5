use aoc21::bingo::{BingoBoard, BingoError, BingoResult};

fn board_lines() -> Vec<String> {
    [
        "22 13 17 11  0",
        " 8  2 23  4 24",
        "21  9 14 16  7",
        " 6 10  3 18  5",
        " 1 12 20 15 19",
        "",
        " 3 15  0  2 22",
        " 9 18 13 17  5",
        "19  8  7 25 23",
        "20 11 10 24  4",
        "14 21 16 12  6",
        "",
        "14 21 17 24  4",
        "10 16 15  9 19",
        "18  8 23 26 20",
        "22 11 13  6  5",
        " 2  0 12  3  7",
    ]
    .iter()
    .map(|s| s.to_string())
    .collect()
}

fn expected_boards() -> Vec<BingoBoard> {
    vec![
        BingoBoard(vec![
            vec![22u8, 13, 17, 11, 0],
            vec![8u8, 2, 23, 4, 24],
            vec![21u8, 9, 14, 16, 7],
            vec![6u8, 10, 3, 18, 5],
            vec![1u8, 12, 20, 15, 19],
        ]),
        BingoBoard(vec![
            vec![3u8, 15, 0, 2, 22],
            vec![9u8, 18, 13, 17, 5],
            vec![19u8, 8, 7, 25, 23],
            vec![20u8, 11, 10, 24, 4],
            vec![14u8, 21, 16, 12, 6],
        ]),
        BingoBoard(vec![
            vec![14u8, 21, 17, 24, 4],
            vec![10u8, 16, 15, 9, 19],
            vec![18u8, 8, 23, 26, 20],
            vec![22u8, 11, 13, 6, 5],
            vec![2u8, 0, 12, 3, 7],
        ]),
    ]
}

#[test]
fn test_new_board() {
    let lines = board_lines();
    let expected = expected_boards();

    let mut pos = 0;
    let mut boards = Vec::new();
    for _ in 0..3 {
        let (board, next) = BingoBoard::new(&lines, pos).unwrap();
        assert!(board.is_some());
        boards.push(board.unwrap());
        pos = next;
    }
    assert_eq!(expected, boards);

    let (no_board, _) = BingoBoard::new(&lines, pos).unwrap();
    assert!(no_board.is_none());
}

#[test]
fn test_bingo() {
    let boards = expected_boards();
    let numbers = [
        7u8, 4, 9, 5, 11, 17, 23, 2, 0, 14, 21, 24, 10, 16, 13, 6, 15, 25, 12, 22, 18, 20, 8,
        19, 3, 26, 1,
    ];
    let results: Vec<BingoResult> = boards
        .iter()
        .filter_map(|board| board.bingo(&numbers))
        .collect();
    assert_eq!(
        vec![
            BingoResult(13, 2192),
            BingoResult(14, 1924),
            BingoResult(11, 4512)
        ],
        results
    );
}

#[test]
fn board_sum_counts_every_cell() {
    let boards = expected_boards();
    assert_eq!(300, boards[0].sum());
}

#[test]
fn bad_board_lines_are_rejected() {
    let bad_number = vec!["1 2 3 4 foo".to_string()];
    assert_eq!(Err(BingoError::InvalidNumber), BingoBoard::new(&bad_number, 0));
    let bad_count = vec!["1 2 3 4".to_string()];
    assert_eq!(Err(BingoError::InvalidLine), BingoBoard::new(&bad_count, 0));
    let oversized = vec!["1 2 3 4 300".to_string()];
    assert_eq!(Err(BingoError::InvalidNumber), BingoBoard::new(&oversized, 0));
}
