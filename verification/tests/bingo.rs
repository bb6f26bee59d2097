use submarine::bingo::BingoTable;

const SAMPLE_NUMS: &[u32] = &[
    7, 4, 9, 5, 11, 17, 23, 2, 0, 14, 21, 24, 10, 16, 13, 6, 15, 25, 12, 22, 18, 20, 8, 19, 3, 26,
    1,
];

const BOARD_ONE: &[u8] = b"22 13 17 11  0\n 8  2 23  4 24\n21  9 14 16  7\n 6 10  3 18  5\n 1 12 20 15 19";
const BOARD_TWO: &[u8] = b" 3 15  0  2 22\n 9 18 13 17  5\n19  8  7 25 23\n20 11 10 24  4\n14 21 16 12  6";
const BOARD_THREE: &[u8] = b"14 21 17 24  4\n10 16 15  9 19\n18  8 23 26 20\n22 11 13  6  5\n 2  0 12  3  7";

fn sample_tables() -> Vec<BingoTable> {
    vec![
        BingoTable::from_str(BOARD_ONE).unwrap(),
        BingoTable::from_str(BOARD_TWO).unwrap(),
        BingoTable::from_str(BOARD_THREE).unwrap(),
    ]
}

#[test]
fn test_matrix_parse() {
    let str =
        " 3 15  0  2 22 \n 9 18 13 17  5 \n19  8  7 25 23 \n20 11 10 24  4 \n14 21 16 12  6";
    let matrix = BingoTable::from_str(str.as_bytes()).unwrap();
    assert_eq!(matrix.rows, 5);
    assert_eq!(matrix.cols, 5);
    assert_eq!(matrix.get(2, 3), 25)
}

#[test]
fn day4_test_part_one() {
    let nums: Vec<u32> = SAMPLE_NUMS.to_vec();
    let tables = sample_tables();
    let res = submarine::bingo::part_one(&nums, &tables).unwrap();
    assert_eq!(res, 4512);
}

#[test]
fn day4_test_part_two() {
    let nums: Vec<u32> = SAMPLE_NUMS.to_vec();
    let tables = sample_tables();
    let res = submarine::bingo::part_two(&nums, &tables).unwrap();
    assert_eq!(res, 1924);
}

#[test]
fn no_board_wins_gives_nothing() {
    let tables = sample_tables();
    // Draws that never complete a row or column on any board.
    let nums: Vec<u32> = vec![7, 4];
    assert_eq!(submarine::bingo::part_one(&nums, &tables), None);
    assert_eq!(submarine::bingo::part_two(&nums, &tables), None);
}

#[test]
fn part_two_needs_every_board_to_win() {
    // The first board can complete its top row; the second never wins.
    let a = BingoTable::from_str(b"1 2\n3 4").unwrap();
    let b = BingoTable::from_str(b"5 6\n7 8").unwrap();
    let nums: Vec<u32> = vec![1, 2];
    assert_eq!(submarine::bingo::part_one(&nums, &vec![a.duplicate(), b.duplicate()]), Some(14));
    assert_eq!(submarine::bingo::part_two(&nums, &vec![a, b]), None);
}

#[test]
fn fill_marks_and_scores() {
    let mut t = BingoTable::from_str(b"1 2\n3 4").unwrap();
    assert_eq!(t.fill(9), None);
    assert_eq!(t.fill(1), None);
    // Completing the first row wins with the unfilled sum 3 + 4 = 7.
    assert_eq!(t.fill(2), Some(7 * 2));
}
