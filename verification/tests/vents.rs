use submarine::vents::{Field, Line};

const SAMPLE: &[&[u8]] = &[
    b"0,9 -> 5,9",
    b"8,0 -> 0,8",
    b"9,4 -> 3,4",
    b"2,2 -> 2,1",
    b"7,0 -> 7,4",
    b"6,4 -> 2,0",
    b"0,9 -> 2,9",
    b"3,4 -> 1,4",
    b"0,0 -> 8,8",
    b"5,5 -> 8,2",
];

fn sample_input() -> Vec<u8> {
    SAMPLE
        .iter()
        .map(|l| String::from_utf8(l.to_vec()).unwrap())
        .collect::<Vec<_>>()
        .join("\n")
        .into_bytes()
}

fn sample_field(diagonal: bool) -> Field {
    Field::from_str(&sample_input(), diagonal).unwrap()
}

#[test]
fn day5_test_input() {
    let field = sample_field(false);
    assert_eq!(field.cols, 10);
    assert_eq!(field.rows, 10);
    assert_eq!(field.numbers[0], 0);
}

#[test]
fn day5_test_part_one() {
    let field = sample_field(false);
    assert_eq!(submarine::vents::part(&field), 5);
}

#[test]
fn day5_test_part_two() {
    let field = sample_field(true);
    assert_eq!(submarine::vents::part(&field), 12);
}

#[test]
fn line_parsing_reads_both_endpoints() {
    let l = Line::from_str(b"9,4 -> 3,4").unwrap();
    assert_eq!((l.p1.x, l.p1.y, l.p2.x, l.p2.y), (9, 4, 3, 4));
    assert!(Line::from_str(b"9,4 - 3,4").is_none());
    assert!(Line::from_str(b"9 -> 3,4").is_none());
}

#[test]
fn marks_stay_local_off_square_grids() {
    // Three cells wide, two tall: marks must not alias across rows.
    let field = Field::from_str(b"0,0 -> 2,0
0,1 -> 0,1", false).unwrap();
    assert_eq!(field.cols, 3);
    assert_eq!(field.rows, 2);
    assert_eq!(field.numbers, vec![1, 1, 1, 1, 0, 0]);
    assert_eq!(submarine::vents::part(&field), 0);
}

#[test]
fn walks_run_both_directions() {
    assert_eq!(Field::get_iter(2, 5), vec![2, 3, 4, 5]);
    assert_eq!(Field::get_iter(5, 2), vec![5, 4, 3, 2]);
}
