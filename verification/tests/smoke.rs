use submarine::smoke::Field;

const SAMPLE: &[u8] = b"2199943210\n3987894921\n9856789892\n8767896789\n9899965678\n";

#[test]
fn day9_test_input() {
    let field = Field::from_str(SAMPLE).unwrap();
    assert_eq!(field.cols, 10);
    assert_eq!(field.rows, 5);
    assert_eq!(field.numbers[0], 2);
}

#[test]
fn day9_test_part_one() {
    let field = Field::from_str(SAMPLE).unwrap();
    assert_eq!(submarine::smoke::part_one(&field), 15);
}

#[test]
fn day9_test_part_two() {
    let field = Field::from_str(SAMPLE).unwrap();
    assert_eq!(submarine::smoke::part_two(&field), 1134);
}

#[test]
fn low_points_of_sample() {
    let field = Field::from_str(SAMPLE).unwrap();
    let pts = field.get_low_points();
    assert_eq!(pts.len(), 4);
    assert!(pts.contains(&(1, 0)));
    assert!(pts.contains(&(9, 0)));
    assert!(pts.contains(&(2, 2)));
    assert!(pts.contains(&(6, 4)));
}
