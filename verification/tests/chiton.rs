use submarine::chiton::Field;

const SAMPLE: &[u8] = b"1163751742\n1381373672\n2136511328\n3694931569\n7463417111\n1319128137\n1359912421\n3125421639\n1293138521\n2311944581\n";

const OCTOPUS_SAMPLE: &[u8] = b"5483143223\n2745854711\n5264556173\n6141336146\n6357385478\n4167524645\n2176841721\n6882881134\n4846848554\n5283751526\n";

#[test]
fn day15_test_input() {
    let field = Field::from_str(SAMPLE).unwrap();
    assert_eq!(field.cols, 10);
    assert_eq!(field.rows, 10);
    assert_eq!(field.numbers[2], 6);
}

#[test]
fn day15_test_pos() {
    let field = Field::from_str(OCTOPUS_SAMPLE).unwrap();
    assert_eq!(field.get_coord(10), (0, 1));
    assert_eq!(field.get_coord(0), (0, 0));
    assert_eq!(field.get_coord(15), (5, 1));
}

#[test]
fn set_changes_only_cells_in_the_grid() {
    let mut field = Field::from_str(b"12\n34\n").unwrap();
    field.set(0, 1, 9);
    assert_eq!(field.get(0, 1), Some(9));
    field.set(5, 5, 7);
    assert_eq!(field.numbers, vec![1, 2, 9, 4]);
}
