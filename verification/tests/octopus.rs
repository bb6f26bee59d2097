use submarine::octopus::Field;

const SAMPLE: &[u8] = b"5483143223\n2745854711\n5264556173\n6141336146\n6357385478\n4167524645\n2176841721\n6882881134\n4846848554\n5283751526\n";

#[test]
fn day11_test_input() {
    let field = Field::from_str(SAMPLE).unwrap();
    assert_eq!(field.cols, 10);
    assert_eq!(field.rows, 10);
    assert_eq!(field.numbers[0], 5);
}

#[test]
fn day11_test_part_one() {
    let mut field = Field::from_str(SAMPLE).unwrap();
    let mut test = field.step();
    test += field.step();
    test += field.n_step(18);
    assert_eq!(field.n_step(80) + test, 1656);
}

#[test]
fn day11_test_part_two() {
    let field = Field::from_str(SAMPLE).unwrap();
    assert_eq!(submarine::octopus::part_two(&field), 195);
}

#[test]
fn day11_test_pos() {
    let field = Field::from_str(SAMPLE).unwrap();
    assert_eq!(field.get_coord(10), (0, 1));
    assert_eq!(field.get_coord(0), (0, 0));
    assert_eq!(field.get_coord(15), (5, 1));
}

#[test]
fn part_one_counts_all_flashes() {
    let field = Field::from_str(SAMPLE).unwrap();
    assert_eq!(submarine::octopus::part_one(&field), 1656);
}

#[test]
fn small_cascade() {
    // Every cell of a 2 by 2 grid of nines flashes in one step.
    let mut field = Field::from_str(b"99\n99\n").unwrap();
    assert_eq!(field.step(), 4);
    assert_eq!(field.numbers, vec![0, 0, 0, 0]);
}

#[test]
fn run_splits_compose() {
    // Ticking 20 then 80 days gives the hundred-tick total.
    let mut a = Field::from_str(SAMPLE).unwrap();
    let first = a.n_step(20);
    let second = a.n_step(80);
    assert_eq!(first + second, 1656);
}

#[test]
fn get_reads_in_grid_cells_only() {
    let field = Field::from_str(b"12\n34\n").unwrap();
    assert_eq!(field.get(0, 0), Some(1));
    assert_eq!(field.get(1, 1), Some(4));
    assert_eq!(field.get(2, 0), None);
    assert_eq!(field.get(-1, 0), None);
}
