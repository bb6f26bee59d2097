use submarine::diagnostics;

fn sample_readings() -> Vec<u32> {
    [
        "00100", "11110", "10110", "10111", "10101", "01111", "00111", "11100", "10000", "11001",
        "00010", "01010",
    ]
    .iter()
    .map(|s| u32::from_str_radix(s, 2).unwrap())
    .collect()
}

#[test]
fn test_part1() {
    let bytes = sample_readings();
    assert_eq!(diagnostics::part_one(5, &bytes), (22, 9));
}

#[test]
fn test_part2() {
    let bytes = sample_readings();
    assert_eq!(diagnostics::part_two(5, &bytes), (23, 10));
}
