use submarine::bytes;
use submarine::crabs;

fn parse_positions(input: &[u8]) -> Vec<usize> {
    bytes::split_bytes(input, b',')
        .iter()
        .map(|t| bytes::parse_u32(t.as_slice()).unwrap() as usize)
        .collect()
}

#[test]
fn day7_test_input() {
    let input = parse_positions(b"16,1,2,0,4,2,7,1,2,14");
    assert_eq!(input, vec![16, 1, 2, 0, 4, 2, 7, 1, 2, 14]);
}

#[test]
fn day7_test_part_one() {
    let input = parse_positions(b"16,1,2,0,4,2,7,1,2,14");
    assert_eq!(crabs::part_one(&input), 37);
}

#[test]
fn day7_test_part_two() {
    let input = parse_positions(b"16,1,2,0,4,2,7,1,2,14");
    assert_eq!(crabs::part_two(&input), 168);
}
