use submarine::bytes;
use submarine::lanternfish;

fn parse_school(input: &[u8]) -> Vec<u8> {
    bytes::split_bytes(input, b',')
        .iter()
        .map(|t| bytes::parse_u32(t.as_slice()).unwrap() as u8)
        .collect()
}

#[test]
fn test_input() {
    let input = parse_school(b"3,4,3,1,2");
    assert_eq!(input, vec![3, 4, 3, 1, 2]);
}

#[test]
fn test_step() {
    let mut fish = parse_school(b"3,4,3,1,2");
    lanternfish::n_step(&mut fish, 1);
    assert_eq!(fish, vec![2, 3, 2, 0, 1]);
}

#[test]
fn day6_test_part_one() {
    let mut fish = parse_school(b"3,4,3,1,2");
    lanternfish::n_step(&mut fish, 18);
    assert_eq!(
        fish,
        vec![6, 0, 6, 4, 5, 6, 0, 1, 1, 2, 6, 0, 1, 1, 1, 2, 2, 3, 3, 4, 6, 7, 8, 8, 8, 8]
    );
    lanternfish::n_step(&mut fish, 62);
    assert_eq!(fish.len(), 5934);
}

#[test]
fn spawned_fish_wait_two_extra_days() {
    let mut fish = vec![0u8];
    lanternfish::step_loop(&mut fish);
    assert_eq!(fish, vec![6, 8]);
}
