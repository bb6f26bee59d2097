use submarine::polymer;

const RULES: &[(&str, u8)] = &[
    ("CH", b'B'),
    ("HH", b'N'),
    ("CB", b'H'),
    ("NH", b'C'),
    ("HB", b'C'),
    ("HC", b'B'),
    ("HN", b'C'),
    ("NN", b'C'),
    ("BH", b'H'),
    ("NC", b'B'),
    ("NB", b'B'),
    ("BN", b'B'),
    ("BB", b'N'),
    ("BC", b'B'),
    ("CC", b'N'),
    ("CN", b'C'),
];

fn rule_table() -> Vec<Option<u8>> {
    let mut t = vec![None; 65536];
    for (pair, out) in RULES {
        let b = pair.as_bytes();
        t[(b[0] as usize) * 256 + (b[1] as usize)] = Some(*out);
    }
    t
}

#[test]
fn day14_test_part_one() {
    let start = b"NNCB".to_vec();
    let rules = rule_table();
    assert_eq!(polymer::part(&start, &rules, 10), Some(1588));
}

#[test]
fn day14_test_part_two() {
    let start = b"NNCB".to_vec();
    let rules = rule_table();
    assert_eq!(polymer::part(&start, &rules, 40), Some(2188189693529));
}

#[test]
fn one_step_counts() {
    // NNCB becomes NCNBCHB: B and C twice, H once, N twice; spread 2 - 1.
    let start = b"NNCB".to_vec();
    let rules = rule_table();
    assert_eq!(polymer::part(&start, &rules, 1), Some(1));
}
