use submarine::caves;
use submarine::caves::NodeType;

const SAMPLE: &[u8] = b"dc-end\nHN-start\nstart-kj\ndc-start\ndc-HN\nLW-dc\nHN-end\nkj-sa\nkj-HN\nkj-dc\n";

#[test]
fn day12_test_input() {
    let g = caves::parse(SAMPLE).unwrap();
    let hn = g.lookup(b"HN").unwrap();
    assert!(g.nodes[hn].ntype == NodeType::Upper);
    let dc = g.lookup(b"dc").unwrap();
    assert!(g.nodes[dc].ntype == NodeType::Lower);
    assert!(g.lookup(b"start").is_some());
    assert!(g.lookup(b"end").is_some());
    assert!(g.lookup(b"kj").is_some());
    assert!(g.lookup(b"ksdfdsfj").is_none());
}

#[test]
fn day12_test_part_one() {
    let g = caves::parse(SAMPLE).unwrap();
    assert_eq!(caves::part_one(&g), 19)
}

#[test]
fn day12_test_part_two() {
    let g = caves::parse(SAMPLE).unwrap();
    assert_eq!(caves::part_two(&g), 103)
}

#[test]
fn small_sample_counts() {
    let g = caves::parse(b"start-A\nstart-b\nA-c\nA-b\nb-d\nA-end\nb-end\n").unwrap();
    assert_eq!(caves::count_paths(&g, false), 10);
    assert_eq!(caves::count_paths(&g, true), 36);
}

#[test]
fn unreachable_end_counts_zero() {
    let g = caves::parse(b"start-a\nb-end\n").unwrap();
    assert_eq!(caves::count_paths(&g, false), 0);
    assert_eq!(caves::count_paths(&g, true), 0);
}

#[test]
fn completed_paths_start_and_end_placement() {
    let g = caves::parse(b"start-A\nstart-b\nA-c\nA-b\nb-d\nA-end\nb-end\n").unwrap();
    let start = g.lookup(b"start").unwrap();
    let end = g.lookup(b"end").unwrap();
    for p in caves::completed_paths(&g, true) {
        assert_eq!(p[0], start);
        assert_eq!(*p.last().unwrap(), end);
        assert!(p[1..].iter().all(|&v| v != start));
        assert!(p[..p.len() - 1].iter().all(|&v| v != end));
    }
}

#[test]
fn parse_rejects_bad_edge_line() {
    assert!(caves::parse(b"start-A\nnonsense\nA-end\n").is_none());
    assert!(caves::parse(b"A-b\nb-c\n").is_none());
}

#[test]
fn count_paths_is_repeatable() {
    let g = caves::parse(SAMPLE).unwrap();
    let first = caves::count_paths(&g, true);
    let second = caves::count_paths(&g, true);
    assert_eq!(first, second);
    assert_eq!(caves::part_one(&g), caves::part_one(&g));
}
