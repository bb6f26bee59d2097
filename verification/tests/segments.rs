use submarine::segments;

const SAMPLE: &[u8] = b"be cfbegad cbdgef fgaecd cgeb fdcge agebfd fecdb fabcd edb | fdgacbe cefdb cefbgd gcbe\nedbfga begcd cbg gc gcadebf fbgde acbgfd abcde gfcbed gfec | fcgedb cgb dgebacf gc\nfgaebd cg bdaec gdafb agbcfd gdcbef bgcad gfac gcb cdgabef | cg cg fdcagb cbg\nfbegcd cbd adcefb dageb afcb bc aefdc ecdab fgdeca fcdbega | efabcd cedba gadfec cb\naecbfdg fbg gf bafeg dbefa fcge gcbea fcaegb dgceab fcbdga | gecf egdcabf bgf bfgea\nfgeab ca afcebg bdacfeg cfaedg gcfdb baec bfadeg bafgc acf | gebdcfa ecba ca fadegcb\ndbcfg fgd bdegcaf fgec aegbdf ecdfab fbedc dacgb gdcebf gf | cefg dcbef fcge gbcadfe\nbdfegc cbegaf gecbf dfcage bdacg ed bedf ced adcbefg gebcd | ed bcgafe cdgba cbgef\negadfb cdbfeg cegd fecab cgb gbdefca cg fgcdab egfdb bfceg | gbdfcae bgc cg cgb\ngcafb gcf dcaebfg ecagb gf abcdeg gaef cafbge fdbac fegbdc | fgae cfgab fg bagce\n";

#[test]
fn day8_test_part_one() {
    let p1 = segments::part_one(SAMPLE);
    assert_eq!(p1, 26);
}

#[test]
fn day8_test_part_two() {
    let p2 = segments::part_two(SAMPLE).unwrap();
    assert_eq!(p2, 61229);
}

#[test]
fn single_line_decodes() {
    let line = b"acedgfb cdfbe gcdfa fbcad dab cefabd cdfgeb eafb cagedb ab | cdfeb fcadb cdfeb cdbaf\n";
    assert_eq!(segments::part_two(line), Some(5353));
}

#[test]
fn part_two_rejects_malformed_lines() {
    assert_eq!(submarine::segments::part_two(b"no bar on this line"), None);
    assert_eq!(submarine::segments::part_two(b"ab abc | ab"), None);
}

#[test]
fn new_rejects_incomplete_training() {
    assert!(segments::Code::new(b"ab abc").is_none());
}

#[test]
fn empty_code_has_ten_clear_digits() {
    let c = segments::Code::empty();
    assert_eq!(c.digits.len(), 10);
    assert!(c.digits.iter().all(|&d| d == 0));
}
