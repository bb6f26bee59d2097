use submarine::syntax;

const SAMPLE: &[u8] = b"[({(<(())[]>[[{[]{<()<>>\n[(()[<>])]({[<{<<[]>>(\n{([(<{}[<>[]}>{[]{[(<()>\n(((({<>}<{<{<>}{[]{[]{}\n[[<[([]))<([[{}[[()]]]\n[{[{({}]{}}([{[{{{}}([]\n{<[[]]>}<{[{[{[]{()[[[]\n[<(<(<(<{}))><([]([]()\n<{([([[(<>()){}]>(<<{{\n<{([{{}}[<[[[<>{}]]]>[]]\n";

#[test]
fn day10_test_part_one() {
    let res = syntax::part_one(SAMPLE);
    assert_eq!(res, 26397);
}

#[test]
fn day10_test_part_two() {
    let res = syntax::part_two(SAMPLE);
    assert_eq!(res, 288957);
}

#[test]
fn corrupt_line_scores_first_illegal_brace() {
    assert_eq!(syntax::part_one(b"{([(<{}[<>[]}>{[]{[(<()>"), 1197);
    assert_eq!(syntax::part_one(b"[[<[([]))<([[{}[[()]]]"), 3);
}

#[test]
fn incomplete_line_completion_score() {
    assert_eq!(syntax::part_two(b"<{([{{}}[<[[[<>{}]]]>[]]"), 294);
    assert_eq!(syntax::part_two(b"[({(<(())[]>[[{[]{<()<>>"), 288957);
}
