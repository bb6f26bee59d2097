use submarine::dive;
use submarine::dive::Instruction;

fn sample_instructions() -> Vec<Instruction> {
    let lines: [&[u8]; 6] = [
        b"forward 5",
        b"down 5",
        b"forward 8",
        b"up 3",
        b"down 8",
        b"forward 2",
    ];
    lines.iter().map(|l| Instruction::from_string(l).unwrap()).collect()
}

#[test]
fn test_data() {
    let instructions = sample_instructions();
    assert_eq!(dive::part_one(&instructions), (10, 15));
    assert_eq!(dive::part_two(&instructions), (60, 15));
}

#[test]
fn from_string_rejects_unknown_words() {
    assert!(Instruction::from_string(b"sideways 3").is_none());
    assert!(Instruction::from_string(b"forward x").is_none());
    assert!(Instruction::from_string(b"forward").is_none());
}

#[test]
fn from_string_accepts_signed_amounts() {
    assert!(matches!(Instruction::from_string(b"up +3"), Some(Instruction::Up(3))));
    assert!(matches!(Instruction::from_string(b"down -2"), Some(Instruction::Down(-2))));
}
