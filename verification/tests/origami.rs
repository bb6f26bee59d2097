use submarine::origami::{Field, Fold};

const POINTS: &[(usize, usize)] = &[
    (6, 10),
    (0, 14),
    (9, 10),
    (0, 3),
    (10, 4),
    (4, 11),
    (6, 0),
    (6, 12),
    (4, 1),
    (0, 13),
    (10, 12),
    (3, 4),
    (3, 0),
    (8, 4),
    (1, 10),
    (2, 14),
    (8, 10),
    (9, 0),
];

fn sample_field() -> Field {
    let text: Vec<u8> = POINTS
        .iter()
        .map(|(x, y)| format!("{},{}", x, y))
        .collect::<Vec<_>>()
        .join("\n")
        .into_bytes();
    Field::from_str(&text).unwrap()
}

#[test]
fn day13_test_input() {
    let folds: Vec<Fold> = [b"fold along y=7".as_slice(), b"fold along x=5".as_slice()]
        .iter()
        .map(|l| Fold::from_str(l).unwrap())
        .collect();
    assert_eq!(folds[0], Fold::Y(7));
    assert_eq!(folds[1], Fold::X(5));
    let field = sample_field();
    let i = field.get_index((6, 10));
    assert_eq!(field.content[i], true);
}

#[test]
fn day13_test_part_one() {
    let field = sample_field();
    let folds = vec![Fold::Y(7), Fold::X(5)];
    assert_eq!(submarine::origami::part_one(&field, &folds), 17);
}

#[test]
fn both_folds_leave_sixteen_dots() {
    let field = sample_field();
    let once = field.folded(&Fold::Y(7));
    let twice = once.folded(&Fold::X(5));
    assert_eq!(twice.count(), 16);
}
