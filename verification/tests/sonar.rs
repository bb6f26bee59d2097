use submarine::sonar;

const SAMPLE: &[i32] = &[199, 200, 208, 210, 200, 207, 240, 269, 260, 263];

#[test]
fn depth_increases() {
    assert_eq!(sonar::count_increases(SAMPLE), 7);
}

#[test]
fn window_increases() {
    assert_eq!(sonar::count_window_increases(SAMPLE), 5);
}
