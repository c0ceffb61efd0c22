use audio_authoring::basics;

#[test]
fn add_sums_two_integers() {
    assert_eq!(basics::add(32, 100), 132);
    assert_eq!(basics::add(-5, 3), -2);
    assert_eq!(basics::add(i32::MAX, 0), i32::MAX);
    assert_eq!(basics::add(i32::MIN, 1), i32::MIN + 1);
}
