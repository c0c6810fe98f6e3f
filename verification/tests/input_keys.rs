use client::input::InputState;

#[test]
fn keys_read_as_recorded_and_unknown_keys_are_released() {
    let mut s = InputState::new();
    assert!(!s.is_key_pressed(17));
    s.set_key_press(17, true);
    s.set_key_press(30, false);
    assert!(s.is_key_pressed(17));
    assert!(!s.is_key_pressed(30));
    s.set_key_press(17, false);
    assert!(!s.is_key_pressed(17));
}

#[test]
fn a_press_is_taken_once() {
    let mut s = InputState::new();
    s.set_key_press(5, true);
    s.set_key_press(6, true);
    assert!(s.take_key_pressed(5));
    assert!(!s.take_key_pressed(5));
    assert!(!s.is_key_pressed(5));
    assert!(s.is_key_pressed(6));
    assert!(!s.take_key_pressed(99));
}
