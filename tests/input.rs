use breakout::input::{Action, HeldKeys, Key};

#[test]
fn no_keys_no_motion() {
    let keys = HeldKeys::new();
    assert_eq!(keys.velocity(), (0, 0));
}

#[test]
fn left_alone_moves_left() {
    let mut keys = HeldKeys::new();
    assert_eq!(keys.handle(Key::Left, true), Action::Continue);
    assert_eq!(keys.velocity(), (-1, 0));
    assert!(keys.is_held(Key::Left));
}

#[test]
fn right_alone_moves_right() {
    let mut keys = HeldKeys::new();
    keys.handle(Key::Right, true);
    assert_eq!(keys.velocity(), (1, 0));
}

#[test]
fn both_directions_cancel() {
    let mut keys = HeldKeys::new();
    keys.handle(Key::Left, true);
    keys.handle(Key::Right, true);
    assert_eq!(keys.velocity(), (0, 0));
    keys.handle(Key::Left, false);
    assert_eq!(keys.velocity(), (1, 0));
    assert!(!keys.is_held(Key::Left));
}

#[test]
fn repeated_press_needs_one_release() {
    let mut keys = HeldKeys::new();
    keys.handle(Key::Left, true);
    keys.handle(Key::Left, true);
    keys.handle(Key::Left, false);
    assert_eq!(keys.velocity(), (0, 0));
}

#[test]
fn other_keys_do_not_steer() {
    let mut keys = HeldKeys::new();
    assert_eq!(keys.handle(Key::Other(42), true), Action::Continue);
    assert!(keys.is_held(Key::Other(42)));
    assert_eq!(keys.velocity(), (0, 0));
}

#[test]
fn quit_key_ends_the_game() {
    let mut keys = HeldKeys::new();
    assert_eq!(keys.handle(Key::Quit, true), Action::Quit);
    assert_eq!(keys.handle(Key::Quit, false), Action::Quit);
}
