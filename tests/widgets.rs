use minesweeper::abutton;
use minesweeper::cell::{Click, MouseButton, State};

#[test]
fn button_press_and_release() {
    let mut s = abutton::State::new();
    assert!(!s.is_pressed());
    s.press(false);
    assert!(!s.is_pressed());
    assert!(!s.release());
    s.press(true);
    assert!(s.is_pressed());
    assert!(s.release());
    assert!(!s.is_pressed());
}

#[test]
fn cell_left_and_right_clicks() {
    let mut s = State::new();
    s.press(MouseButton::Left, true);
    assert_eq!(s.release(), Some(Click::Left));
    s.press(MouseButton::Right, true);
    assert_eq!(s.release(), Some(Click::Right));
    assert_eq!(s.release(), None);
}

#[test]
fn cell_both_buttons_make_middle_click() {
    let mut s = State::new();
    s.press(MouseButton::Left, true);
    s.press(MouseButton::Right, true);
    assert_eq!(s.release(), Some(Click::Middle));
    s.press(MouseButton::Other, true);
    assert_eq!(s.release(), Some(Click::Middle));
}

#[test]
fn cell_press_elsewhere_is_ignored() {
    let mut s = State::new();
    s.press(MouseButton::Left, false);
    assert_eq!(s.release(), None);
}
