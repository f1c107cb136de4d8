//! The press state of a cell widget, which tells a left, a right and a middle
//! click apart: pressing both buttons and letting either go is a middle click.
use vstd::prelude::*;

verus! {

/// A mouse button that goes down.
#[derive(Clone, Copy, Debug, PartialEq, Eq, Structural)]
pub enum MouseButton {
    Left,
    Right,
    /// Any other button: it counts as both.
    Other,
}

/// What letting go of the mouse makes of the presses.
#[derive(Clone, Copy, Debug, PartialEq, Eq, Structural)]
pub enum Click {
    Left,
    Right,
    Middle,
}

/// Which of the two main mouse buttons went down over the cell.
#[derive(Clone, Copy, Debug, PartialEq, Eq, Structural)]
pub struct State {
    is_left_pressed: bool,
    is_right_pressed: bool,
}

impl View for State {
    type V = (bool, bool);

    closed spec fn view(&self) -> (bool, bool) {
        (self.is_left_pressed, self.is_right_pressed)
    }
}

/// The click that letting go makes of a left and a right press.
pub open spec fn click_of(left: bool, right: bool) -> Option<Click> {
    if left && right {
        Some(Click::Middle)
    } else if left {
        Some(Click::Left)
    } else if right {
        Some(Click::Right)
    } else {
        None
    }
}

impl State {
    /// A cell that nothing presses.
    pub fn new() -> (s: State)
        ensures
            s@ == (false, false),
    {
        State { is_left_pressed: false, is_right_pressed: false }
    }

    /// Some button is down over the cell.
    pub fn is_pressed(&self) -> (r: bool)
        ensures
            r == (self@.0 || self@.1),
    {
        self.is_left_pressed || self.is_right_pressed
    }

    /// A mouse button goes down; it counts only where the cursor is over the
    /// cell.
    pub fn press(&mut self, button: MouseButton, cursor_over: bool)
        ensures
            final(self)@.0 == (old(self)@.0 || (cursor_over && !(button is Right))),
            final(self)@.1 == (old(self)@.1 || (cursor_over && !(button is Left))),
    {
        if cursor_over {
            match button {
                MouseButton::Left => self.is_left_pressed = true,
                MouseButton::Right => self.is_right_pressed = true,
                MouseButton::Other => {
                    self.is_left_pressed = true;
                    self.is_right_pressed = true;
                },
            }
        }
    }

    /// The mouse is let go: both presses end, and together they make a click,
    /// if any button was down.
    pub fn release(&mut self) -> (r: Option<Click>)
        ensures
            r == click_of(old(self)@.0, old(self)@.1),
            final(self)@ == (false, false),
    {
        let r = if self.is_left_pressed && self.is_right_pressed {
            Some(Click::Middle)
        } else if self.is_left_pressed {
            Some(Click::Left)
        } else if self.is_right_pressed {
            Some(Click::Right)
        } else {
            None
        };
        self.is_left_pressed = false;
        self.is_right_pressed = false;
        r
    }
}

} // verus!
