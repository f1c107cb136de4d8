//! The press state of a clickable button widget.
use vstd::prelude::*;

verus! {

/// Whether a mouse button went down over the button and has not been let go.
#[derive(Clone, Copy, Debug, PartialEq, Eq, Structural)]
pub struct State {
    is_pressed: bool,
}

impl View for State {
    type V = bool;

    closed spec fn view(&self) -> bool {
        self.is_pressed
    }
}

impl State {
    /// A button that nothing presses.
    pub fn new() -> (s: State)
        ensures
            !s@,
    {
        State { is_pressed: false }
    }

    pub fn is_pressed(&self) -> (r: bool)
        ensures
            r == self@,
    {
        self.is_pressed
    }

    /// A mouse button goes down; it presses the button where the cursor is
    /// over it.
    pub fn press(&mut self, cursor_over: bool)
        ensures
            final(self)@ == (old(self)@ || cursor_over),
    {
        if cursor_over {
            self.is_pressed = true;
        }
    }

    /// A mouse button is let go. Returns whether it had pressed the button:
    /// only then is the release the button's to handle.
    pub fn release(&mut self) -> (r: bool)
        ensures
            r == old(self)@,
            !final(self)@,
    {
        let was = self.is_pressed;
        self.is_pressed = false;
        was
    }
}

} // verus!
