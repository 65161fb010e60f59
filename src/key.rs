use vstd::prelude::*;

use crate::action::Action;

verus! {

/// The logical key of a key press.
#[derive(Clone, Copy, Debug, PartialEq, Eq, Structural)]
pub enum KeyCode {
    Char(char),
    F(u8),
    Backspace,
    Enter,
    Left,
    Right,
    Up,
    Down,
    Tab,
    BackTab,
    Delete,
    Home,
    End,
    PageUp,
    PageDown,
    Esc,
    /// Any key that the panels do not tell apart.
    Null,
}

/// One key press with its modifier flags.
#[derive(Clone, Copy, Debug, PartialEq, Eq, Structural)]
pub struct KeyEvent {
    pub code: KeyCode,
    pub ctrl: bool,
    pub alt: bool,
    pub shift: bool,
}

impl KeyEvent {
    /// A press of `code` with no modifier held.
    pub fn plain(code: KeyCode) -> (r: KeyEvent)
        ensures
            r == (KeyEvent { code, ctrl: false, alt: false, shift: false }),
    {
        KeyEvent { code, ctrl: false, alt: false, shift: false }
    }
}

/// The command a key asks for, ahead of any panel's own reading of it.
pub open spec fn key_action(code: KeyCode) -> Option<Action> {
    match code {
        KeyCode::Tab => Some(Action::SwitchFocusForward),
        KeyCode::BackTab => Some(Action::SwitchFocusBackward),
        _ => None,
    }
}

} // verus!
