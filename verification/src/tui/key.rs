//! The keys the UI reacts to, independent of the terminal library.
use vstd::prelude::*;

verus! {

/// Which key was pressed.
#[derive(Clone, Copy, Debug, PartialEq, Eq, Structural)]
pub enum KeyCode {
    Esc,
    Enter,
    Backspace,
    Delete,
    Left,
    Right,
    Up,
    Down,
    Home,
    End,
    PageUp,
    PageDown,
    Tab,
    BackTab,
    Char(char),
    /// Any key the UI has no use for.
    Other,
}

/// A key press with its modifiers (`cmd` is the Super/Command key).
#[derive(Clone, Copy, Debug, PartialEq, Eq, Structural)]
pub struct Key {
    pub code: KeyCode,
    pub ctrl: bool,
    pub alt: bool,
    pub shift: bool,
    pub cmd: bool,
}

impl Key {
    /// A key with no modifiers.
    pub fn plain(code: KeyCode) -> (k: Key)
        ensures
            k == (Key { code, ctrl: false, alt: false, shift: false, cmd: false }),
    {
        Key { code, ctrl: false, alt: false, shift: false, cmd: false }
    }

    /// A key with Ctrl held.
    pub fn ctrl(code: KeyCode) -> (k: Key)
        ensures
            k == (Key { code, ctrl: true, alt: false, shift: false, cmd: false }),
    {
        Key { code, ctrl: true, alt: false, shift: false, cmd: false }
    }
}

} // verus!
