//! Key presses, as the editor sees them.

use vstd::prelude::*;

verus! {

/// The key that was pressed.
#[derive(Debug, Clone, Copy, PartialEq, Eq, Structural)]
pub enum KeyCode {
    Char(char),
    Enter,
    Esc,
    Tab,
    BackTab,
    Backspace,
    Delete,
    Left,
    Right,
    Up,
    Down,
    Home,
    End,
    PageUp,
    PageDown,
    F(u8),
    Other,
}

/// The modifier keys held down.
#[derive(Debug, Clone, Copy, PartialEq, Eq, Structural)]
pub struct Modifiers {
    pub ctrl: bool,
    pub alt: bool,
    pub shift: bool,
    pub meta: bool,
}

/// A key press.
#[derive(Debug, Clone, Copy, PartialEq, Eq, Structural)]
pub struct Key {
    pub code: KeyCode,
    pub mods: Modifiers,
}

impl Modifiers {
    /// No modifier is held.
    pub open spec fn none(self) -> bool {
        !self.ctrl && !self.alt && !self.shift && !self.meta
    }

    /// Ctrl is held, and nothing else.
    pub open spec fn only_ctrl(self) -> bool {
        self.ctrl && !self.alt && !self.shift && !self.meta
    }

    pub fn is_none(self) -> (r: bool)
        ensures
            r == self.none(),
    {
        !self.ctrl && !self.alt && !self.shift && !self.meta
    }

    pub fn is_only_ctrl(self) -> (r: bool)
        ensures
            r == self.only_ctrl(),
    {
        self.ctrl && !self.alt && !self.shift && !self.meta
    }
}

/// Where the key is a plain character that may be gathered with others into one
/// insertion: the character. Ctrl, Alt and Meta combinations are commands.
pub open spec fn plain_char(key: Key) -> Option<char> {
    match key.code {
        KeyCode::Char(c) => if key.mods.ctrl || key.mods.alt || key.mods.meta {
            None
        } else {
            Some(c)
        },
        _ => None,
    }
}

/// Returns `Some(ch)` if `key` is a plain character keystroke that's safe to
/// accumulate into a single insert during burst processing (paste). Returns
/// `None` for any key that would otherwise change state — modifiers like
/// Ctrl, special keys like Enter/Tab/Backspace.
pub fn accumulatable_char(key: Key) -> (r: Option<char>)
    ensures
        r == plain_char(key),
{
    if key.mods.ctrl || key.mods.alt || key.mods.meta {
        return None;
    }
    match key.code {
        KeyCode::Char(c) => Some(c),
        _ => None,
    }
}

} // verus!
