//! Key events as the editor core sees them: a key code plus a modifier set,
//! both plain values, decoded from the terminal by the surrounding program.

use vstd::prelude::*;

verus! {

/// The editing mode; exactly one is active at a time. VISUAL is reserved and
/// carries no default binding.
#[allow(non_camel_case_types)]
#[derive(Clone, Copy, PartialEq, Eq, Structural, Debug)]
pub enum Mode {
    NORMAL,
    COMMAND,
    INSERT,
    VISUAL,
}

/// The key that was pressed.
#[derive(Clone, Copy, PartialEq, Eq, Structural, Debug)]
pub enum KeyCode {
    Char(char),
    Backspace,
    Enter,
    Esc,
    Tab,
    Delete,
    Insert,
    Home,
    End,
    PageUp,
    PageDown,
    Up,
    Down,
    Left,
    Right,
    F(u8),
}

/// A single chord: a key code together with its modifier set.
#[derive(Clone, Copy, PartialEq, Eq, Structural, Debug)]
pub struct KeyInput {
    pub code: KeyCode,
    pub ctrl: bool,
    pub alt: bool,
    pub shift: bool,
}

/// The decimal value of an unmodified digit key, if the event is one.
pub open spec fn plain_digit_of(ev: KeyInput) -> Option<usize> {
    if ev.ctrl || ev.alt || ev.shift {
        None
    } else {
        match ev.code {
            KeyCode::Char(c) => {
                if '0' <= c && c <= '9' {
                    Some((c as int - '0' as int) as usize)
                } else {
                    None
                }
            },
            _ => None,
        }
    }
}

/// Reads an unmodified decimal digit key, as consumed into the repeat prefix.
pub fn event_to_digit(ev: &KeyInput) -> (r: Option<usize>)
    ensures
        r == plain_digit_of(*ev),
{
    if ev.ctrl || ev.alt || ev.shift {
        return None;
    }
    match ev.code {
        KeyCode::Char(c) => {
            let v = c as u32;
            if '0' as u32 <= v && v <= '9' as u32 {
                Some((v - '0' as u32) as usize)
            } else {
                None
            }
        },
        _ => None,
    }
}

} // verus!
