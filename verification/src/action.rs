//! Actions: the closed set of commands a key sequence can be bound to. A
//! resolved sequence yields one of these; a central executor applies it to
//! the editor state.

use vstd::prelude::*;

verus! {

/// A unit of behavior bound to a `(mode, sequence)` pair. Repeatable: when a
/// sequence fires with a numeric prefix, its action runs that many times.
#[derive(Clone, Copy, PartialEq, Eq, Structural, Debug)]
pub enum Action {
    /// Move the cursor by a relative delta, saturating and clamped.
    MoveBy(isize, isize),
    /// Jump to the last column of the current line.
    MoveToLineEnd,
    /// Jump to the first non-blank column of the current line.
    MoveToFirstNonBlank,
    /// Jump to the first line.
    MoveToTop,
    /// Jump to the last line.
    MoveToBottom,
    /// Open an empty line below the cursor and enter INSERT mode.
    OpenBelow,
    /// Open an empty line above the cursor and enter INSERT mode.
    OpenAbove,
    /// Switch to INSERT mode.
    EnterInsert,
    /// Switch to COMMAND mode.
    EnterCommand,
    /// Switch back to NORMAL mode and discard the command line.
    EscapeToNormal,
    /// Dismiss the error banner.
    AcknowledgeError,
    /// Run the typed command line.
    SubmitCommand,
    /// Stop the editor.
    Quit,
}

} // verus!
