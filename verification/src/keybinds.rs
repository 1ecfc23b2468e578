//! The default binding set: vim-style motions, mode switches, line opening,
//! banner acknowledgment, command submission, and the two-chord quit.

use vstd::prelude::*;

use crate::action::Action;
use crate::keymap::{bound_action, Keymap};
use crate::keys::{KeyCode, KeyInput, Mode};

verus! {

/// An unmodified character chord.
pub open spec fn key_char(c: char) -> KeyInput {
    KeyInput { code: KeyCode::Char(c), ctrl: false, alt: false, shift: false }
}

/// A Control-modified character chord.
pub open spec fn key_ctrl(c: char) -> KeyInput {
    KeyInput { code: KeyCode::Char(c), ctrl: true, alt: false, shift: false }
}

/// An unmodified named-key chord.
pub open spec fn key_code(code: KeyCode) -> KeyInput {
    KeyInput { code, ctrl: false, alt: false, shift: false }
}

/// The default binding table: what each mode binds to each chord sequence.
pub open spec fn default_binding(m: Mode, s: Seq<KeyInput>) -> Option<Action> {
    if m == Mode::NORMAL && s == seq![key_char('k')] {
        Some(Action::MoveBy(0isize, -1isize))
    } else if m == Mode::NORMAL && s == seq![key_char('j')] {
        Some(Action::MoveBy(0isize, 1isize))
    } else if m == Mode::NORMAL && s == seq![key_char('h')] {
        Some(Action::MoveBy(-1isize, 0isize))
    } else if m == Mode::NORMAL && s == seq![key_char('l')] {
        Some(Action::MoveBy(1isize, 0isize))
    } else if m == Mode::NORMAL && s == seq![key_char('i')] {
        Some(Action::EnterInsert)
    } else if m == Mode::NORMAL && s == seq![key_char(':')] {
        Some(Action::EnterCommand)
    } else if (m == Mode::INSERT || m == Mode::COMMAND) && s == seq![key_code(KeyCode::Esc)] {
        Some(Action::EscapeToNormal)
    } else if m == Mode::NORMAL && s == seq![key_code(KeyCode::Enter)] {
        Some(Action::AcknowledgeError)
    } else if m == Mode::NORMAL && s == seq![key_char('$')] {
        Some(Action::MoveToLineEnd)
    } else if m == Mode::NORMAL && s == seq![key_char('_')] {
        Some(Action::MoveToFirstNonBlank)
    } else if m == Mode::NORMAL && s == seq![key_char('g'), key_char('g')] {
        Some(Action::MoveToTop)
    } else if m == Mode::NORMAL && s == seq![key_char('G')] {
        Some(Action::MoveToBottom)
    } else if m == Mode::NORMAL && s == seq![key_char('o')] {
        Some(Action::OpenBelow)
    } else if m == Mode::NORMAL && s == seq![key_char('O')] {
        Some(Action::OpenAbove)
    } else if m == Mode::COMMAND && s == seq![key_code(KeyCode::Enter)] {
        Some(Action::SubmitCommand)
    } else if m == Mode::NORMAL && s == seq![key_ctrl('w'), key_ctrl('q')] {
        Some(Action::Quit)
    } else {
        None
    }
}

/// One unmodified character chord as a one-element sequence.
fn one_char(c: char) -> (r: Vec<KeyInput>)
    ensures
        r@ == seq![key_char(c)],
{
    let mut r: Vec<KeyInput> = Vec::new();
    r.push(KeyInput { code: KeyCode::Char(c), ctrl: false, alt: false, shift: false });
    proof {
        assert(r@ =~= seq![key_char(c)]);
    }
    r
}

/// One unmodified named-key chord as a one-element sequence.
fn one_code(code: KeyCode) -> (r: Vec<KeyInput>)
    ensures
        r@ == seq![key_code(code)],
{
    let mut r: Vec<KeyInput> = Vec::new();
    r.push(KeyInput { code, ctrl: false, alt: false, shift: false });
    proof {
        assert(r@ =~= seq![key_code(code)]);
    }
    r
}

/// The modes a binding applies to, as a vector.
fn modes1(m: Mode) -> (r: Vec<Mode>)
    ensures
        r@ == seq![m],
{
    let mut r: Vec<Mode> = Vec::new();
    r.push(m);
    proof {
        assert(r@ =~= seq![m]);
    }
    r
}

/// Registers the default binding set into an empty keymap; afterwards the
/// bound actions are exactly the default binding table.
pub fn default_keybinds(keymap: &mut Keymap)
    requires
        old(keymap)@.wf(),
        forall|m: Mode, s: Seq<KeyInput>| #[trigger]
            bound_action(old(keymap)@.nodes, m, s) is None,
    ensures
        final(keymap)@.wf(),
        final(keymap)@.current == old(keymap)@.current,
        final(keymap)@.prefix == old(keymap)@.prefix,
        forall|m: Mode, s: Seq<KeyInput>| #[trigger]
            bound_action(final(keymap)@.nodes, m, s) == default_binding(m, s),
{
    let normal = modes1(Mode::NORMAL);
    let command = modes1(Mode::COMMAND);

    keymap.add_keybind(&normal, &one_char('k'), Action::MoveBy(0, -1));
    keymap.add_keybind(&normal, &one_char('j'), Action::MoveBy(0, 1));
    keymap.add_keybind(&normal, &one_char('h'), Action::MoveBy(-1, 0));
    keymap.add_keybind(&normal, &one_char('l'), Action::MoveBy(1, 0));
    keymap.add_keybind(&normal, &one_char('i'), Action::EnterInsert);
    keymap.add_keybind(&normal, &one_char(':'), Action::EnterCommand);

    let mut insert_command: Vec<Mode> = Vec::new();
    insert_command.push(Mode::INSERT);
    insert_command.push(Mode::COMMAND);
    proof {
        assert(insert_command@ =~= seq![Mode::INSERT, Mode::COMMAND]);
    }
    keymap.add_keybind(&insert_command, &one_code(KeyCode::Esc), Action::EscapeToNormal);

    keymap.add_keybind(&normal, &one_code(KeyCode::Enter), Action::AcknowledgeError);
    keymap.add_keybind(&normal, &one_char('$'), Action::MoveToLineEnd);
    keymap.add_keybind(&normal, &one_char('_'), Action::MoveToFirstNonBlank);

    let mut gg: Vec<KeyInput> = Vec::new();
    gg.push(KeyInput { code: KeyCode::Char('g'), ctrl: false, alt: false, shift: false });
    gg.push(KeyInput { code: KeyCode::Char('g'), ctrl: false, alt: false, shift: false });
    proof {
        assert(gg@ =~= seq![key_char('g'), key_char('g')]);
    }
    keymap.add_keybind(&normal, &gg, Action::MoveToTop);

    keymap.add_keybind(&normal, &one_char('G'), Action::MoveToBottom);
    keymap.add_keybind(&normal, &one_char('o'), Action::OpenBelow);
    keymap.add_keybind(&normal, &one_char('O'), Action::OpenAbove);
    keymap.add_keybind(&command, &one_code(KeyCode::Enter), Action::SubmitCommand);

    let mut quit_chord: Vec<KeyInput> = Vec::new();
    quit_chord.push(KeyInput { code: KeyCode::Char('w'), ctrl: true, alt: false, shift: false });
    quit_chord.push(KeyInput { code: KeyCode::Char('q'), ctrl: true, alt: false, shift: false });
    proof {
        assert(quit_chord@ =~= seq![key_ctrl('w'), key_ctrl('q')]);
    }
    keymap.add_keybind(&normal, &quit_chord, Action::Quit);

    proof {
        let sn = seq![Mode::NORMAL];
        let sc = seq![Mode::COMMAND];
        let sic = seq![Mode::INSERT, Mode::COMMAND];
        assert(sn[0] == Mode::NORMAL && sn.contains(Mode::NORMAL));
        assert(sc[0] == Mode::COMMAND && sc.contains(Mode::COMMAND));
        assert(sic[0] == Mode::INSERT && sic.contains(Mode::INSERT));
        assert(sic[1] == Mode::COMMAND && sic.contains(Mode::COMMAND));
        assert forall|mm: Mode| #[trigger] sn.contains(mm) implies mm == Mode::NORMAL by {
            let i = choose|i: int| 0 <= i < sn.len() && sn[i] == mm;
            assert(sn[i] == mm);
        }
        assert forall|mm: Mode| #[trigger] sc.contains(mm) implies mm == Mode::COMMAND by {
            let i = choose|i: int| 0 <= i < sc.len() && sc[i] == mm;
            assert(sc[i] == mm);
        }
        assert forall|mm: Mode| #[trigger] sic.contains(mm) implies mm == Mode::INSERT || mm
            == Mode::COMMAND by {
            let i = choose|i: int| 0 <= i < sic.len() && sic[i] == mm;
            assert(sic[i] == mm);
        }
        assert forall|m: Mode, s: Seq<KeyInput>| #[trigger]
            bound_action(final(keymap)@.nodes, m, s) == default_binding(m, s) by {}
    }
}

} // verus!
