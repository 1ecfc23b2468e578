use modal_edit::action::Action;
use modal_edit::editor::Editor;
use modal_edit::keybinds::default_keybinds;
use modal_edit::keymap::Keymap;
use modal_edit::keys::{KeyCode, KeyInput, Mode};

fn key(c: char) -> KeyInput {
    KeyInput { code: KeyCode::Char(c), ctrl: false, alt: false, shift: false }
}

fn ctrl(c: char) -> KeyInput {
    KeyInput { code: KeyCode::Char(c), ctrl: true, alt: false, shift: false }
}

fn chars(s: &str) -> Vec<char> {
    s.chars().collect()
}

fn editor_with_lines(lines: &[&str]) -> Editor {
    let mut e = Editor::new((80, 24));
    default_keybinds(&mut e.keymap);
    e.buffer = lines.iter().map(|l| chars(l)).collect();
    e
}

fn ten_lines() -> Editor {
    editor_with_lines(&["l0", "l1", "l2", "l3", "l4", "l5", "l6", "l7", "l8", "l9"])
}

#[test]
fn leaf_immediacy() {
    // A single-chord binding with no children fires on the one keystroke,
    // with no timeout involved.
    let mut e = ten_lines();
    assert!(matches!(e.mode, Mode::NORMAL));
    e.handle_key_event(key('i'));
    assert!(matches!(e.mode, Mode::INSERT));
    assert!(e.keymap.current.is_none());
}

#[test]
fn forced_resolution_on_dead_end() {
    // "gg" is bound, lone "g" is not; "g" then an unbound "x" discards the
    // pending prefix and reinterprets "x" from the root, where it is dropped.
    let mut e = ten_lines();
    e.display.cursor_move_y(5, &e.buffer, 0);
    e.handle_key_event(key('g'));
    assert!(e.keymap.current.is_some());
    e.handle_key_event(key('x'));
    assert!(e.keymap.current.is_none());
    // Neither the top-of-buffer action nor anything else moved the cursor.
    assert_eq!(e.display.cursor.position.1, 5);
    assert!(matches!(e.mode, Mode::NORMAL));
}

#[test]
fn timeout_firing() {
    // "g", a pause of more than a second, then "g": the first prefix is
    // discarded by the timeout, the second starts a fresh pending sequence,
    // and the top-of-buffer action never fires.
    let mut e = ten_lines();
    e.display.cursor_move_y(5, &e.buffer, 0);
    e.handle_key_event(key('g'));
    assert!(e.keymap.current.is_some());
    e.handle_tick(1500);
    assert!(e.keymap.current.is_none());
    assert_eq!(e.display.cursor.position.1, 5);
    e.handle_key_event(key('g'));
    assert!(e.keymap.current.is_some());
    assert_eq!(e.display.cursor.position.1, 5);
}

#[test]
fn two_chord_sequence_fires() {
    let mut e = ten_lines();
    e.display.cursor_move_y(5, &e.buffer, 0);
    e.handle_key_event(key('g'));
    e.handle_key_event(key('g'));
    assert_eq!(e.display.cursor.position.1, 0);
    assert!(e.keymap.current.is_none());
}

#[test]
fn repeat_prefix() {
    // "3j" moves down three rows.
    let mut e = ten_lines();
    e.handle_key_event(key('3'));
    e.handle_key_event(key('j'));
    assert_eq!(e.display.cursor.position.1, 3);
}

#[test]
fn repeat_prefix_accumulates_decimally() {
    // "12j" asks for twelve rows and clamps at the last one.
    let mut e = ten_lines();
    e.handle_key_event(key('1'));
    e.handle_key_event(key('2'));
    e.handle_key_event(key('j'));
    assert_eq!(e.display.cursor.position.1, 9);
}

#[test]
fn repeat_prefix_consumed_once() {
    let mut e = ten_lines();
    e.handle_key_event(key('3'));
    e.handle_key_event(key('j'));
    assert_eq!(e.display.cursor.position.1, 3);
    e.handle_key_event(key('j'));
    assert_eq!(e.display.cursor.position.1, 4);
}

#[test]
fn modifier_exclusion() {
    // An unbound Control-letter chord never lands as text in INSERT mode.
    let mut e = ten_lines();
    e.handle_key_event(key('i'));
    assert!(matches!(e.mode, Mode::INSERT));
    let before = e.buffer.clone();
    e.handle_key_event(ctrl('x'));
    assert_eq!(e.buffer, before);
}

#[test]
fn quit_chord() {
    let mut e = ten_lines();
    assert!(!e.stop);
    e.handle_key_event(ctrl('w'));
    assert!(!e.stop);
    e.handle_key_event(ctrl('q'));
    assert!(e.stop);
}

#[test]
fn later_binding_overwrites_earlier() {
    // Registering the same (mode, sequence) twice keeps the later action.
    let mut km = Keymap::new();
    km.add_keybind(&vec![Mode::NORMAL], &vec![key('z')], Action::MoveToTop);
    km.add_keybind(&vec![Mode::NORMAL], &vec![key('z')], Action::MoveToBottom);
    let mut e = ten_lines();
    e.keymap = km;
    e.display.cursor_move_y(5, &e.buffer, 0);
    e.handle_key_event(key('z'));
    assert_eq!(e.display.cursor.position.1, 9);
}

#[test]
fn shorter_prefix_fires_on_intervening_key() {
    // A node may hold both an action and children; a dead-end key makes the
    // shorter bound prefix fire before the longer sequence can complete.
    let mut km = Keymap::new();
    km.add_keybind(&vec![Mode::NORMAL], &vec![key('g')], Action::MoveToBottom);
    km.add_keybind(&vec![Mode::NORMAL], &vec![key('g'), key('g')], Action::MoveToTop);
    let mut e = ten_lines();
    e.keymap = km;
    e.display.cursor_move_y(5, &e.buffer, 0);
    e.handle_key_event(key('g'));
    // Pending: the node holds MoveToBottom but also has a child.
    assert_eq!(e.display.cursor.position.1, 5);
    e.handle_key_event(key('x'));
    // The dead end force-resolves the pending node: MoveToBottom fires.
    assert_eq!(e.display.cursor.position.1, 9);
}

#[test]
fn digits_are_not_consumed_mid_sequence() {
    // With a sequence pending, a digit is a dead end, not a repeat prefix:
    // it flushes the prefix and is then consumed from the root.
    let mut e = ten_lines();
    e.handle_key_event(key('g'));
    e.handle_key_event(key('4'));
    assert!(e.keymap.current.is_none());
    assert_eq!(e.keymap.numeric_prefix, Some(4));
    e.handle_key_event(key('j'));
    assert_eq!(e.display.cursor.position.1, 4);
}
