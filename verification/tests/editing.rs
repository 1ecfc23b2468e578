use modal_edit::editor::Editor;
use modal_edit::keybinds::default_keybinds;
use modal_edit::keys::{KeyCode, KeyInput, Mode};

fn key(c: char) -> KeyInput {
    KeyInput { code: KeyCode::Char(c), ctrl: false, alt: false, shift: false }
}

fn code(code: KeyCode) -> KeyInput {
    KeyInput { code, ctrl: false, alt: false, shift: false }
}

fn chars(s: &str) -> Vec<char> {
    s.chars().collect()
}

fn string_of(v: &Vec<char>) -> String {
    v.iter().collect()
}

fn editor_with_lines(lines: &[&str]) -> Editor {
    let mut e = Editor::new((80, 24));
    default_keybinds(&mut e.keymap);
    e.buffer = lines.iter().map(|l| chars(l)).collect();
    e
}

fn cursor_ok(e: &Editor) -> bool {
    let (x, y) = e.display.cursor.position;
    y < e.buffer.len() && x <= e.buffer[y].len()
}

#[test]
fn sticky_column() {
    // Down through a short row and down again restores the remembered
    // column on the next long row.
    let mut e = editor_with_lines(&["abcdef", "xy", "abcdef"]);
    e.display.cursor_move_x(5, &e.buffer, 0);
    assert_eq!(e.display.cursor.position, (5, 0));
    e.handle_key_event(key('j'));
    assert_eq!(e.display.cursor.position, (2, 1));
    e.handle_key_event(key('j'));
    assert_eq!(e.display.cursor.position, (5, 2));
}

#[test]
fn insert_typing_advances_cursor() {
    let mut e = editor_with_lines(&["ab"]);
    e.handle_key_event(key('i'));
    assert!(matches!(e.mode, Mode::INSERT));
    e.handle_key_event(key('X'));
    assert_eq!(string_of(&e.buffer[0]), "Xab");
    assert_eq!(e.display.cursor.position, (1, 0));
    e.handle_key_event(key('Y'));
    assert_eq!(string_of(&e.buffer[0]), "XYab");
    assert_eq!(e.display.cursor.position, (2, 0));
}

#[test]
fn enter_splits_line_at_cursor() {
    let mut e = editor_with_lines(&["hello"]);
    e.display.cursor_move_x(2, &e.buffer, 0);
    e.handle_key_event(key('i'));
    e.handle_key_event(code(KeyCode::Enter));
    assert_eq!(e.buffer.len(), 2);
    assert_eq!(string_of(&e.buffer[0]), "he");
    assert_eq!(string_of(&e.buffer[1]), "llo");
    assert_eq!(e.display.cursor.position, (0, 1));
}

#[test]
fn delete_removes_under_cursor_or_joins() {
    let mut e = editor_with_lines(&["ab", "cd"]);
    e.handle_key_event(key('i'));
    e.handle_key_event(code(KeyCode::Delete));
    assert_eq!(string_of(&e.buffer[0]), "b");
    // At end of line, delete joins the next line on.
    e.display.cursor_move_x(1, &e.buffer, 0);
    e.handle_key_event(code(KeyCode::Delete));
    assert_eq!(e.buffer.len(), 1);
    assert_eq!(string_of(&e.buffer[0]), "bcd");
}

#[test]
fn backspace_removes_before_cursor_or_joins() {
    let mut e = editor_with_lines(&["ab", "cd"]);
    e.handle_key_event(key('i'));
    e.display.cursor_move_x(1, &e.buffer, 0);
    e.handle_key_event(code(KeyCode::Backspace));
    assert_eq!(string_of(&e.buffer[0]), "b");
    assert_eq!(e.display.cursor.position, (0, 0));
    // At column zero of a later row, backspace joins onto the previous line
    // and puts the cursor at the join point.
    e.display.cursor_move_y(1, &e.buffer, 0);
    e.display.cursor_move_x(0, &e.buffer, 0);
    e.handle_key_event(code(KeyCode::Backspace));
    assert_eq!(e.buffer.len(), 1);
    assert_eq!(string_of(&e.buffer[0]), "bcd");
    assert_eq!(e.display.cursor.position, (1, 0));
}

#[test]
fn buffer_never_empties() {
    // Deleting everything, joining every line, still leaves one line.
    let mut e = editor_with_lines(&["a", "b"]);
    e.handle_key_event(key('i'));
    for _ in 0..10 {
        e.handle_key_event(code(KeyCode::Backspace));
        assert!(e.buffer.len() >= 1);
        assert!(cursor_ok(&e));
    }
    for _ in 0..10 {
        e.handle_key_event(code(KeyCode::Delete));
        assert!(e.buffer.len() >= 1);
        assert!(cursor_ok(&e));
    }
    assert_eq!(e.buffer.len(), 1);
    assert!(e.buffer[0].is_empty());
}

#[test]
fn cursor_stays_in_bounds_through_mixed_editing() {
    let mut e = editor_with_lines(&["abc"]);
    e.handle_key_event(key('i'));
    let script = [
        key('x'),
        code(KeyCode::Enter),
        key('y'),
        code(KeyCode::Backspace),
        code(KeyCode::Enter),
        code(KeyCode::Delete),
        key('z'),
        code(KeyCode::Backspace),
        code(KeyCode::Backspace),
        code(KeyCode::Backspace),
    ];
    for ev in script {
        e.handle_key_event(ev);
        assert!(e.buffer.len() >= 1);
        assert!(cursor_ok(&e));
    }
}

#[test]
fn line_end_and_first_non_blank() {
    let mut e = editor_with_lines(&["  hello  "]);
    e.handle_key_event(key('$'));
    assert_eq!(e.display.cursor.position.0, 8);
    e.handle_key_event(key('_'));
    assert_eq!(e.display.cursor.position.0, 2);
}

#[test]
fn open_below_and_above() {
    let mut e = editor_with_lines(&["one", "two"]);
    e.handle_key_event(key('o'));
    assert!(matches!(e.mode, Mode::INSERT));
    assert_eq!(e.buffer.len(), 3);
    assert!(e.buffer[1].is_empty());
    assert_eq!(e.display.cursor.position, (0, 1));

    let mut e2 = editor_with_lines(&["one", "two"]);
    e2.handle_key_event(key('O'));
    assert!(matches!(e2.mode, Mode::INSERT));
    assert_eq!(e2.buffer.len(), 3);
    assert!(e2.buffer[0].is_empty());
    assert_eq!(e2.display.cursor.position, (0, 0));
}

#[test]
fn top_and_bottom_motions() {
    let mut e = editor_with_lines(&["a", "b", "c", "d"]);
    e.handle_key_event(key('G'));
    assert_eq!(e.display.cursor.position.1, 3);
    e.handle_key_event(key('g'));
    e.handle_key_event(key('g'));
    assert_eq!(e.display.cursor.position.1, 0);
}

#[test]
fn escape_returns_to_normal() {
    let mut e = editor_with_lines(&["a"]);
    e.handle_key_event(key('i'));
    assert!(matches!(e.mode, Mode::INSERT));
    e.handle_key_event(code(KeyCode::Esc));
    assert!(matches!(e.mode, Mode::NORMAL));
}

#[test]
fn enter_acknowledges_banner() {
    let mut e = editor_with_lines(&["a"]);
    e.io_failed(chars("disk on fire"));
    assert!(e.error.is_some());
    e.handle_key_event(code(KeyCode::Enter));
    assert!(e.error.is_none());
}

#[test]
fn vertical_scroll_follows_cursor() {
    let mut e = editor_with_lines(&[
        "0", "1", "2", "3", "4", "5", "6", "7", "8", "9", "10", "11",
    ]);
    e.display.size = (20, 5);
    e.handle_key_event(key('G'));
    // The cursor row must be inside the five visible rows.
    let (_, y) = e.display.cursor.position;
    let oy = e.display.offset.1;
    assert!(oy <= y && y < oy + 5);
    assert_eq!(y, 11);
}
