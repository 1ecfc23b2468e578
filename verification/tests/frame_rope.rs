use modal_edit::editor::Editor;
use modal_edit::keybinds::default_keybinds;
use modal_edit::keys::{KeyCode, KeyInput, Mode};
use modal_edit::rope::Rope;

fn key(c: char) -> KeyInput {
    KeyInput { code: KeyCode::Char(c), ctrl: false, alt: false, shift: false }
}

fn chars(s: &str) -> Vec<char> {
    s.chars().collect()
}

fn string_of(v: &Vec<char>) -> String {
    v.iter().collect()
}

fn editor_with_lines(lines: &[&str]) -> Editor {
    let mut e = Editor::new((80, 24));
    default_keybinds(&mut e.keymap);
    e.buffer = lines.iter().map(|l| chars(l)).collect();
    e
}

#[test]
fn frame_gutter_and_text() {
    let e = editor_with_lines(&["hello", "world", "third"]);
    let f = e.render();
    assert_eq!(f.text_rows.len(), 3);
    // The cursor row shows its absolute index, others their distance.
    assert_eq!(string_of(&f.text_rows[0]), "   0  hello");
    assert_eq!(string_of(&f.text_rows[1]), "   1  world");
    assert_eq!(string_of(&f.text_rows[2]), "   2  third");
    assert_eq!(f.filler_rows, 24 - 3);
    assert!(f.banner_rows.is_empty());
    assert!(f.prompt.is_none());
    assert_eq!(f.cursor_screen, (6, 0));
    assert!(!f.cursor_bar);
}

#[test]
fn frame_relative_numbers_around_cursor() {
    let mut e = editor_with_lines(&["a", "b", "c", "d"]);
    e.display.cursor_move_y(2, &e.buffer, 0);
    let f = e.render();
    assert_eq!(string_of(&f.text_rows[0]), "   2  a");
    assert_eq!(string_of(&f.text_rows[1]), "   1  b");
    assert_eq!(string_of(&f.text_rows[2]), "   2  c");
    assert_eq!(string_of(&f.text_rows[3]), "   1  d");
    assert_eq!(f.cursor_screen, (6, 2));
}

#[test]
fn frame_wide_gutter_numbers() {
    let lines: Vec<String> = (0..12000).map(|i| format!("line{}", i)).collect();
    let mut e = editor_with_lines(&lines.iter().map(|s| s.as_str()).collect::<Vec<_>>());
    e.handle_key_event(key('G'));
    let f = e.render();
    // Five digits overflow the four-column pad without truncation.
    let last = f.text_rows.last().unwrap();
    assert_eq!(string_of(last), "11999  line11999");
}

#[test]
fn frame_clips_horizontally() {
    let mut e = editor_with_lines(&["abcdefghij"]);
    e.display.size = (4, 10);
    e.display.offset = (2, 0);
    let f = e.render();
    assert_eq!(string_of(&f.text_rows[0]), "   0  cdef");
}

#[test]
fn frame_banner_and_prompt() {
    let mut e = editor_with_lines(&["text"]);
    e.io_failed(chars("first\nsecond"));
    e.handle_key_event(key(':'));
    e.handle_key_event(key('w'));
    assert!(matches!(e.mode, Mode::COMMAND));
    let f = e.render();
    assert_eq!(f.banner_rows.len(), 2);
    assert_eq!(string_of(&f.banner_rows[0]), "first");
    assert_eq!(string_of(&f.banner_rows[1]), "second");
    let p = f.prompt.as_ref().unwrap();
    assert_eq!(string_of(p), ":w");
    // The terminal cursor sits after the typed command on the prompt row.
    assert_eq!(f.cursor_screen, (2, 24));
    assert!(f.cursor_bar);
    // One prompt row and one extra banner row shrink the text window.
    assert_eq!(f.text_rows.len(), 1);
    assert_eq!(f.filler_rows, 24 - 2 - 1);
}

#[test]
fn rope_builds_and_reports_length() {
    let r = Rope::new(chars("hello"));
    assert_eq!(r.len(), 5);
    assert_eq!(string_of(&r.collect_text()), "hello");
}

#[test]
fn rope_insert_at_ends_and_middle() {
    let mut r = Rope::new(chars("hello"));
    r.insert(5, chars(" world"));
    assert_eq!(string_of(&r.collect_text()), "hello world");
    r.insert(0, chars(">> "));
    assert_eq!(string_of(&r.collect_text()), ">> hello world");
    r.insert(3, chars("[mid]"));
    assert_eq!(string_of(&r.collect_text()), ">> [mid]hello world");
    assert_eq!(r.len(), 19);
}

#[test]
fn rope_insert_into_empty() {
    let mut r = Rope::new(Vec::new());
    assert_eq!(r.len(), 0);
    r.insert(0, chars("abc"));
    assert_eq!(string_of(&r.collect_text()), "abc");
}
