use modal_edit::command::{parse_command, Command};
use modal_edit::editor::{Editor, IoRequest};
use modal_edit::keybinds::default_keybinds;
use modal_edit::keys::{KeyCode, KeyInput, Mode};

fn key(c: char) -> KeyInput {
    KeyInput { code: KeyCode::Char(c), ctrl: false, alt: false, shift: false }
}

fn code(code: KeyCode) -> KeyInput {
    KeyInput { code, ctrl: false, alt: false, shift: false }
}

fn chars(s: &str) -> Vec<char> {
    s.chars().collect()
}

fn string_of(v: &Vec<char>) -> String {
    v.iter().collect()
}

fn editor_with_lines(lines: &[&str]) -> Editor {
    let mut e = Editor::new((80, 24));
    default_keybinds(&mut e.keymap);
    e.buffer = lines.iter().map(|l| chars(l)).collect();
    e
}

fn type_command(e: &mut Editor, text: &str) -> (Vec<IoRequest>, bool) {
    e.handle_key_event(key(':'));
    assert!(matches!(e.mode, Mode::COMMAND));
    for c in text.chars() {
        e.handle_key_event(key(c));
    }
    e.handle_key_event(code(KeyCode::Enter))
}

#[test]
fn parse_verbs() {
    assert!(matches!(parse_command(&chars("q")), Command::Quit));
    assert!(matches!(parse_command(&chars("  q  ")), Command::Quit));
    assert!(matches!(parse_command(&chars("quit")), Command::Other));
    assert!(matches!(parse_command(&chars("")), Command::Other));
    assert!(matches!(parse_command(&chars("   ")), Command::Other));
    match parse_command(&chars("e notes.txt")) {
        Command::Edit(Some(name)) => assert_eq!(string_of(&name), "notes.txt"),
        other => panic!("unexpected parse: {:?}", parse_tag(&other)),
    }
    assert!(matches!(parse_command(&chars("e")), Command::Edit(None)));
    assert!(matches!(parse_command(&chars("w")), Command::Write(None)));
    match parse_command(&chars("wq out.txt extra")) {
        Command::WriteQuit(Some(name)) => assert_eq!(string_of(&name), "out.txt"),
        other => panic!("unexpected parse: {:?}", parse_tag(&other)),
    }
}

fn parse_tag(c: &Command) -> &'static str {
    match c {
        Command::Quit => "quit",
        Command::Edit(_) => "edit",
        Command::Write(_) => "write",
        Command::WriteQuit(_) => "writequit",
        Command::Other => "other",
    }
}

#[test]
fn quit_command_stops() {
    let mut e = editor_with_lines(&["x"]);
    let (io, failed) = type_command(&mut e, "q");
    assert!(io.is_empty());
    assert!(!failed);
    assert!(e.stop);
    assert!(matches!(e.mode, Mode::NORMAL));
    assert!(e.command.is_empty());
}

#[test]
fn write_requests_save_with_joined_content() {
    let mut e = editor_with_lines(&["alpha", "beta"]);
    let (io, failed) = type_command(&mut e, "w out.txt");
    assert!(!failed);
    assert_eq!(io.len(), 1);
    match &io[0] {
        IoRequest::Save { filename, content, quit_after } => {
            assert_eq!(string_of(filename), "out.txt");
            assert_eq!(string_of(content), "alpha\nbeta");
            assert!(!quit_after);
        },
        _ => panic!("expected a save request"),
    }
    assert!(!e.stop);
    // The filename is only associated once the save is reported done.
    assert!(e.filename.is_none());
    e.save_done(chars("out.txt"), false);
    assert_eq!(string_of(e.filename.as_ref().unwrap()), "out.txt");
}

#[test]
fn write_quit_stops_after_save_done() {
    let mut e = editor_with_lines(&["alpha"]);
    let (io, failed) = type_command(&mut e, "wq out.txt");
    assert!(!failed);
    match &io[0] {
        IoRequest::Save { quit_after, .. } => assert!(*quit_after),
        _ => panic!("expected a save request"),
    }
    assert!(!e.stop);
    e.save_done(chars("out.txt"), true);
    assert!(e.stop);
}

#[test]
fn write_without_filename_raises_banner() {
    let mut e = editor_with_lines(&["alpha"]);
    let (io, failed) = type_command(&mut e, "w");
    assert!(failed);
    assert!(io.is_empty());
    assert_eq!(string_of(e.error.as_ref().unwrap()), "No filename specified");
    // The failure interrupts before the return to NORMAL mode.
    assert!(matches!(e.mode, Mode::COMMAND));
    // The traversal pointer still resets to the root.
    assert!(e.keymap.current.is_none());
}

#[test]
fn failed_submit_does_not_swallow_next_key() {
    // After a failed save the fired node is no longer pending, so the next
    // keystroke is ordinary command-line input, not a forced re-submit.
    let mut e = editor_with_lines(&["alpha"]);
    let (_, failed) = type_command(&mut e, "w");
    assert!(failed);
    assert!(matches!(e.mode, Mode::COMMAND));
    let (io, failed2) = e.handle_key_event(key('x'));
    assert!(io.is_empty());
    assert!(!failed2);
    assert!(matches!(e.mode, Mode::COMMAND));
    assert_eq!(string_of(&e.command), "x");
}

#[test]
fn write_falls_back_to_associated_filename() {
    let mut e = editor_with_lines(&["alpha"]);
    e.set_filename(chars("kept.txt"));
    let (io, failed) = type_command(&mut e, "w");
    assert!(!failed);
    match &io[0] {
        IoRequest::Save { filename, .. } => assert_eq!(string_of(filename), "kept.txt"),
        _ => panic!("expected a save request"),
    }
}

#[test]
fn edit_requests_load_and_associates_filename() {
    let mut e = editor_with_lines(&["old"]);
    let (io, failed) = type_command(&mut e, "e notes.txt");
    assert!(!failed);
    match &io[0] {
        IoRequest::Load { filename } => assert_eq!(string_of(filename), "notes.txt"),
        _ => panic!("expected a load request"),
    }
    assert_eq!(string_of(e.filename.as_ref().unwrap()), "notes.txt");
    // The surrounding program reads the file and reports the lines back.
    e.load_done(vec![chars("new one"), chars("new two")]);
    assert_eq!(e.buffer.len(), 2);
    assert_eq!(string_of(&e.buffer[0]), "new one");
}

#[test]
fn edit_without_filename_raises_banner() {
    let mut e = editor_with_lines(&["alpha"]);
    let (io, failed) = type_command(&mut e, "e");
    assert!(failed);
    assert!(io.is_empty());
    assert_eq!(string_of(e.error.as_ref().unwrap()), "No filename specified");
}

#[test]
fn empty_command_returns_to_normal() {
    let mut e = editor_with_lines(&["alpha"]);
    let (io, failed) = type_command(&mut e, "");
    assert!(io.is_empty());
    assert!(!failed);
    assert!(matches!(e.mode, Mode::NORMAL));
}

#[test]
fn command_backspace_edits_command_line() {
    let mut e = editor_with_lines(&["alpha"]);
    e.handle_key_event(key(':'));
    e.handle_key_event(key('w'));
    e.handle_key_event(key('x'));
    e.handle_key_event(code(KeyCode::Backspace));
    assert_eq!(string_of(&e.command), "w");
}

#[test]
fn load_done_of_nothing_keeps_one_line() {
    let mut e = editor_with_lines(&["a", "b", "c"]);
    e.display.cursor_move_y(2, &e.buffer, 0);
    e.load_done(Vec::new());
    assert_eq!(e.buffer.len(), 1);
    assert!(e.buffer[0].is_empty());
    // The cursor is clamped into the fresh buffer.
    assert_eq!(e.display.cursor.position.1, 0);
}
