use modal_edit::keyparse::{parse_key_sequence, parse_modes};
use modal_edit::keys::{KeyCode, KeyInput, Mode};

fn chars(s: &str) -> Vec<char> {
    s.chars().collect()
}

fn plain(code: KeyCode) -> KeyInput {
    KeyInput { code, ctrl: false, alt: false, shift: false }
}

#[test]
fn modes_selector() {
    assert_eq!(
        parse_modes(&chars("nvci")),
        vec![Mode::NORMAL, Mode::VISUAL, Mode::COMMAND, Mode::INSERT]
    );
    assert_eq!(parse_modes(&chars("ic")), vec![Mode::INSERT, Mode::COMMAND]);
    // Unrecognized selector characters are ignored.
    assert_eq!(parse_modes(&chars("nxq!")), vec![Mode::NORMAL]);
    assert_eq!(parse_modes(&chars("")), Vec::<Mode>::new());
}

#[test]
fn literal_characters() {
    let keys = parse_key_sequence(&chars("gg")).unwrap();
    assert_eq!(keys, vec![plain(KeyCode::Char('g')), plain(KeyCode::Char('g'))]);
}

#[test]
fn named_keys() {
    assert_eq!(parse_key_sequence(&chars("<Esc>")).unwrap(), vec![plain(KeyCode::Esc)]);
    assert_eq!(parse_key_sequence(&chars("<CR>")).unwrap(), vec![plain(KeyCode::Enter)]);
    assert_eq!(parse_key_sequence(&chars("<Enter>")).unwrap(), vec![plain(KeyCode::Enter)]);
    assert_eq!(parse_key_sequence(&chars("<Return>")).unwrap(), vec![plain(KeyCode::Enter)]);
    assert_eq!(parse_key_sequence(&chars("<BS>")).unwrap(), vec![plain(KeyCode::Backspace)]);
    assert_eq!(
        parse_key_sequence(&chars("<Space>")).unwrap(),
        vec![plain(KeyCode::Char(' '))]
    );
    assert_eq!(parse_key_sequence(&chars("<PageDown>")).unwrap(), vec![plain(KeyCode::PageDown)]);
}

#[test]
fn modifier_prefixes() {
    let keys = parse_key_sequence(&chars("<C-w><C-q>")).unwrap();
    assert_eq!(keys.len(), 2);
    assert_eq!(keys[0].code, KeyCode::Char('w'));
    assert!(keys[0].ctrl && !keys[0].alt && !keys[0].shift);
    assert_eq!(keys[1].code, KeyCode::Char('q'));
    assert!(keys[1].ctrl);

    let alt = parse_key_sequence(&chars("<A-x>")).unwrap();
    assert!(alt[0].alt && !alt[0].ctrl);
    let shift = parse_key_sequence(&chars("<S-Tab>")).unwrap();
    assert!(shift[0].shift);
    assert_eq!(shift[0].code, KeyCode::Tab);
    // An unknown prefix letter leaves the chord unmodified.
    let odd = parse_key_sequence(&chars("<X-a>")).unwrap();
    assert!(!odd[0].ctrl && !odd[0].alt && !odd[0].shift);
    assert_eq!(odd[0].code, KeyCode::Char('a'));
}

#[test]
fn function_keys() {
    assert_eq!(parse_key_sequence(&chars("<F5>")).unwrap(), vec![plain(KeyCode::F(5))]);
    assert_eq!(parse_key_sequence(&chars("<F12>")).unwrap(), vec![plain(KeyCode::F(12))]);
    // Not a function-key number and not a single character: unrecognized.
    assert!(parse_key_sequence(&chars("<F999>")).is_none());
}

#[test]
fn unrecognized_name_fails_whole_sequence() {
    assert!(parse_key_sequence(&chars("a<Bogus>b")).is_none());
}

#[test]
fn mixed_sequence() {
    let keys = parse_key_sequence(&chars("a<C-b>c")).unwrap();
    assert_eq!(keys.len(), 3);
    assert_eq!(keys[0], plain(KeyCode::Char('a')));
    assert_eq!(keys[1].code, KeyCode::Char('b'));
    assert!(keys[1].ctrl);
    assert_eq!(keys[2], plain(KeyCode::Char('c')));
}
