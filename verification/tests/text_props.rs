use modal_edit::text::{join_lines, split_lines};

fn chars(s: &str) -> Vec<char> {
    s.chars().collect()
}

fn string_of(v: &Vec<char>) -> String {
    v.iter().collect()
}

#[test]
fn split_basic() {
    let lines = split_lines(&chars("alpha\nbeta\ngamma"));
    assert_eq!(lines.len(), 3);
    assert_eq!(string_of(&lines[0]), "alpha");
    assert_eq!(string_of(&lines[1]), "beta");
    assert_eq!(string_of(&lines[2]), "gamma");
}

#[test]
fn split_trailing_newline_terminates() {
    let lines = split_lines(&chars("alpha\nbeta\n"));
    assert_eq!(lines.len(), 2);
    assert_eq!(string_of(&lines[0]), "alpha");
    assert_eq!(string_of(&lines[1]), "beta");
}

#[test]
fn split_empty_document_gives_one_empty_line() {
    let lines = split_lines(&chars(""));
    assert_eq!(lines.len(), 1);
    assert!(lines[0].is_empty());
}

#[test]
fn split_lone_newline() {
    let lines = split_lines(&chars("\n"));
    assert_eq!(lines.len(), 1);
    assert!(lines[0].is_empty());
}

#[test]
fn split_blank_lines_kept() {
    let lines = split_lines(&chars("a\n\nb"));
    assert_eq!(lines.len(), 3);
    assert_eq!(string_of(&lines[0]), "a");
    assert_eq!(string_of(&lines[1]), "");
    assert_eq!(string_of(&lines[2]), "b");
}

#[test]
fn join_inserts_single_newlines() {
    let joined = join_lines(&vec![chars("a"), chars("b"), chars("")]);
    assert_eq!(string_of(&joined), "a\nb\n");
}

#[test]
fn round_trip_without_trailing_newline() {
    let doc = "first line\nsecond\n\nfourth";
    let joined = join_lines(&split_lines(&chars(doc)));
    assert_eq!(string_of(&joined), doc);
}

#[test]
fn round_trip_normalizes_trailing_newline() {
    let joined = join_lines(&split_lines(&chars("first\nsecond\n")));
    assert_eq!(string_of(&joined), "first\nsecond");
}

#[test]
fn round_trip_empty() {
    let joined = join_lines(&split_lines(&chars("")));
    assert_eq!(string_of(&joined), "");
}
