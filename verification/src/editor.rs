//! The editor state and its dispatch core: the line buffer, mode, command
//! line, error banner and flags, the viewport, and the key-sequence trie.
//! Every state change is a function of the previous state and one input
//! event; the surrounding program only polls the terminal, performs requested
//! file I/O, and paints frames.

use vstd::prelude::*;

use crate::action::Action;
use crate::command::{command_of, parse_command, Command, CommandModel};
use crate::display::{
    cursor_in_bounds, display_wf, fixed_offset, moved_by, moved_x, moved_y, Cursor, Display,
};
use crate::keymap::{
    bound_action, pointed_action, pointer_is_leaf, traverse_step, Keymap, KeymapModel,
};
use crate::keys::{KeyCode, KeyInput, Mode};
use crate::text::line_join;

verus! {

/// A request the editor hands outward for file I/O it cannot perform itself:
/// load a file, or write content out (and quit afterwards, for `wq`).
pub enum IoRequest {
    Load { filename: Vec<char> },
    Save { filename: Vec<char>, content: Vec<char>, quit_after: bool },
}

/// The mathematical content of an I/O request.
#[verifier::ext_equal]
pub enum IoRequestModel {
    Load { filename: Seq<char> },
    Save { filename: Seq<char>, content: Seq<char>, quit_after: bool },
}

impl DeepView for IoRequest {
    type V = IoRequestModel;

    open spec fn deep_view(&self) -> IoRequestModel {
        match self {
            IoRequest::Load { filename } => IoRequestModel::Load { filename: filename@ },
            IoRequest::Save { filename, content, quit_after } => IoRequestModel::Save {
                filename: filename@,
                content: content@,
                quit_after: *quit_after,
            },
        }
    }
}

impl View for IoRequest {
    type V = IoRequestModel;

    open spec fn view(&self) -> IoRequestModel {
        self.deep_view()
    }
}

/// The editor: buffer, banner, command line, associated filename, flags,
/// mode, viewport, and the key-sequence trie with its transient state.
pub struct Editor {
    pub buffer: Vec<Vec<char>>,
    pub error: Option<Vec<char>>,
    pub command: Vec<char>,
    pub filename: Option<Vec<char>>,
    pub dirty: bool,
    pub stop: bool,
    pub mode: Mode,
    pub display: Display,
    pub keymap: Keymap,
}

/// The mathematical content of the whole editor state.
#[verifier::ext_equal]
pub struct EditorModel {
    pub buffer: Seq<Seq<char>>,
    pub error: Option<Seq<char>>,
    pub command: Seq<char>,
    pub filename: Option<Seq<char>>,
    pub dirty: bool,
    pub stop: bool,
    pub mode: Mode,
    pub display: Display,
    pub keymap: KeymapModel,
}

impl View for Editor {
    type V = EditorModel;

    open spec fn view(&self) -> EditorModel {
        EditorModel {
            buffer: self.buffer.deep_view(),
            error: match self.error {
                Some(e) => Some(e@),
                None => None,
            },
            command: self.command@,
            filename: match self.filename {
                Some(f) => Some(f@),
                None => None,
            },
            dirty: self.dirty,
            stop: self.stop,
            mode: self.mode,
            display: self.display,
            keymap: self.keymap@,
        }
    }
}

impl EditorModel {
    /// The editor's invariant over every reachable state: the buffer always
    /// holds at least one line, the cursor points at a row of the buffer and
    /// no further than one past the end of its line, the viewport has a
    /// usable window, and the trie is a well-formed forest.
    pub open spec fn inv(self) -> bool {
        &&& self.buffer.len() >= 1
        &&& cursor_in_bounds(self.display.cursor, self.buffer)
        &&& display_wf(self.display)
        &&& self.keymap.wf()
    }
}

/// How many `'\n'` characters a sequence holds.
pub open spec fn newline_count(s: Seq<char>) -> int
    decreases s.len(),
{
    if s.len() == 0 {
        0
    } else {
        (if s[0] == '\n' {
            1int
        } else {
            0
        }) + newline_count(s.drop_first())
    }
}

/// The screen rows not available for buffer text: one for the command prompt
/// in COMMAND mode plus one per extra banner line, capped at the window
/// height.
pub open spec fn reserved_rows_of(m: EditorModel) -> usize {
    let raw = (if m.mode == Mode::COMMAND {
        1int
    } else {
        0
    }) + (match m.error {
        Some(e) => newline_count(e),
        None => 0,
    });
    if raw > m.display.size.1 {
        m.display.size.1
    } else {
        raw as usize
    }
}

/// Counting newlines one character at a time from the front.
proof fn lemma_newline_count_snoc(s: Seq<char>, c: char)
    ensures
        newline_count(s + seq![c]) == newline_count(s) + (if c == '\n' {
            1int
        } else {
            0
        }),
    decreases s.len(),
{
    if s.len() == 0 {
        assert(s + seq![c] =~= seq![c]);
        assert((seq![c]).drop_first().len() == 0);
        assert(newline_count((seq![c]).drop_first()) == 0);
        assert((seq![c])[0] == c);
    } else {
        assert((s + seq![c])[0] == s[0]);
        assert((s + seq![c]).drop_first() =~= s.drop_first() + seq![c]);
        lemma_newline_count_snoc(s.drop_first(), c);
    }
}

/// A prefix never holds more newlines than the whole.
proof fn lemma_newline_count_le(s: Seq<char>, i: int)
    requires
        0 <= i <= s.len(),
    ensures
        newline_count(s.take(i)) <= newline_count(s),
        newline_count(s) >= 0,
    decreases s.len() - i,
{
    if i < s.len() {
        lemma_newline_count_snoc(s.take(i), s[i]);
        assert(s.take(i) + seq![s[i]] =~= s.take(i + 1));
        lemma_newline_count_le(s, i + 1);
    } else {
        assert(s.take(i) =~= s);
        lemma_newline_count_nonneg(s);
    }
}

/// Newline counts are never negative.
proof fn lemma_newline_count_nonneg(s: Seq<char>)
    ensures
        newline_count(s) >= 0,
    decreases s.len(),
{
    if s.len() > 0 {
        lemma_newline_count_nonneg(s.drop_first());
    }
}

/// The per-line views of the buffer agree with its deep view.
pub proof fn lemma_buffer_view(b: Vec<Vec<char>>)
    ensures
        b.deep_view().len() == b@.len(),
        forall|i: int| 0 <= i < b@.len() ==> b.deep_view()[i] == b@[i]@,
{
    assert forall|i: int| 0 <= i < b@.len() implies b.deep_view()[i] == b@[i]@ by {
        assert(b.deep_view()[i] =~= b@[i]@);
    }
}

/// The buffer after inserting one character at the cursor, with the cursor
/// advanced one column; typing retargets the sticky column.
pub open spec fn insert_char_m(m: EditorModel, c: char) -> EditorModel {
    let x = m.display.cursor.position.0;
    let y = m.display.cursor.position.1;
    let buf2 = m.buffer.update(y as int, m.buffer[y as int].insert(x as int, c));
    let d1 = Display { cursor: moved_by(m.display.cursor, 1, 0, buf2), ..m.display };
    let d2 = Display { offset: fixed_offset(d1, reserved_rows_of(m)), ..d1 };
    EditorModel { buffer: buf2, display: d2, ..m }
}

/// The buffer after splitting the cursor's line at the cursor column; the
/// cursor lands at column zero of the new next line.
pub open spec fn split_line_m(m: EditorModel) -> EditorModel {
    let x = m.display.cursor.position.0;
    let y = m.display.cursor.position.1;
    let head = m.buffer[y as int].take(x as int);
    let rest = m.buffer[y as int].skip(x as int);
    let buf2 = m.buffer.update(y as int, head).insert(y as int + 1, rest);
    let cur2 = Cursor { position: (0usize, (y + 1) as usize), max_column: 0usize };
    let d1 = Display { cursor: cur2, ..m.display };
    let d2 = Display { offset: fixed_offset(d1, reserved_rows_of(m)), ..d1 };
    EditorModel { buffer: buf2, display: d2, ..m }
}

/// The buffer after deleting at the cursor: the character under the cursor,
/// or, at end of line, the line break, joining the next line on. The cursor
/// does not move.
pub open spec fn delete_forward_m(m: EditorModel) -> EditorModel {
    let x = m.display.cursor.position.0;
    let y = m.display.cursor.position.1;
    if (x as int) < m.buffer[y as int].len() {
        EditorModel {
            buffer: m.buffer.update(y as int, m.buffer[y as int].remove(x as int)),
            ..m
        }
    } else if (y as int) + 1 < m.buffer.len() {
        EditorModel {
            buffer: m.buffer.update(y as int, m.buffer[y as int] + m.buffer[y as int + 1]).remove(
                y as int + 1,
            ),
            ..m
        }
    } else {
        m
    }
}

/// The buffer after deleting before the cursor: the character left of it,
/// or, at column zero, the line break before it, joining this line onto the
/// previous one with the cursor at the join point.
pub open spec fn backspace_m(m: EditorModel) -> EditorModel {
    let x = m.display.cursor.position.0;
    let y = m.display.cursor.position.1;
    if x > 0 {
        let buf2 = m.buffer.update(y as int, m.buffer[y as int].remove(x as int - 1));
        let d1 = Display { cursor: moved_by(m.display.cursor, -1, 0, buf2), ..m.display };
        let d2 = Display { offset: fixed_offset(d1, reserved_rows_of(m)), ..d1 };
        EditorModel { buffer: buf2, display: d2, ..m }
    } else if y > 0 {
        let prev_len = m.buffer[y as int - 1].len();
        let buf2 = m.buffer.update(
            y as int - 1,
            m.buffer[y as int - 1] + m.buffer[y as int],
        ).remove(y as int);
        let cur2 = Cursor {
            position: (prev_len as usize, (y - 1) as usize),
            max_column: prev_len as usize,
        };
        let d1 = Display { cursor: cur2, ..m.display };
        let d2 = Display { offset: fixed_offset(d1, reserved_rows_of(m)), ..d1 };
        EditorModel { buffer: buf2, display: d2, ..m }
    } else {
        m
    }
}

/// What the mode-specific fallback does with an event no binding resolved:
/// COMMAND edits the command line, INSERT edits the buffer, NORMAL and
/// VISUAL drop the event.
#[verifier::opaque]
pub open spec fn fallback_step_m(m: EditorModel, ev: KeyInput) -> EditorModel {
    match m.mode {
        Mode::COMMAND => match ev.code {
            KeyCode::Char(c) => EditorModel { command: m.command.push(c), ..m },
            KeyCode::Backspace => EditorModel {
                command: if m.command.len() > 0 {
                    m.command.drop_last()
                } else {
                    m.command
                },
                ..m
            },
            _ => m,
        },
        Mode::INSERT => match ev.code {
            KeyCode::Char(c) => insert_char_m(m, c),
            KeyCode::Enter => split_line_m(m),
            KeyCode::Delete => delete_forward_m(m),
            KeyCode::Backspace => backspace_m(m),
            _ => m,
        },
        _ => m,
    }
}

impl Editor {
    /// A fresh editor over a terminal of the given size: one empty line, no
    /// banner, no command, no filename, NORMAL mode, nothing bound yet, and
    /// a first paint pending.
    pub fn new(size: (usize, usize)) -> (r: Editor)
        requires
            size.0 >= 1,
            size.1 >= 1,
        ensures
            r@.inv(),
            r@.buffer == seq![Seq::<char>::empty()],
            r@.error is None,
            r@.command == Seq::<char>::empty(),
            r@.filename is None,
            r@.dirty == true,
            r@.stop == false,
            r@.mode == Mode::NORMAL,
            r@.display == (Display {
                size,
                offset: (0usize, 0usize),
                cursor: Cursor { position: (0usize, 0usize), max_column: 0usize },
            }),
            r@.keymap.current is None,
            r@.keymap.prefix is None,
            forall|m: Mode, s: Seq<KeyInput>| #[trigger] bound_action(r@.keymap.nodes, m, s) is None,
    {
        let mut buffer: Vec<Vec<char>> = Vec::new();
        buffer.push(Vec::new());
        let r = Editor {
            buffer,
            error: None,
            command: Vec::new(),
            filename: None,
            dirty: true,
            stop: false,
            mode: Mode::NORMAL,
            display: Display::new(size),
            keymap: Keymap::new(),
        };
        proof {
            lemma_buffer_view(r.buffer);
            assert(r@.buffer =~~= seq![Seq::<char>::empty()]);
        }
        r
    }

    /// Routes an event no binding resolved to the mode-specific fallback
    /// editing handler, exactly `fallback_step_m`.
    pub fn handle_unresolved_key_event(&mut self, unresolved: KeyInput)
        requires
            old(self)@.inv(),
        ensures
            final(self)@ == fallback_step_m(old(self)@, unresolved),
            final(self)@.inv(),
    {
        proof {
            reveal(fallback_step_m);
        }
        let reserved = self.reserved_rows();
        proof {
            lemma_buffer_view(self.buffer);
        }
        match self.mode {
            Mode::COMMAND => {
                match unresolved.code {
                    KeyCode::Char(c) => {
                        self.command.push(c);
                    },
                    KeyCode::Backspace => {
                        self.command.pop();
                    },
                    _ => {},
                }
                proof {
                    assert(final(self)@ =~~= fallback_step_m(old(self)@, unresolved));
                }
            },
            Mode::INSERT => {
                match unresolved.code {
                    KeyCode::Char(c) => {
                        let (x, y) = self.display.cursor.position;
                        let line = &mut self.buffer[y];
                        line.insert(x, c);
                        proof {
                            lemma_buffer_view(self.buffer);
                            assert(self@.buffer =~~= insert_char_m(old(self)@, c).buffer);
                        }
                        self.display.cursor_move_by((1, 0), &self.buffer, reserved);
                        proof {
                            assert(final(self)@ =~~= fallback_step_m(old(self)@, unresolved));
                        }
                    },
                    KeyCode::Enter => {
                        let (x, y) = self.display.cursor.position;
                        let blen = self.buffer.len();
                        let line = &mut self.buffer[y];
                        let rest = line.split_off(x);
                        proof {
                            lemma_buffer_view(self.buffer);
                        }
                        self.buffer.insert(y + 1, rest);
                        proof {
                            lemma_buffer_view(self.buffer);
                            assert(self@.buffer =~~= split_line_m(old(self)@).buffer);
                        }
                        self.display.cursor.position = (0, y + 1);
                        self.display.cursor.max_column = 0;
                        self.display.validate_offset(reserved);
                        proof {
                            assert(final(self)@ =~~= fallback_step_m(old(self)@, unresolved));
                        }
                    },
                    KeyCode::Delete => {
                        let (x, y) = self.display.cursor.position;
                        let line_len = self.buffer[y].len();
                        if x < line_len {
                            let line = &mut self.buffer[y];
                            line.remove(x);
                            proof {
                                lemma_buffer_view(self.buffer);
                                assert(final(self)@ =~~= fallback_step_m(old(self)@, unresolved));
                            }
                        } else if y < self.buffer.len() - 1 {
                            let mut next_line = self.buffer.remove(y + 1);
                            proof {
                                lemma_buffer_view(self.buffer);
                            }
                            let line = &mut self.buffer[y];
                            line.append(&mut next_line);
                            proof {
                                lemma_buffer_view(self.buffer);
                                assert(final(self)@ =~~= fallback_step_m(old(self)@, unresolved));
                            }
                        } else {
                            proof {
                                assert(final(self)@ =~~= fallback_step_m(old(self)@, unresolved));
                            }
                        }
                    },
                    KeyCode::Backspace => {
                        let (x, y) = self.display.cursor.position;
                        if x > 0 {
                            let line = &mut self.buffer[y];
                            line.remove(x - 1);
                            proof {
                                lemma_buffer_view(self.buffer);
                                assert(self@.buffer =~~= backspace_m(old(self)@).buffer);
                            }
                            self.display.cursor_move_by((-1, 0), &self.buffer, reserved);
                            proof {
                                assert(final(self)@ =~~= fallback_step_m(old(self)@, unresolved));
                            }
                        } else if y > 0 {
                            let mut cur_line = self.buffer.remove(y);
                            proof {
                                lemma_buffer_view(self.buffer);
                            }
                            let prev_len = self.buffer[y - 1].len();
                            let prev = &mut self.buffer[y - 1];
                            prev.append(&mut cur_line);
                            proof {
                                lemma_buffer_view(self.buffer);
                                assert(self@.buffer =~~= backspace_m(old(self)@).buffer);
                            }
                            self.display.cursor.position = (prev_len, y - 1);
                            self.display.cursor.max_column = prev_len;
                            self.display.validate_offset(reserved);
                            proof {
                                assert(final(self)@ =~~= fallback_step_m(old(self)@, unresolved));
                            }
                        } else {
                            proof {
                                assert(final(self)@ =~~= fallback_step_m(old(self)@, unresolved));
                            }
                        }
                    },
                    _ => {
                        proof {
                            assert(final(self)@ =~~= fallback_step_m(old(self)@, unresolved));
                        }
                    },
                }
            },
            _ => {
                proof {
                    assert(final(self)@ =~~= fallback_step_m(old(self)@, unresolved));
                }
            },
        }
    }

    /// Replaces the buffer with freshly loaded lines; an empty load still
    /// leaves one empty line. The cursor is clamped into the new buffer and
    /// the next paint is requested.
    pub fn load_done(&mut self, lines: Vec<Vec<char>>)
        requires
            old(self)@.inv(),
        ensures
            final(self)@.inv(),
            final(self)@.buffer == (if lines.deep_view().len() == 0 {
                seq![Seq::<char>::empty()]
            } else {
                lines.deep_view()
            }),
            final(self)@.display.cursor == crate::display::clamped(
                old(self)@.display.cursor,
                final(self)@.buffer,
            ),
            final(self)@.display.offset == fixed_offset(
                Display { cursor: final(self)@.display.cursor, ..old(self)@.display },
                reserved_rows_of(
                    EditorModel { buffer: final(self)@.buffer, ..old(self)@ },
                ),
            ),
            final(self)@.dirty == true,
            final(self)@ == (EditorModel {
                buffer: final(self)@.buffer,
                display: final(self)@.display,
                dirty: true,
                ..old(self)@
            }),
    {
        let mut lines = lines;
        if lines.len() == 0 {
            lines.push(Vec::new());
            proof {
                lemma_buffer_view(lines);
            }
        }
        self.buffer = lines;
        proof {
            lemma_buffer_view(self.buffer);
            if lines.deep_view().len() == 0 {
                assert(self@.buffer =~~= seq![Seq::<char>::empty()]);
            }
        }
        let reserved = self.reserved_rows();
        self.display.cursor.validate_cursor(&self.buffer);
        self.display.validate_offset(reserved);
        self.dirty = true;
    }

    /// Records the filename the buffer is associated with.
    pub fn set_filename(&mut self, filename: Vec<char>)
        ensures
            final(self)@ == (EditorModel { filename: Some(filename@), ..old(self)@ }),
    {
        self.filename = Some(filename);
    }

    /// Records a completed save: the filename becomes the associated one,
    /// and a save-and-quit stops the editor.
    pub fn save_done(&mut self, filename: Vec<char>, quit_after: bool)
        ensures
            final(self)@ == (EditorModel {
                filename: Some(filename@),
                stop: old(self)@.stop || quit_after,
                dirty: true,
                ..old(self)@
            }),
    {
        self.filename = Some(filename);
        if quit_after {
            self.stop = true;
        }
        self.dirty = true;
    }

    /// Surfaces a failed I/O attempt on the error banner; editing continues.
    pub fn io_failed(&mut self, message: Vec<char>)
        ensures
            final(self)@ == (EditorModel {
                error: Some(message@),
                dirty: true,
                ..old(self)@
            }),
    {
        self.error = Some(message);
        self.dirty = true;
    }

    /// Applies one action to the editor, exactly `apply_action_m`: the
    /// returned request asks the surrounding program for file I/O, and the
    /// flag reports a failed action (a missing filename), already surfaced
    /// on the banner.
    pub fn apply_action(&mut self, a: Action) -> (r: (Option<IoRequest>, bool))
        requires
            old(self)@.inv(),
        ensures
            final(self)@ == apply_action_m(old(self)@, a).0,
            opt_req_view(r.0) == apply_action_m(old(self)@, a).1,
            r.1 == apply_action_m(old(self)@, a).2,
            r.1 ==> r.0 is None,
            final(self)@.inv(),
    {
        proof {
            reveal(submit_command_m);
        }
        let reserved = self.reserved_rows();
        proof {
            lemma_buffer_view(self.buffer);
        }
        match a {
            Action::MoveBy(dx, dy) => {
                self.display.cursor_move_by((dx, dy), &self.buffer, reserved);
                (None, false)
            },
            Action::MoveToLineEnd => {
                let y = self.display.cursor.position.1;
                let len = self.buffer[y].len();
                let target: usize = if len >= 1 {
                    len - 1
                } else {
                    0
                };
                self.display.cursor_move_x(target, &self.buffer, reserved);
                (None, false)
            },
            Action::MoveToFirstNonBlank => {
                let y = self.display.cursor.position.1;
                let line = &self.buffer[y];
                let mut i: usize = 0;
                let mut found: Option<usize> = None;
                while i < line.len() && found.is_none()
                    invariant
                        i <= line@.len(),
                        found is None ==> forall|j: int|
                            0 <= j < i ==> crate::command::is_blank(line@[j]),
                        found matches Some(t) ==> (t as int) < line@.len()
                            && !crate::command::is_blank(line@[t as int]) && forall|j: int|
                            0 <= j < t ==> crate::command::is_blank(line@[j]),
                    decreases line@.len() - i,
                {
                    let c = line[i];
                    if !(c == ' ' || c == '\t') {
                        found = Some(i);
                    }
                    i += 1;
                }
                proof {
                    match found {
                        Some(t) => {
                            lemma_first_non_blank_at(line@, t as int);
                        },
                        None => {
                            lemma_first_non_blank_none(line@);
                        },
                    }
                }
                match found {
                    Some(t) => {
                        self.display.cursor_move_x(t, &self.buffer, reserved);
                        (None, false)
                    },
                    None => (None, false),
                }
            },
            Action::MoveToTop => {
                self.display.cursor_move_y(0, &self.buffer, reserved);
                (None, false)
            },
            Action::MoveToBottom => {
                let len = self.buffer.len();
                self.display.cursor_move_y(len, &self.buffer, reserved);
                (None, false)
            },
            Action::OpenBelow => {
                let y = self.display.cursor.position.1;
                let blen = self.buffer.len();
                self.buffer.insert(y + 1, Vec::new());
                proof {
                    lemma_buffer_view(self.buffer);
                    assert(self@.buffer =~~= old(self)@.buffer.insert(
                        y as int + 1,
                        Seq::<char>::empty(),
                    ));
                }
                self.display.cursor_move_by((0, 1), &self.buffer, reserved);
                self.mode = Mode::INSERT;
                proof {
                    assert(final(self)@ =~~= apply_action_m(old(self)@, a).0);
                }
                (None, false)
            },
            Action::OpenAbove => {
                let y = self.display.cursor.position.1;
                self.buffer.insert(y, Vec::new());
                proof {
                    lemma_buffer_view(self.buffer);
                    assert(self@.buffer =~~= old(self)@.buffer.insert(
                        y as int,
                        Seq::<char>::empty(),
                    ));
                }
                self.display.cursor_move_by((0, 0), &self.buffer, reserved);
                self.mode = Mode::INSERT;
                proof {
                    assert(final(self)@ =~~= apply_action_m(old(self)@, a).0);
                }
                (None, false)
            },
            Action::EnterInsert => {
                self.mode = Mode::INSERT;
                (None, false)
            },
            Action::EnterCommand => {
                self.mode = Mode::COMMAND;
                (None, false)
            },
            Action::EscapeToNormal => {
                self.mode = Mode::NORMAL;
                self.command.clear();
                (None, false)
            },
            Action::AcknowledgeError => {
                self.error = None;
                (None, false)
            },
            Action::Quit => {
                self.stop = true;
                (None, false)
            },
            Action::SubmitCommand => {
                if self.command.len() == 0 {
                    self.mode = Mode::NORMAL;
                    return (None, false);
                }
                let mut cmd: Vec<char> = Vec::new();
                core::mem::swap(&mut cmd, &mut self.command);
                let parsed = parse_command(&cmd);
                match parsed {
                    Command::Quit => {
                        self.stop = true;
                        self.mode = Mode::NORMAL;
                        (None, false)
                    },
                    Command::Edit(arg) => match arg {
                        Some(name) => {
                            let mut request_name: Vec<char> = Vec::new();
                            let mut own_name: Vec<char> = Vec::new();
                            copy_chars(&name, &mut request_name);
                            copy_chars(&name, &mut own_name);
                            self.filename = Some(own_name);
                            self.mode = Mode::NORMAL;
                            (Some(IoRequest::Load { filename: request_name }), false)
                        },
                        None => {
                            self.error = Some(no_filename_message());
                            (None, true)
                        },
                    },
                    Command::Write(arg) => {
                        let target: Option<Vec<char>> = match arg {
                            Some(name) => Some(name),
                            None => match &self.filename {
                                Some(f) => {
                                    let mut copy: Vec<char> = Vec::new();
                                    copy_chars(f, &mut copy);
                                    Some(copy)
                                },
                                None => None,
                            },
                        };
                        match target {
                            Some(name) => {
                                let content = crate::text::join_lines(&self.buffer);
                                self.mode = Mode::NORMAL;
                                (
                                    Some(
                                        IoRequest::Save {
                                            filename: name,
                                            content,
                                            quit_after: false,
                                        },
                                    ),
                                    false,
                                )
                            },
                            None => {
                                self.error = Some(no_filename_message());
                                (None, true)
                            },
                        }
                    },
                    Command::WriteQuit(arg) => {
                        let target: Option<Vec<char>> = match arg {
                            Some(name) => Some(name),
                            None => match &self.filename {
                                Some(f) => {
                                    let mut copy: Vec<char> = Vec::new();
                                    copy_chars(f, &mut copy);
                                    Some(copy)
                                },
                                None => None,
                            },
                        };
                        match target {
                            Some(name) => {
                                let content = crate::text::join_lines(&self.buffer);
                                self.mode = Mode::NORMAL;
                                (
                                    Some(
                                        IoRequest::Save {
                                            filename: name,
                                            content,
                                            quit_after: true,
                                        },
                                    ),
                                    false,
                                )
                            },
                            None => {
                                self.error = Some(no_filename_message());
                                (None, true)
                            },
                        }
                    },
                    Command::Other => {
                        self.mode = Mode::NORMAL;
                        (None, false)
                    },
                }
            },
        }
    }

    /// Fires the pending node, exactly `execute_clear_m`: its action, if
    /// any, runs as many times as the consumed repeat prefix says (default
    /// one), and the traversal pointer resets to the root regardless of
    /// whether an action existed or a repetition failed.
    pub fn execute_keymap_action(&mut self) -> (r: (Vec<IoRequest>, bool))
        requires
            old(self)@.inv(),
        ensures
            final(self)@ == execute_clear_m(old(self)@).0,
            r.0.deep_view() == execute_clear_m(old(self)@).1,
            r.1 == execute_clear_m(old(self)@).2,
            final(self)@.inv(),
    {
        let action = self.keymap.get_action();
        match action {
            Some(a) => {
                let n = self.keymap.repeats();
                let ghost m1 = self@;
                let ghost target = iter_apply_m(m1, a, n as nat);
                proof {
                    assert(m1 =~~= (EditorModel {
                        keymap: KeymapModel { prefix: None, ..old(self)@.keymap },
                        ..old(self)@
                    }));
                }
                let mut ios: Vec<IoRequest> = Vec::new();
                let mut failed = false;
                let mut i: usize = 0;
                proof {
                    lemma_reqs_view(ios);
                    assert(ios.deep_view() =~~= Seq::<IoRequestModel>::empty());
                    let rest = iter_apply_m(self@, a, (n - i) as nat);
                    assert(ios.deep_view() + rest.1 =~~= rest.1);
                }
                while i < n && !failed
                    invariant
                        self@.inv(),
                        i <= n,
                        target == iter_apply_m(m1, a, n as nat),
                        !failed ==> ({
                            let rest = iter_apply_m(self@, a, (n - i) as nat);
                            target == (rest.0, ios.deep_view() + rest.1, rest.2)
                        }),
                        failed ==> target == (self@, ios.deep_view(), true),
                    decreases n - i,
                {
                    let ghost cur = self@;
                    let ghost ios_before = ios.deep_view();
                    let step = self.apply_action(a);
                    proof {
                        assert(iter_apply_m(cur, a, (n - i) as nat) == ({
                            let s = apply_action_m(cur, a);
                            if s.2 {
                                (s.0, req_seq(s.1), true)
                            } else {
                                let rest = iter_apply_m(s.0, a, (n - i - 1) as nat);
                                (rest.0, req_seq(s.1) + rest.1, rest.2)
                            }
                        }));
                    }
                    match step.0 {
                        Some(q) => {
                            ios.push(q);
                            proof {
                                lemma_reqs_view(ios);
                                assert(ios.deep_view() =~~= ios_before + req_seq(
                                    opt_req_view(Some(q)),
                                ));
                            }
                        },
                        None => {
                            proof {
                                assert(ios.deep_view() =~~= ios_before + req_seq(None));
                            }
                        },
                    }
                    if step.1 {
                        failed = true;
                        proof {
                            let s = apply_action_m(cur, a);
                            assert(target == (s.0, ios_before + req_seq(s.1), true));
                            assert(ios_before + req_seq(s.1) =~~= ios.deep_view());
                        }
                    } else {
                        proof {
                            let s = apply_action_m(cur, a);
                            let rest = iter_apply_m(s.0, a, (n - i - 1) as nat);
                            assert(ios_before + (req_seq(s.1) + rest.1) =~~= ios.deep_view()
                                + rest.1);
                        }
                    }
                    i += 1;
                }
                proof {
                    if !failed {
                        let rest = iter_apply_m(self@, a, (n - i) as nat);
                        assert(rest == (self@, Seq::<IoRequestModel>::empty(), false));
                        assert(ios.deep_view() + rest.1 =~~= ios.deep_view());
                    }
                }
                self.keymap.clear();
                proof {
                    assert(final(self)@ =~~= execute_clear_m(old(self)@).0);
                }
                (ios, failed)
            },
            None => {
                self.keymap.clear();
                let r: Vec<IoRequest> = Vec::new();
                proof {
                    lemma_reqs_view(r);
                    assert(r.deep_view() =~~= Seq::<IoRequestModel>::empty());
                    assert(final(self)@ =~~= execute_clear_m(old(self)@).0);
                }
                (r, false)
            },
        }
    }

    /// The timeout check, exactly `on_tick_m`: run once per loop iteration
    /// with the milliseconds since the last consumed key; after more than a
    /// second with a sequence pending, the stale node is force-resolved. A
    /// reported failure is already on the banner; processing goes on.
    pub fn handle_tick(&mut self, millis_since_last_key: u64) -> (r: (Vec<IoRequest>, bool))
        requires
            old(self)@.inv(),
        ensures
            final(self)@ == on_tick_m(old(self)@, millis_since_last_key).0,
            r.0.deep_view() == on_tick_m(old(self)@, millis_since_last_key).1,
            r.1 == on_tick_m(old(self)@, millis_since_last_key).2,
            final(self)@.inv(),
    {
        if millis_since_last_key > 1000 && !self.keymap.is_empty() {
            let run = self.execute_keymap_action();
            self.dirty = true;
            proof {
                assert(final(self)@ =~~= on_tick_m(old(self)@, millis_since_last_key).0);
            }
            run
        } else {
            let r: Vec<IoRequest> = Vec::new();
            proof {
                lemma_reqs_view(r);
                assert(r.deep_view() =~~= Seq::<IoRequestModel>::empty());
            }
            (r, false)
        }
    }

    /// Resolves one drained event, exactly `on_key_m`: traverse from the
    /// pending node or the mode root; on a dead end force-resolve the
    /// pending node and reinterpret the same event from the now-reset root;
    /// fire a leaf at once; hand what is left to the mode fallback unless
    /// Control or Alt is held. A failed action lands on the banner and never
    /// cuts resolution short. The caller repaints and resets its key timer.
    #[verifier::rlimit(100)]
    pub fn handle_key_event(&mut self, event: KeyInput) -> (r: (Vec<IoRequest>, bool))
        requires
            old(self)@.inv(),
        ensures
            final(self)@ == on_key_m(old(self)@, event).0,
            r.0.deep_view() == on_key_m(old(self)@, event).1,
            r.1 == on_key_m(old(self)@, event).2,
            final(self)@.inv(),
    {
        let mut unresolved = self.keymap.traverse(&self.mode, event);
        proof {
            assert(self@ =~~= (EditorModel {
                keymap: traverse_step(old(self)@.keymap, old(self)@.mode, event).0,
                ..old(self)@
            }));
        }
        let mut ios: Vec<IoRequest> = Vec::new();
        let mut failed = false;
        proof {
            lemma_reqs_view(ios);
            assert(ios.deep_view() =~~= Seq::<IoRequestModel>::empty());
        }
        if unresolved.is_some() {
            let ghost m1 = self@;
            let (mut ios1, f1) = self.execute_keymap_action();
            ios.append(&mut ios1);
            failed = f1;
            proof {
                lemma_reqs_view(ios);
                assert(ios.deep_view() =~~= execute_clear_m(m1).1);
            }
            unresolved = self.keymap.traverse(&self.mode, event);
            proof {
                let flushed = execute_clear_m(m1);
                assert(self@ =~~= (EditorModel {
                    keymap: traverse_step(flushed.0.keymap, flushed.0.mode, event).0,
                    ..flushed.0
                }));
            }
        }
        let ghost m3 = self@;
        let ghost ios_tail_base = ios.deep_view();
        let ghost failed_base = failed;
        if self.keymap.is_leaf() {
            let ghost before_fire = self@;
            let (mut ios2, f2) = self.execute_keymap_action();
            ios.append(&mut ios2);
            if f2 {
                failed = true;
            }
            proof {
                lemma_reqs_view(ios);
                assert(ios.deep_view() =~~= ios_tail_base + execute_clear_m(before_fire).1);
            }
        } else {
            proof {
                assert(ios.deep_view() =~~= ios_tail_base);
            }
        }
        match unresolved {
            Some(u) => {
                if !u.ctrl && !u.alt {
                    self.handle_unresolved_key_event(u);
                }
            },
            None => {},
        }
        self.dirty = true;
        proof {
            assert(final(self)@ =~~= on_key_m(old(self)@, event).0);
            assert(ios.deep_view() =~~= on_key_m(old(self)@, event).1);
            assert(failed == on_key_m(old(self)@, event).2);
        }
        (ios, failed)
    }

    /// The screen rows reserved for the command prompt and the error banner,
    /// capped at the window height.
    pub(crate) fn reserved_rows(&self) -> (r: usize)
        ensures
            r == reserved_rows_of(self@),
            r <= self@.display.size.1,
    {
        let cap = self.display.size.1;
        let base: usize = if self.mode == Mode::COMMAND {
            1
        } else {
            0
        };
        let mut n: usize = base;
        if n > cap {
            n = cap;
        }
        match &self.error {
            Some(e) => {
                let ghost whole = (if self@.mode == Mode::COMMAND {
                    1int
                } else {
                    0
                }) + newline_count(e@);
                let mut j: usize = 0;
                proof {
                    assert(e@.take(0) =~= Seq::<char>::empty());
                    lemma_newline_count_le(e@, 0);
                }
                while j < e.len() && n < cap
                    invariant
                        j <= e@.len(),
                        cap == self@.display.size.1,
                        base == (if self@.mode == Mode::COMMAND {
                            1int
                        } else {
                            0
                        }),
                        whole == base + newline_count(e@),
                        n <= cap,
                        (base + newline_count(e@.take(j as int)) >= cap) ==> n == cap,
                        (base + newline_count(e@.take(j as int)) < cap) ==> n == base
                            + newline_count(e@.take(j as int)),
                    decreases e@.len() - j,
                {
                    proof {
                        lemma_newline_count_snoc(e@.take(j as int), e@[j as int]);
                        assert(e@.take(j as int) + seq![e@[j as int]] =~= e@.take(j as int + 1));
                        lemma_newline_count_nonneg(e@.take(j as int));
                    }
                    if e[j] == '\n' {
                        if n < cap {
                            n = n + 1;
                        }
                    }
                    j += 1;
                }
                proof {
                    assert(e@.take(e@.len() as int) =~= e@);
                    if j < e@.len() {
                        // Stopped early: the cap was reached.
                        lemma_newline_count_le(e@, j as int);
                        lemma_take_newline_mono(e@, j as int);
                    }
                }
                n
            },
            None => n,
        }
    }
}

/// The message surfaced when a save or load has no filename to go to.
pub open spec fn no_filename_msg() -> Seq<char> {
    seq![
        'N',
        'o',
        ' ',
        'f',
        'i',
        'l',
        'e',
        'n',
        'a',
        'm',
        'e',
        ' ',
        's',
        'p',
        'e',
        'c',
        'i',
        'f',
        'i',
        'e',
        'd',
    ]
}

/// Builds the missing-filename banner text, pinned to `no_filename_msg`.
fn no_filename_message() -> (r: Vec<char>)
    ensures
        r@ == no_filename_msg(),
{
    let mut r: Vec<char> = Vec::new();
    r.push('N');
    r.push('o');
    r.push(' ');
    r.push('f');
    r.push('i');
    r.push('l');
    r.push('e');
    r.push('n');
    r.push('a');
    r.push('m');
    r.push('e');
    r.push(' ');
    r.push('s');
    r.push('p');
    r.push('e');
    r.push('c');
    r.push('i');
    r.push('f');
    r.push('i');
    r.push('e');
    r.push('d');
    proof {
        assert(r@ =~= no_filename_msg());
    }
    r
}

/// The column of the first non-blank character of a line, if any.
pub open spec fn first_non_blank(s: Seq<char>) -> Option<int>
    decreases s.len(),
{
    if s.len() == 0 {
        None
    } else if !crate::command::is_blank(s[0]) {
        Some(0)
    } else {
        match first_non_blank(s.drop_first()) {
            Some(i) => Some(i + 1),
            None => None,
        }
    }
}

/// A scan that stops at the first non-blank finds `first_non_blank`.
proof fn lemma_first_non_blank_at(s: Seq<char>, i: int)
    requires
        0 <= i < s.len(),
        forall|j: int| 0 <= j < i ==> crate::command::is_blank(s[j]),
        !crate::command::is_blank(s[i]),
    ensures
        first_non_blank(s) == Some(i),
    decreases i,
{
    if i > 0 {
        lemma_first_non_blank_at(s.drop_first(), i - 1);
    }
}

/// A line of blanks has no non-blank column.
proof fn lemma_first_non_blank_none(s: Seq<char>)
    requires
        forall|j: int| 0 <= j < s.len() ==> crate::command::is_blank(s[j]),
    ensures
        first_non_blank(s) is None,
    decreases s.len(),
{
    if s.len() > 0 {
        lemma_first_non_blank_none(s.drop_first());
    }
}

/// The editor with its cursor replaced and the viewport rescrolled to keep
/// it in view.
pub open spec fn with_cursor_m(m: EditorModel, cur2: Cursor) -> EditorModel {
    let d1 = Display { cursor: cur2, ..m.display };
    let d2 = Display { offset: fixed_offset(d1, reserved_rows_of(m)), ..d1 };
    EditorModel { display: d2, ..m }
}

/// What running the typed command line does: `q` stops, `e` asks for a load,
/// `w`/`wq` ask for a save of the joined buffer, a missing filename raises
/// the banner, anything else is ignored; the command line is consumed and,
/// except on a missing filename, the editor returns to NORMAL mode.
#[verifier::opaque]
pub open spec fn submit_command_m(m: EditorModel) -> (EditorModel, Option<IoRequestModel>, bool) {
    if m.command.len() == 0 {
        (EditorModel { mode: Mode::NORMAL, ..m }, None, false)
    } else {
        let m0 = EditorModel { command: Seq::<char>::empty(), ..m };
        match command_of(m.command) {
            CommandModel::Quit => (
                EditorModel { stop: true, mode: Mode::NORMAL, ..m0 },
                None,
                false,
            ),
            CommandModel::Edit(arg) => match arg {
                Some(name) => (
                    EditorModel { filename: Some(name), mode: Mode::NORMAL, ..m0 },
                    Some(IoRequestModel::Load { filename: name }),
                    false,
                ),
                None => (EditorModel { error: Some(no_filename_msg()), ..m0 }, None, true),
            },
            CommandModel::Write(arg) => {
                let target = if arg is Some {
                    arg
                } else {
                    m.filename
                };
                match target {
                    Some(name) => (
                        EditorModel { mode: Mode::NORMAL, ..m0 },
                        Some(
                            IoRequestModel::Save {
                                filename: name,
                                content: line_join(m.buffer),
                                quit_after: false,
                            },
                        ),
                        false,
                    ),
                    None => (EditorModel { error: Some(no_filename_msg()), ..m0 }, None, true),
                }
            },
            CommandModel::WriteQuit(arg) => {
                let target = if arg is Some {
                    arg
                } else {
                    m.filename
                };
                match target {
                    Some(name) => (
                        EditorModel { mode: Mode::NORMAL, ..m0 },
                        Some(
                            IoRequestModel::Save {
                                filename: name,
                                content: line_join(m.buffer),
                                quit_after: true,
                            },
                        ),
                        false,
                    ),
                    None => (EditorModel { error: Some(no_filename_msg()), ..m0 }, None, true),
                }
            },
            CommandModel::Other => (EditorModel { mode: Mode::NORMAL, ..m0 }, None, false),
        }
    }
}

/// What one application of an action does to the editor: the new state, the
/// file I/O it requests, and whether it failed.
pub open spec fn apply_action_m(m: EditorModel, a: Action) -> (EditorModel, Option<
    IoRequestModel,
>, bool) {
    match a {
        Action::MoveBy(dx, dy) => (
            with_cursor_m(m, moved_by(m.display.cursor, dx as int, dy as int, m.buffer)),
            None,
            false,
        ),
        Action::MoveToLineEnd => {
            let len = m.buffer[m.display.cursor.position.1 as int].len();
            let target = if len >= 1 {
                (len - 1) as usize
            } else {
                0usize
            };
            (with_cursor_m(m, moved_x(m.display.cursor, target, m.buffer)), None, false)
        },
        Action::MoveToFirstNonBlank => {
            match first_non_blank(m.buffer[m.display.cursor.position.1 as int]) {
                Some(i) => (
                    with_cursor_m(m, moved_x(m.display.cursor, i as usize, m.buffer)),
                    None,
                    false,
                ),
                None => (m, None, false),
            }
        },
        Action::MoveToTop => (
            with_cursor_m(m, moved_y(m.display.cursor, 0, m.buffer)),
            None,
            false,
        ),
        Action::MoveToBottom => (
            with_cursor_m(m, moved_y(m.display.cursor, m.buffer.len() as usize, m.buffer)),
            None,
            false,
        ),
        Action::OpenBelow => {
            let y = m.display.cursor.position.1;
            let buf2 = m.buffer.insert(y as int + 1, Seq::<char>::empty());
            let m1 = EditorModel { buffer: buf2, ..m };
            let m2 = with_cursor_m(m1, moved_by(m.display.cursor, 0, 1, buf2));
            (EditorModel { mode: Mode::INSERT, ..m2 }, None, false)
        },
        Action::OpenAbove => {
            let y = m.display.cursor.position.1;
            let buf2 = m.buffer.insert(y as int, Seq::<char>::empty());
            let m1 = EditorModel { buffer: buf2, ..m };
            let m2 = with_cursor_m(m1, moved_by(m.display.cursor, 0, 0, buf2));
            (EditorModel { mode: Mode::INSERT, ..m2 }, None, false)
        },
        Action::EnterInsert => (EditorModel { mode: Mode::INSERT, ..m }, None, false),
        Action::EnterCommand => (EditorModel { mode: Mode::COMMAND, ..m }, None, false),
        Action::EscapeToNormal => (
            EditorModel { mode: Mode::NORMAL, command: Seq::<char>::empty(), ..m },
            None,
            false,
        ),
        Action::AcknowledgeError => (EditorModel { error: None, ..m }, None, false),
        Action::SubmitCommand => submit_command_m(m),
        Action::Quit => (EditorModel { stop: true, ..m }, None, false),
    }
}

/// The view of an optional I/O request.
pub open spec fn opt_req_view(o: Option<IoRequest>) -> Option<IoRequestModel> {
    match o {
        Some(q) => Some(q.deep_view()),
        None => None,
    }
}

/// An optional request as a request sequence.
pub open spec fn req_seq(o: Option<IoRequestModel>) -> Seq<IoRequestModel> {
    match o {
        Some(q) => seq![q],
        None => Seq::<IoRequestModel>::empty(),
    }
}

/// Applying one action `n` times in order, collecting its I/O requests; a
/// failure stops the remaining repetitions.
pub open spec fn iter_apply_m(m: EditorModel, a: Action, n: nat) -> (EditorModel, Seq<
    IoRequestModel,
>, bool)
    decreases n,
{
    if n == 0 {
        (m, Seq::<IoRequestModel>::empty(), false)
    } else {
        let step = apply_action_m(m, a);
        if step.2 {
            (step.0, req_seq(step.1), true)
        } else {
            let rest = iter_apply_m(step.0, a, (n - 1) as nat);
            (rest.0, req_seq(step.1) + rest.1, rest.2)
        }
    }
}

/// What firing the pending node does: its action, if any, runs as many times
/// as the consumed repeat prefix says (default one), then the pointer resets
/// to the root regardless. A failed repetition stops the remaining ones and
/// is already surfaced on the banner; it does not keep the node pending.
pub open spec fn execute_clear_m(m: EditorModel) -> (EditorModel, Seq<IoRequestModel>, bool) {
    match pointed_action(m.keymap) {
        Some(a) => {
            let n = match m.keymap.prefix {
                Some(p) => p as nat,
                None => 1nat,
            };
            let m1 = EditorModel { keymap: KeymapModel { prefix: None, ..m.keymap }, ..m };
            let run = iter_apply_m(m1, a, n);
            (
                EditorModel { keymap: KeymapModel { current: None, ..run.0.keymap }, ..run.0 },
                run.1,
                run.2,
            )
        },
        None => (
            EditorModel { keymap: KeymapModel { current: None, ..m.keymap }, ..m },
            Seq::<IoRequestModel>::empty(),
            false,
        ),
    }
}

/// What the timeout check does: once more than a second has passed since the
/// last key and a sequence is pending, the stale node is force-resolved
/// before any new event is looked at.
pub open spec fn on_tick_m(m: EditorModel, millis_since_last_key: u64) -> (EditorModel, Seq<
    IoRequestModel,
>, bool) {
    if millis_since_last_key > 1000 && m.keymap.current is Some {
        let run = execute_clear_m(m);
        (EditorModel { dirty: true, ..run.0 }, run.1, run.2)
    } else {
        (m, Seq::<IoRequestModel>::empty(), false)
    }
}

/// The tail of event resolution, after the (possibly retried) traversal: a
/// pointer that became a leaf fires at once, and an event that stayed
/// unresolved goes to the mode fallback unless Control or Alt is held. A
/// failed firing is already on the banner and does not cut resolution short.
pub open spec fn on_key_tail_m(
    m: EditorModel,
    unres: Option<KeyInput>,
    ios0: Seq<IoRequestModel>,
    failed0: bool,
) -> (EditorModel, Seq<IoRequestModel>, bool) {
    let fired = if pointer_is_leaf(m.keymap) {
        let run = execute_clear_m(m);
        (run.0, ios0 + run.1, failed0 || run.2)
    } else {
        (m, ios0, failed0)
    };
    let after_fallback = match unres {
        Some(u) => if !u.ctrl && !u.alt {
            fallback_step_m(fired.0, u)
        } else {
            fired.0
        },
        None => fired.0,
    };
    (EditorModel { dirty: true, ..after_fallback }, fired.1, fired.2)
}

/// What one drained event does, exactly the resolution algorithm: traverse
/// from the pending node or the mode root; on a dead end force-resolve the
/// pending node and reinterpret the same event from the root; fire a leaf at
/// once; hand what is left to the mode fallback.
pub open spec fn on_key_m(m: EditorModel, ev: KeyInput) -> (EditorModel, Seq<
    IoRequestModel,
>, bool) {
    let first = traverse_step(m.keymap, m.mode, ev);
    let m1 = EditorModel { keymap: first.0, ..m };
    match first.1 {
        Some(_) => {
            let flushed = execute_clear_m(m1);
            let retry = traverse_step(flushed.0.keymap, flushed.0.mode, ev);
            let m3 = EditorModel { keymap: retry.0, ..flushed.0 };
            on_key_tail_m(m3, retry.1, flushed.1, flushed.2)
        },
        None => on_key_tail_m(m1, None, Seq::<IoRequestModel>::empty(), false),
    }
}

/// The per-request views of a request vector agree with its deep view.
proof fn lemma_reqs_view(v: Vec<IoRequest>)
    ensures
        v.deep_view().len() == v@.len(),
        forall|i: int| 0 <= i < v@.len() ==> v.deep_view()[i] == v@[i].deep_view(),
{
}

/// Appends a copy of one character vector onto another.
pub(crate) fn copy_chars(from: &Vec<char>, to: &mut Vec<char>)
    ensures
        final(to)@ == old(to)@ + from@,
{
    let mut i: usize = 0;
    proof {
        assert(old(to)@ + from@.take(0) =~= old(to)@);
    }
    while i < from.len()
        invariant
            i <= from@.len(),
            to@ == old(to)@ + from@.take(i as int),
        decreases from@.len() - i,
    {
        to.push(from[i]);
        proof {
            assert(old(to)@ + from@.take(i as int + 1) =~= (old(to)@ + from@.take(i as int)).push(
                from@[i as int],
            ));
        }
        i += 1;
    }
    proof {
        assert(from@.take(from@.len() as int) =~= from@);
    }
}

/// Modifier exclusion: with nothing pending, a Control- or Alt-modified
/// chord that no binding resolves never reaches the fallback editor, so in
/// particular it never appears as inserted text in INSERT mode. The whole
/// visible state — buffer, command line, mode, cursor, viewport and banner —
/// is untouched, and no file I/O is requested; only a repaint is scheduled.
pub proof fn lemma_modifier_exclusion(m: EditorModel, ev: KeyInput)
    requires
        m.inv(),
        m.keymap.current is None,
        ev.ctrl || ev.alt,
        crate::keymap::child_in(
            m.keymap.nodes[crate::keymap::root_index(m.mode)].children,
            ev,
        ) is None,
    ensures
        on_key_m(m, ev).0 == (EditorModel { dirty: true, ..m }),
        on_key_m(m, ev).1 == Seq::<IoRequestModel>::empty(),
        on_key_m(m, ev).2 == false,
{
    let first = traverse_step(m.keymap, m.mode, ev);
    assert(crate::keys::plain_digit_of(ev) is None);
    assert(first.0 == m.keymap && first.1 == Some(ev));
    let m1 = EditorModel { keymap: first.0, ..m };
    assert(m1 =~~= m);
    let flushed = execute_clear_m(m1);
    assert(pointed_action(m1.keymap) is None);
    assert(flushed.0 =~~= m);
    assert(flushed.1 == Seq::<IoRequestModel>::empty());
    assert(flushed.2 == false);
    let retry = traverse_step(flushed.0.keymap, flushed.0.mode, ev);
    assert(retry.0 == m.keymap && retry.1 == Some(ev));
    let m3 = EditorModel { keymap: retry.0, ..flushed.0 };
    assert(m3 =~~= m);
    assert(!pointer_is_leaf(m3.keymap));
    let tail = on_key_tail_m(m3, retry.1, flushed.1, flushed.2);
    assert(tail.0 =~~= (EditorModel { dirty: true, ..m }));
    assert(tail.1 =~~= Seq::<IoRequestModel>::empty());
    assert(on_key_m(m, ev).0 =~~= (EditorModel { dirty: true, ..m }));
    assert(on_key_m(m, ev).1 =~~= Seq::<IoRequestModel>::empty());
}

/// Newline counts grow with the prefix.
proof fn lemma_take_newline_mono(s: Seq<char>, j: int)
    requires
        0 <= j <= s.len(),
    ensures
        newline_count(s) >= newline_count(s.take(j)),
    decreases s.len() - j,
{
    if j < s.len() {
        lemma_newline_count_snoc(s.take(j), s[j]);
        assert(s.take(j) + seq![s[j]] =~= s.take(j + 1));
        lemma_take_newline_mono(s, j + 1);
    } else {
        assert(s.take(j) =~= s);
    }
}

} // verus!
