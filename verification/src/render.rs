//! The pure side of painting: what each visible row holds — a fixed-width
//! right-justified gutter of relative line numbers, the horizontally-offset
//! width-clipped slice of the line's text — plus filler markers, the banner
//! lines, the command prompt, and where the terminal cursor goes.

use vstd::prelude::*;

use crate::display::sat_add;
use crate::editor::{copy_chars, Editor, EditorModel, reserved_rows_of};
use crate::keys::Mode;
use crate::text::doc_lines;

verus! {

/// One frame to paint, top to bottom: the gutter-plus-text rows, filler rows
/// past the buffer's end (each shown as the filler marker), the banner
/// lines, the command prompt if any, and the terminal cursor's position and
/// shape (bar in INSERT and COMMAND, block otherwise).
pub struct Frame {
    pub text_rows: Vec<Vec<char>>,
    pub filler_rows: usize,
    pub banner_rows: Vec<Vec<char>>,
    pub prompt: Option<Vec<char>>,
    pub cursor_screen: (usize, usize),
    pub cursor_bar: bool,
}

/// The decimal digit character for a value below ten.
pub open spec fn digit_of(d: int) -> char {
    ((48 + d) as u8) as char
}

/// The decimal digits of a number, most significant first.
pub open spec fn dec_digits(n: int) -> Seq<char>
    decreases n,
{
    if n < 10 {
        seq![digit_of(n)]
    } else {
        dec_digits(n / 10).push(digit_of(n % 10))
    }
}

/// A digit string right-justified to at least four columns.
pub open spec fn padded4(s: Seq<char>) -> Seq<char> {
    if s.len() >= 4 {
        s
    } else {
        Seq::new((4 - s.len()) as nat, |i: int| ' ') + s
    }
}

/// The gutter for one row: the padded number and two spaces.
pub open spec fn gutter_of(n: int) -> Seq<char> {
    padded4(dec_digits(n)) + seq![' ', ' ']
}

/// The number the gutter shows for a row: the cursor row shows its own
/// absolute index, every other row its absolute distance from the cursor.
pub open spec fn rel_number(cy: int, row: int) -> int {
    if row == cy {
        cy
    } else if cy >= row {
        cy - row
    } else {
        row - cy
    }
}

/// The horizontally-offset, width-clipped slice of a line's text.
pub open spec fn clipped_line(line: Seq<char>, ox: int, w: int) -> Seq<char> {
    if line.len() > ox {
        line.subrange(
            ox,
            if ox + w < line.len() {
                ox + w
            } else {
                line.len() as int
            },
        )
    } else {
        Seq::<char>::empty()
    }
}

/// One rendered text row: gutter then clipped text.
pub open spec fn render_row(m: EditorModel, row: int) -> Seq<char> {
    gutter_of(rel_number(m.display.cursor.position.1 as int, row)) + clipped_line(
        m.buffer[row],
        m.display.offset.0 as int,
        m.display.size.0 as int,
    )
}

/// The rows available for buffer text once the reserved rows are taken.
pub open spec fn text_budget(m: EditorModel) -> int {
    m.display.size.1 - reserved_rows_of(m)
}

/// How many buffer rows the frame shows: the window budget or what is left
/// of the buffer below the scroll offset, whichever is smaller.
pub open spec fn shown_rows(m: EditorModel) -> int {
    let avail = if m.buffer.len() >= m.display.offset.1 {
        m.buffer.len() - m.display.offset.1
    } else {
        0
    };
    if text_budget(m) < avail {
        text_budget(m)
    } else {
        avail
    }
}

/// The screen column or row of the buffer cursor: its offset-relative
/// position, shifted right by the gutter width for the column.
pub open spec fn rel0(c: usize, o: usize) -> usize {
    if c >= o {
        (c - o) as usize
    } else {
        0
    }
}

/// Where the terminal cursor goes: onto the prompt line in COMMAND mode,
/// else onto the buffer cursor shifted by the scroll offset and the
/// six-column gutter.
pub open spec fn cursor_screen_of(m: EditorModel) -> (usize, usize) {
    if m.mode == Mode::COMMAND {
        (sat_add(0, m.command.len() as int + 1) as usize, m.display.size.1)
    } else {
        (
            sat_add(rel0(m.display.cursor.position.0, m.display.offset.0), 6) as usize,
            rel0(m.display.cursor.position.1, m.display.offset.1),
        )
    }
}

/// The filler marker shown on rows past the end of the buffer.
pub open spec fn filler_marker() -> Seq<char> {
    seq![' ', ' ', ' ', '~', ' ']
}

/// Builds the filler marker row.
pub fn filler_row() -> (r: Vec<char>)
    ensures
        r@ == filler_marker(),
{
    let mut r: Vec<char> = Vec::new();
    r.push(' ');
    r.push(' ');
    r.push(' ');
    r.push('~');
    r.push(' ');
    proof {
        assert(r@ =~= filler_marker());
    }
    r
}

/// Appends the decimal digits of a number, pinned to `dec_digits`.
fn push_digits(n: usize, out: &mut Vec<char>)
    ensures
        final(out)@ == old(out)@ + dec_digits(n as int),
        dec_digits(n as int).len() >= 1,
    decreases n,
{
    if n < 10 {
        let d = n as u8;
        out.push((48u8 + d) as char);
        proof {
            assert(out@ =~= old(out)@ + dec_digits(n as int));
        }
    } else {
        push_digits(n / 10, out);
        let d = (n % 10) as u8;
        out.push((48u8 + d) as char);
        proof {
            assert(out@ =~= old(out)@ + dec_digits(n as int));
        }
    }
}

/// Builds the gutter for one row number, pinned to `gutter_of`.
fn format_gutter(n: usize) -> (r: Vec<char>)
    ensures
        r@ == gutter_of(n as int),
{
    let mut digits: Vec<char> = Vec::new();
    push_digits(n, &mut digits);
    let mut out: Vec<char> = Vec::new();
    let pad: usize = if digits.len() >= 4 {
        0
    } else {
        4 - digits.len()
    };
    let mut j: usize = 0;
    while j < pad
        invariant
            j <= pad,
            out@.len() == j,
            forall|k: int| 0 <= k < j ==> out@[k] == ' ',
        decreases pad - j,
    {
        out.push(' ');
        j += 1;
    }
    proof {
        if digits@.len() < 4 {
            assert(out@ =~= Seq::new((4 - digits@.len()) as nat, |i: int| ' '));
        } else {
            assert(out@ =~= Seq::<char>::empty());
        }
    }
    let ghost padded = out@;
    copy_chars(&digits, &mut out);
    out.push(' ');
    out.push(' ');
    proof {
        assert(out@ =~= padded4(digits@) + seq![' ', ' ']);
    }
    out
}

impl Editor {
    /// Computes the frame to paint for the current state: each shown row's
    /// gutter and clipped text, the filler count, the banner lines split on
    /// newlines, the prompt in COMMAND mode, and the terminal cursor.
    pub fn render(&self) -> (f: Frame)
        requires
            self@.inv(),
        ensures
            f.text_rows.deep_view().len() == shown_rows(self@),
            forall|i: int|
                0 <= i < shown_rows(self@) ==> f.text_rows.deep_view()[i] == render_row(
                    self@,
                    self@.display.offset.1 + i,
                ),
            f.filler_rows == text_budget(self@) - shown_rows(self@),
            (match self@.error {
                Some(e) => f.banner_rows.deep_view() == doc_lines(e + seq!['\n']),
                None => f.banner_rows@.len() == 0,
            }),
            (match f.prompt {
                Some(p) => self@.mode == Mode::COMMAND && p@ == seq![':'] + self@.command,
                None => self@.mode != Mode::COMMAND,
            }),
            f.cursor_screen == cursor_screen_of(self@),
            f.cursor_bar == (self@.mode == Mode::INSERT || self@.mode == Mode::COMMAND),
    {
        proof {
            crate::editor::lemma_buffer_view(self.buffer);
        }
        let reserved = self.reserved_rows();
        let budget = self.display.size.1 - reserved;
        let oy = self.display.offset.1;
        let ox = self.display.offset.0;
        let width = self.display.size.0;
        let cy = self.display.cursor.position.1;
        let avail: usize = if self.buffer.len() >= oy {
            self.buffer.len() - oy
        } else {
            0
        };
        let count: usize = if budget < avail {
            budget
        } else {
            avail
        };
        let mut text_rows: Vec<Vec<char>> = Vec::new();
        let mut i: usize = 0;
        while i < count
            invariant
                self@.inv(),
                i <= count,
                count == shown_rows(self@),
                oy == self@.display.offset.1,
                ox == self@.display.offset.0,
                width == self@.display.size.0,
                cy == self@.display.cursor.position.1,
                count == 0 || oy + count <= self.buffer@.len(),
                self.buffer@.len() <= usize::MAX,
                self@.buffer.len() == self.buffer@.len(),
                text_rows.deep_view().len() == i,
                forall|k: int|
                    0 <= k < i ==> text_rows.deep_view()[k] == render_row(self@, oy + k),
            decreases count - i,
        {
            proof {
                crate::editor::lemma_buffer_view(self.buffer);
            }
            let row = oy + i;
            let n: usize = if row == cy {
                cy
            } else if cy > row {
                cy - row
            } else {
                row - cy
            };
            let mut out = format_gutter(n);
            let ghost gutter = out@;
            let line = &self.buffer[row];
            if line.len() > ox {
                let end: usize = if ox.saturating_add(width) < line.len() {
                    ox + width
                } else {
                    line.len()
                };
                let mut j: usize = ox;
                while j < end
                    invariant
                        ox <= j <= end,
                        end <= line@.len(),
                        out@ == gutter + line@.subrange(ox as int, j as int),
                    decreases end - j,
                {
                    out.push(line[j]);
                    proof {
                        assert(out@ =~= gutter + line@.subrange(ox as int, j as int + 1));
                    }
                    j += 1;
                }
            }
            proof {
                assert(out@ =~= render_row(self@, row as int));
            }
            let ghost out_v = out@;
            proof {
                crate::editor::lemma_buffer_view(text_rows);
            }
            let ghost pre_rows = text_rows.deep_view();
            text_rows.push(out);
            proof {
                crate::editor::lemma_buffer_view(text_rows);
                assert forall|k: int| 0 <= k < i implies text_rows.deep_view()[k] == pre_rows[k] by {
                    assert(text_rows@[k] == text_rows@[k]);
                }
                assert(text_rows.deep_view().len() == i + 1);
                assert(text_rows.deep_view()[i as int] == out_v);
                assert forall|k: int|
                    0 <= k < i + 1 implies text_rows.deep_view()[k] == render_row(
                    self@,
                    oy + k,
                ) by {
                    if k < i {
                        assert(text_rows.deep_view()[k] == pre_rows[k]);
                    } else {
                        assert(text_rows.deep_view()[k] == out_v);
                        assert(out_v == render_row(self@, row as int));
                    }
                }
            }
            i += 1;
        }
        let filler = budget - count;
        let banner_rows: Vec<Vec<char>> = match &self.error {
            Some(e) => {
                let mut e2: Vec<char> = Vec::new();
                copy_chars(e, &mut e2);
                e2.push('\n');
                proof {
                    assert(e2@ =~= e@ + seq!['\n']);
                }
                crate::text::split_lines(&e2)
            },
            None => Vec::new(),
        };
        let prompt: Option<Vec<char>> = if self.mode == Mode::COMMAND {
            let mut p: Vec<char> = Vec::new();
            p.push(':');
            copy_chars(&self.command, &mut p);
            proof {
                assert(p@ =~= seq![':'] + self@.command);
            }
            Some(p)
        } else {
            None
        };
        let cursor_screen: (usize, usize) = if self.mode == Mode::COMMAND {
            (self.command.len().saturating_add(1), self.display.size.1)
        } else {
            let rx: usize = if self.display.cursor.position.0 >= ox {
                self.display.cursor.position.0 - ox
            } else {
                0
            };
            let ry: usize = if cy >= oy {
                cy - oy
            } else {
                0
            };
            (rx.saturating_add(6), ry)
        };
        let cursor_bar = self.mode == Mode::INSERT || self.mode == Mode::COMMAND;
        Frame { text_rows, filler_rows: filler, banner_rows, prompt, cursor_screen, cursor_bar }
    }
}

} // verus!
