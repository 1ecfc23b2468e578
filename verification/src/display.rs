//! The cursor and viewport model: a cursor with a sticky target column that
//! vertical moves never erase, and a scroll offset that always keeps the
//! cursor inside the visible window.

use vstd::prelude::*;

verus! {

/// The cursor: a `(column, row)` position into the buffer plus the sticky
/// column remembered across vertical moves.
#[derive(Clone, Copy, PartialEq, Eq, Debug)]
pub struct Cursor {
    pub position: (usize, usize),
    pub max_column: usize,
}

/// The cursor points at a row of the buffer and at a column no further than
/// one past the end of that row's line.
pub open spec fn cursor_in_bounds(c: Cursor, buf: Seq<Seq<char>>) -> bool {
    &&& (c.position.1 as int) < buf.len()
    &&& (c.position.0 as int) <= buf[c.position.1 as int].len()
}

/// The row the cursor lands on after clamping into the buffer.
pub open spec fn clamped_row(row: usize, buf: Seq<Seq<char>>) -> int {
    if (row as int) < buf.len() {
        row as int
    } else {
        buf.len() - 1
    }
}

/// Where a cursor settles over a buffer: the row clamped into the buffer, the
/// column at the sticky column or the end of the landing line, whichever is
/// nearer.
pub open spec fn clamped(c: Cursor, buf: Seq<Seq<char>>) -> Cursor {
    let row = clamped_row(c.position.1, buf);
    let line_len = buf[row].len();
    let col = if c.max_column <= line_len {
        c.max_column as int
    } else {
        line_len as int
    };
    Cursor { position: (col as usize, row as usize), max_column: c.max_column }
}

/// Saturating addition of a signed delta to an unsigned coordinate.
pub open spec fn sat_add(x: usize, d: int) -> int {
    if x + d < 0 {
        0
    } else if x + d > usize::MAX {
        usize::MAX as int
    } else {
        x + d
    }
}

/// The cursor after a relative move: a nonzero horizontal delta retargets the
/// sticky column, a pure vertical move leaves it alone, and the result is
/// clamped into the buffer.
pub open spec fn moved_by(c: Cursor, dx: int, dy: int, buf: Seq<Seq<char>>) -> Cursor {
    let x = if dx != 0 {
        sat_add(c.position.0, dx)
    } else {
        c.position.0 as int
    };
    let mc = if dx != 0 {
        x
    } else {
        c.max_column as int
    };
    let y = if dy != 0 {
        sat_add(c.position.1, dy)
    } else {
        c.position.1 as int
    };
    clamped(
        Cursor { position: (x as usize, y as usize), max_column: mc as usize },
        buf,
    )
}

/// The cursor after an absolute column jump, which also retargets the sticky
/// column.
pub open spec fn moved_x(c: Cursor, new_x: usize, buf: Seq<Seq<char>>) -> Cursor {
    clamped(Cursor { position: (new_x, c.position.1), max_column: new_x }, buf)
}

/// The cursor after an absolute row jump; the sticky column is untouched.
pub open spec fn moved_y(c: Cursor, new_y: usize, buf: Seq<Seq<char>>) -> Cursor {
    clamped(Cursor { position: (c.position.0, new_y), max_column: c.max_column }, buf)
}

impl Cursor {
    /// The cursor at the origin with no sticky target yet.
    pub fn new() -> (r: Cursor)
        ensures
            r == (Cursor { position: (0usize, 0usize), max_column: 0usize }),
    {
        Cursor { position: (0, 0), max_column: 0 }
    }

    /// Clamps the cursor into the buffer: the row into the existing rows, the
    /// column to the sticky column or the end of the landing line.
    pub fn validate_cursor(&mut self, buffer: &Vec<Vec<char>>)
        requires
            buffer@.len() >= 1,
        ensures
            *final(self) == clamped(*old(self), buffer.deep_view()),
            cursor_in_bounds(*final(self), buffer.deep_view()),
    {
        proof {
            assert(buffer.deep_view().len() == buffer@.len());
        }
        if self.position.1 >= buffer.len() {
            self.position.1 = buffer.len() - 1;
        }
        let line_len = buffer[self.position.1].len();
        proof {
            assert(buffer.deep_view()[self.position.1 as int] == buffer@[self.position.1 as int]@);
        }
        if self.max_column <= line_len {
            self.position.0 = self.max_column;
        } else {
            self.position.0 = line_len;
        }
    }

    /// Moves the cursor by a saturating signed delta and clamps it into the
    /// buffer; a nonzero horizontal delta retargets the sticky column, a pure
    /// vertical move preserves it.
    pub fn move_by(&mut self, delta: (isize, isize), buffer: &Vec<Vec<char>>)
        requires
            buffer@.len() >= 1,
        ensures
            *final(self) == moved_by(*old(self), delta.0 as int, delta.1 as int, buffer.deep_view()),
            cursor_in_bounds(*final(self), buffer.deep_view()),
    {
        let (dx, dy) = delta;
        if dx != 0 {
            let x = saturate(self.position.0, dx);
            self.position.0 = x;
            self.max_column = x;
        }
        if dy != 0 {
            self.position.1 = saturate(self.position.1, dy);
        }
        self.validate_cursor(buffer);
    }

    /// Jumps the cursor to an absolute column, retargeting the sticky column,
    /// then clamps into the buffer.
    pub fn move_x(&mut self, new_x: usize, buffer: &Vec<Vec<char>>)
        requires
            buffer@.len() >= 1,
        ensures
            *final(self) == moved_x(*old(self), new_x, buffer.deep_view()),
            cursor_in_bounds(*final(self), buffer.deep_view()),
    {
        self.position.0 = new_x;
        self.max_column = new_x;
        self.validate_cursor(buffer);
    }

    /// Jumps the cursor to an absolute row, leaving the sticky column alone,
    /// then clamps into the buffer.
    pub fn move_y(&mut self, new_y: usize, buffer: &Vec<Vec<char>>)
        requires
            buffer@.len() >= 1,
        ensures
            *final(self) == moved_y(*old(self), new_y, buffer.deep_view()),
            cursor_in_bounds(*final(self), buffer.deep_view()),
    {
        self.position.1 = new_y;
        self.validate_cursor(buffer);
    }
}

/// The sticky column survives vertical motion: a move with no horizontal
/// component leaves the sticky target column untouched, and the cursor's
/// live column always sits at that target or at the end of the landing
/// line, whichever is nearer. Moving through a short row and back onto a
/// long one therefore restores the remembered column.
pub proof fn lemma_sticky_column(c: Cursor, dy: int, buf: Seq<Seq<char>>)
    requires
        buf.len() >= 1,
    ensures
        moved_by(c, 0, dy, buf).max_column == c.max_column,
        ({
            let landed = moved_by(c, 0, dy, buf);
            landed.position.0 as int == (if c.max_column as int <= buf[landed.position.1 as int].len() {
                c.max_column as int
            } else {
                buf[landed.position.1 as int].len() as int
            })
        }),
{
}

/// Saturating addition of a signed delta to an unsigned coordinate, pinned to
/// `sat_add`.
fn saturate(pos: usize, delta: isize) -> (r: usize)
    ensures
        r as int == sat_add(pos, delta as int),
{
    if delta >= 0 {
        pos.saturating_add(delta as usize)
    } else {
        let mag: usize = if delta == isize::MIN {
            (isize::MAX as usize) + 1
        } else {
            (-delta) as usize
        };
        pos.saturating_sub(mag)
    }
}

/// The viewport: the terminal size, the top-left scroll offset, and the
/// cursor it keeps in view.
#[derive(Clone, Copy, PartialEq, Eq, Debug)]
pub struct Display {
    pub size: (usize, usize),
    pub offset: (usize, usize),
    pub cursor: Cursor,
}

/// The rows left for buffer text once `reserved` rows are taken by the
/// command prompt and the error banner; never less than one.
pub open spec fn visible_rows(height: usize, reserved: usize) -> int {
    if height > reserved {
        height - reserved
    } else {
        1
    }
}

/// The scroll offset after revalidation: each axis shifts by the minimum
/// amount that brings the cursor back into the window, and is untouched when
/// the cursor is already visible.
pub open spec fn fixed_offset(d: Display, reserved: usize) -> (usize, usize) {
    let cx = d.cursor.position.0 as int;
    let cy = d.cursor.position.1 as int;
    let rows = visible_rows(d.size.1, reserved);
    let ox = if cx < d.offset.0 {
        cx
    } else if cx - d.offset.0 >= d.size.0 {
        cx - d.size.0 + 1
    } else {
        d.offset.0 as int
    };
    let oy = if cy < d.offset.1 {
        cy
    } else if cy - d.offset.1 >= rows {
        cy - rows + 1
    } else {
        d.offset.1 as int
    };
    (ox as usize, oy as usize)
}

/// A viewport with a usable window: at least one column and one row.
pub open spec fn display_wf(d: Display) -> bool {
    d.size.0 >= 1 && d.size.1 >= 1
}

impl Display {
    /// A fresh viewport over a terminal of the given size, scrolled to the
    /// top-left corner, with the cursor at the origin.
    pub fn new(size: (usize, usize)) -> (r: Display)
        requires
            size.0 >= 1,
            size.1 >= 1,
        ensures
            r == (Display {
                size,
                offset: (0usize, 0usize),
                cursor: Cursor { position: (0usize, 0usize), max_column: 0usize },
            }),
            display_wf(r),
    {
        Display { size, offset: (0, 0), cursor: Cursor { position: (0, 0), max_column: 0 } }
    }

    /// Shifts each offset axis by the minimum amount that brings the cursor
    /// back into the window of `size` minus the reserved rows.
    pub fn validate_offset(&mut self, reserved: usize)
        requires
            display_wf(*old(self)),
        ensures
            final(self).offset == fixed_offset(*old(self), reserved),
            final(self).size == old(self).size,
            final(self).cursor == old(self).cursor,
            final(self).offset.0 <= final(self).cursor.position.0,
            (final(self).cursor.position.0 as int) < final(self).offset.0 + final(self).size.0,
            final(self).offset.1 <= final(self).cursor.position.1,
            (final(self).cursor.position.1 as int) < final(self).offset.1 + visible_rows(
                final(self).size.1,
                reserved,
            ),
            display_wf(*final(self)),
    {
        let rows: usize = if self.size.1 > reserved {
            self.size.1 - reserved
        } else {
            1
        };
        if self.cursor.position.0 < self.offset.0 {
            self.offset.0 = self.cursor.position.0;
        } else if self.cursor.position.0 - self.offset.0 >= self.size.0 {
            self.offset.0 = self.cursor.position.0 - self.size.0 + 1;
        }
        if self.cursor.position.1 < self.offset.1 {
            self.offset.1 = self.cursor.position.1;
        } else if self.cursor.position.1 - self.offset.1 >= rows {
            self.offset.1 = self.cursor.position.1 - rows + 1;
        }
    }

    /// Moves the cursor by a relative delta, then rescrolls so it stays in
    /// view given the reserved rows.
    pub fn cursor_move_by(
        &mut self,
        delta: (isize, isize),
        buffer: &Vec<Vec<char>>,
        reserved: usize,
    )
        requires
            display_wf(*old(self)),
            buffer@.len() >= 1,
        ensures
            final(self).cursor == moved_by(
                old(self).cursor,
                delta.0 as int,
                delta.1 as int,
                buffer.deep_view(),
            ),
            cursor_in_bounds(final(self).cursor, buffer.deep_view()),
            final(self).size == old(self).size,
            final(self).offset == fixed_offset(
                Display { cursor: final(self).cursor, ..*old(self) },
                reserved,
            ),
            display_wf(*final(self)),
    {
        self.cursor.move_by(delta, buffer);
        self.validate_offset(reserved);
    }

    /// Jumps the cursor to an absolute column, then rescrolls.
    pub fn cursor_move_x(&mut self, new_x: usize, buffer: &Vec<Vec<char>>, reserved: usize)
        requires
            display_wf(*old(self)),
            buffer@.len() >= 1,
        ensures
            final(self).cursor == moved_x(old(self).cursor, new_x, buffer.deep_view()),
            cursor_in_bounds(final(self).cursor, buffer.deep_view()),
            final(self).size == old(self).size,
            final(self).offset == fixed_offset(
                Display { cursor: final(self).cursor, ..*old(self) },
                reserved,
            ),
            display_wf(*final(self)),
    {
        self.cursor.move_x(new_x, buffer);
        self.validate_offset(reserved);
    }

    /// Jumps the cursor to an absolute row, then rescrolls.
    pub fn cursor_move_y(&mut self, new_y: usize, buffer: &Vec<Vec<char>>, reserved: usize)
        requires
            display_wf(*old(self)),
            buffer@.len() >= 1,
        ensures
            final(self).cursor == moved_y(old(self).cursor, new_y, buffer.deep_view()),
            cursor_in_bounds(final(self).cursor, buffer.deep_view()),
            final(self).size == old(self).size,
            final(self).offset == fixed_offset(
                Display { cursor: final(self).cursor, ..*old(self) },
                reserved,
            ),
            display_wf(*final(self)),
    {
        self.cursor.move_y(new_y, buffer);
        self.validate_offset(reserved);
    }
}

} // verus!
