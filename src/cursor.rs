//! The editing cursor and its movement rules.
use vstd::prelude::*;
use crate::text::{byte_len, text_of};

verus! {

/// A position in a document: a line index and a byte offset within that line.
#[derive(Clone, Copy, Debug, PartialEq, Eq, Structural)]
pub struct Cursor {
    pub line: usize,
    pub column: usize,
}

/// The number of lines of `text`, and the length of each, can be held by a `usize`.
pub open spec fn fits_usize(text: Seq<Seq<u8>>) -> bool {
    &&& text.len() <= usize::MAX
    &&& forall|i: int| 0 <= i < text.len() ==> #[trigger] text[i].len() <= usize::MAX
}

impl Cursor {
    /// The cursor names an existing line, and a column no further than that line's end.
    pub open spec fn is_valid_in(self, text: Seq<Seq<u8>>) -> bool {
        self.line < text.len() && self.column <= text[self.line as int].len()
    }

    /// The cursor stands at the very start of the document.
    pub open spec fn at_start(self) -> bool {
        self.line == 0 && self.column == 0
    }

    /// The cursor stands at the end of the last line.
    pub open spec fn at_end(self, text: Seq<Seq<u8>>) -> bool {
        self.line + 1 == text.len() && self.column == text[self.line as int].len()
    }

    /// `column`, reduced to `len` where it lies beyond it.
    pub open spec fn clamped(column: usize, len: nat) -> usize {
        if column > len {
            len as usize
        } else {
            column
        }
    }

    /// One line up, with the column clamped to that line; unchanged on the first line.
    pub open spec fn moved_up(self, text: Seq<Seq<u8>>) -> Cursor {
        if self.line == 0 {
            self
        } else {
            let l = (self.line - 1) as usize;
            Cursor { line: l, column: Self::clamped(self.column, text[l as int].len()) }
        }
    }

    /// One line down, with the column clamped to that line; unchanged on the last line.
    pub open spec fn moved_down(self, text: Seq<Seq<u8>>) -> Cursor {
        if self.line + 1 == text.len() {
            self
        } else {
            let l = (self.line + 1) as usize;
            Cursor { line: l, column: Self::clamped(self.column, text[l as int].len()) }
        }
    }

    /// One byte left, or to the end of the line above from a line's start;
    /// unchanged at the start of the document.
    pub open spec fn moved_left(self, text: Seq<Seq<u8>>) -> Cursor {
        if self.at_start() {
            self
        } else if self.column == 0 {
            let l = (self.line - 1) as usize;
            Cursor { line: l, column: text[l as int].len() as usize }
        } else {
            Cursor { line: self.line, column: (self.column - 1) as usize }
        }
    }

    /// One byte right, or to the start of the line below from a line's end;
    /// unchanged at the end of the document.
    pub open spec fn moved_right(self, text: Seq<Seq<u8>>) -> Cursor {
        if self.at_end(text) {
            self
        } else if self.column == text[self.line as int].len() {
            Cursor { line: (self.line + 1) as usize, column: 0 }
        } else {
            Cursor { line: self.line, column: (self.column + 1) as usize }
        }
    }

    /// A cursor at `line`, `column`.
    pub fn new(line: usize, column: usize) -> (r: Cursor)
        ensures
            r == (Cursor { line, column }),
    {
        Cursor { line: line, column: column }
    }

    /// Moves one line up within `lines`, clamping the column.
    pub fn move_up(&mut self, lines: &[String])
        requires
            old(self).line < lines@.len(),
        ensures
            *final(self) == old(self).moved_up(text_of(lines@)),
    {
        if self.line != 0 {
            self.line -= 1;
            let len = byte_len(&lines[self.line]);
            if self.column > len {
                self.column = len;
            }
        }
    }

    /// Moves one line down within `lines`, clamping the column.
    pub fn move_down(&mut self, lines: &[String])
        requires
            old(self).line < lines@.len(),
        ensures
            *final(self) == old(self).moved_down(text_of(lines@)),
    {
        let n = lines.len();
        if self.line + 1 != n {
            self.line += 1;
            let len = byte_len(&lines[self.line]);
            if self.column > len {
                self.column = len;
            }
        }
    }

    /// Moves one byte left within `lines`, wrapping to the end of the line above.
    pub fn move_left(&mut self, lines: &[String])
        requires
            old(self).line < lines@.len(),
        ensures
            *final(self) == old(self).moved_left(text_of(lines@)),
    {
        if self.column == 0 && self.line == 0 {
            return;
        }
        if self.column == 0 {
            self.line -= 1;
            self.column = byte_len(&lines[self.line]);
        } else {
            self.column -= 1;
        }
    }

    /// Moves one byte right within `lines`, wrapping to the start of the line below.
    pub fn move_right(&mut self, lines: &[String])
        requires
            old(self).is_valid_in(text_of(lines@)),
        ensures
            *final(self) == old(self).moved_right(text_of(lines@)),
    {
        let n = lines.len();
        let line_len = byte_len(&lines[self.line]);
        if self.column == line_len && self.line + 1 == n {
            return;
        }
        if self.column == line_len {
            self.line += 1;
            self.column = 0;
        } else {
            self.column += 1;
        }
    }
}

/// Moving right and then left comes back to the starting position anywhere but
/// at the end of the document, where moving right does nothing.
pub proof fn lemma_right_then_left(c: Cursor, text: Seq<Seq<u8>>)
    requires
        c.is_valid_in(text),
        fits_usize(text),
        !c.at_end(text),
    ensures
        c.moved_right(text).moved_left(text) == c,
{
}

/// Moving left and then right comes back to the starting position anywhere but
/// at the start of the document, where moving left does nothing.
pub proof fn lemma_left_then_right(c: Cursor, text: Seq<Seq<u8>>)
    requires
        c.is_valid_in(text),
        fits_usize(text),
        !c.at_start(),
    ensures
        c.moved_left(text).moved_right(text) == c,
{
}

/// Vertical moves clamp: from a column beyond the end of the line it moves to,
/// the cursor lands exactly at that line's end.
pub proof fn lemma_vertical_moves_clamp(c: Cursor, text: Seq<Seq<u8>>)
    requires
        c.line < text.len(),
        text.len() <= usize::MAX,
    ensures
        c.line > 0 && c.column > text[c.line - 1].len() ==> c.moved_up(text) == (Cursor {
            line: (c.line - 1) as usize,
            column: text[c.line - 1].len() as usize,
        }) && c.moved_up(text).column == text[c.line - 1].len(),
        c.line + 1 < text.len() && c.column > text[c.line + 1].len() ==> c.moved_down(text) == (
        Cursor { line: (c.line + 1) as usize, column: text[c.line + 1].len() as usize })
            && c.moved_down(text).column == text[c.line + 1].len(),
{
}

} // verus!
