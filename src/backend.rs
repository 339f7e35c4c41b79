//! Documents and the store of open documents.
use vstd::prelude::*;
use vstd::utf8::*;
use crate::cursor::{fits_usize, Cursor};
use crate::file_format::{document_lines, file_image, join_lines, split_lines};
use crate::text::{
    all_valid_utf8, byte_len, insert_char_into, lemma_removal_fits, lemma_remove_inserted,
    lemma_text_valid, remove_char_from, string_from_utf8, text_of, with_char_inserted,
    with_char_removed,
};

verus! {

broadcast use encode_utf8_valid_utf8;

/// What can go wrong when opening or saving a document.
#[derive(Clone, Copy, Debug, PartialEq, Eq, Structural)]
pub enum EditorError {
    /// The document has no filename to save to.
    NoFilename,
    /// The file's contents are not valid UTF-8 text.
    Encoding,
}

/// What a save writes: the file to write, and the whole of its new contents.
#[derive(Debug)]
pub struct SaveRequest {
    pub filename: String,
    pub contents: String,
}

/// A command from the user, decoded from the terminal's input.
#[derive(Clone, Copy, Debug, PartialEq, Eq, Structural)]
pub enum Command {
    MoveUp,
    MoveDown,
    MoveLeft,
    MoveRight,
    InsertChar(char),
    InsertNewline,
    DeleteBackward,
    Save,
    NextDocument,
    PreviousDocument,
    NewDocument,
    Quit,
}

/// What the caller does after a command.
#[derive(Debug)]
pub enum Action {
    /// Redraw the screen.
    Redraw,
    /// Write the request's contents to its file, then call `mark_saved`.
    Write(SaveRequest),
    /// The active document has no filename: ask for one, set it, and save again.
    AskFilename,
    /// The edit cannot be made inside a multi-byte character; nothing changed.
    Rejected,
    /// Stop editing.
    Quit,
}

/// The abstract state of a document.
pub struct BufferView {
    /// Where the document is saved; `None` for a document never saved.
    pub filename: Option<Seq<char>>,
    /// The lines, each as its UTF-8 bytes.
    pub lines: Seq<Seq<u8>>,
    pub cursor: Cursor,
    /// There are edits that no save has written yet.
    pub dirty: bool,
}

/// `lines` with line `line` cut in two at byte offset `col`; the second half
/// becomes a new line right after the first.
pub open spec fn lines_split(lines: Seq<Seq<u8>>, line: int, col: int) -> Seq<Seq<u8>> {
    lines.update(line, lines[line].take(col)).insert(line + 1, lines[line].skip(col))
}

/// `lines` with line `line` appended to the line before it and then removed.
pub open spec fn lines_joined(lines: Seq<Seq<u8>>, line: int) -> Seq<Seq<u8>> {
    lines.update(line - 1, lines[line - 1] + lines[line]).remove(line)
}

impl BufferView {
    /// A new document: no filename, one empty line, cursor at the origin, not dirty.
    pub open spec fn empty() -> BufferView {
        BufferView {
            filename: None,
            lines: seq![Seq::<u8>::empty()],
            cursor: Cursor { line: 0, column: 0 },
            dirty: false,
        }
    }

    /// The document holds at least one line, every line is valid UTF-8, line
    /// count and lengths fit in a `usize`, and the cursor lies within the text.
    pub open spec fn is_wf(self) -> bool {
        &&& self.lines.len() >= 1
        &&& all_valid_utf8(self.lines)
        &&& fits_usize(self.lines)
        &&& self.cursor.is_valid_in(self.lines)
    }

    /// The line the cursor is on.
    pub open spec fn cursor_line(self) -> Seq<u8> {
        self.lines[self.cursor.line as int]
    }

    /// The cursor column is a character boundary, where text can be inserted or split.
    pub open spec fn cursor_on_boundary(self) -> bool {
        is_char_boundary(self.cursor_line(), self.cursor.column as int)
    }

    /// Backspace can act here: at a line's start, or just after a character boundary.
    pub open spec fn backspace_allowed(self) -> bool {
        self.cursor.column == 0 || is_char_boundary(
            self.cursor_line(),
            self.cursor.column - 1,
        )
    }

    /// The document after typing `ch`: it goes in at the cursor, and the cursor
    /// moves one column right.
    pub open spec fn after_insert_char(self, ch: char) -> BufferView {
        BufferView {
            lines: self.lines.update(
                self.cursor.line as int,
                with_char_inserted(self.cursor_line(), self.cursor.column as int, ch),
            ),
            cursor: Cursor { line: self.cursor.line, column: (self.cursor.column + 1) as usize },
            dirty: true,
            ..self
        }
    }

    /// The document after a newline: the cursor line is split at the cursor, and
    /// the cursor goes to the start of the second half.
    pub open spec fn after_newline(self) -> BufferView {
        BufferView {
            lines: lines_split(self.lines, self.cursor.line as int, self.cursor.column as int),
            cursor: Cursor { line: (self.cursor.line + 1) as usize, column: 0 },
            dirty: true,
            ..self
        }
    }

    /// The document after a backspace: nothing at the document's start; at the
    /// start of a later line, that line is joined to the one above and the cursor
    /// goes to the join point; elsewhere the character before the cursor goes and
    /// the cursor moves one column left.
    pub open spec fn after_backspace(self) -> BufferView {
        let l = self.cursor.line as int;
        let c = self.cursor.column as int;
        if self.cursor.at_start() {
            self
        } else if c == 0 {
            BufferView {
                lines: lines_joined(self.lines, l),
                cursor: Cursor { line: (l - 1) as usize, column: self.lines[l - 1].len() as usize },
                dirty: true,
                ..self
            }
        } else {
            BufferView {
                lines: self.lines.update(l, with_char_removed(self.lines[l], c - 1)),
                cursor: Cursor { line: self.cursor.line, column: (c - 1) as usize },
                dirty: true,
                ..self
            }
        }
    }
}

/// Typing a character and then deleting backwards gives back the original lines
/// and cursor.
pub proof fn lemma_insert_then_backspace(doc: BufferView, ch: char)
    requires
        doc.is_wf(),
        doc.cursor_on_boundary(),
        doc.cursor.column < usize::MAX,
    ensures
        doc.after_insert_char(ch).backspace_allowed(),
        doc.after_insert_char(ch).after_backspace().lines == doc.lines,
        doc.after_insert_char(ch).after_backspace().cursor == doc.cursor,
{
    let l = doc.cursor.line as int;
    let c = doc.cursor.column as int;
    lemma_remove_inserted(doc.lines[l], c, ch);
    assert(doc.lines.update(l, doc.lines[l]) =~= doc.lines);
}

/// Splitting a line and then joining the second half back onto the first gives
/// back the original lines.
pub proof fn lemma_split_then_join(lines: Seq<Seq<u8>>, line: int, col: int)
    requires
        0 <= line < lines.len(),
        0 <= col <= lines[line].len(),
    ensures
        lines_joined(lines_split(lines, line, col), line + 1) == lines,
{
    let split = lines_split(lines, line, col);
    assert(split[line] + split[line + 1] =~= lines[line]);
    assert(lines_joined(split, line + 1) =~= lines);
}

/// One open document: its lines, filename, cursor and dirty flag.
#[derive(Debug)]
pub struct Buffer {
    /// The filename that the Buffer gets saved to.
    pub filename: Option<String>,
    lines: Vec<String>,
    /// There are edits that no save has written yet.
    pub dirty: bool,
    cursor: Cursor,
}

impl View for Buffer {
    type V = BufferView;

    closed spec fn view(&self) -> BufferView {
        BufferView {
            filename: self.filename.deep_view(),
            lines: text_of(self.lines@),
            cursor: self.cursor,
            dirty: self.dirty,
        }
    }
}

impl Buffer {
    /// A new, empty buffer that has no filename to save to.
    pub fn new() -> (r: Buffer)
        ensures
            r@ == BufferView::empty(),
            r@.is_wf(),
    {
        let b = Buffer {
            filename: None,
            lines: vec![String::new()],
            dirty: false,
            cursor: Cursor::new(0, 0),
        };
        assert(text_of(b.lines@) =~= seq![Seq::<u8>::empty()]);
        b
    }

    /// A buffer for the file `filename` whose contents are `bytes`: the bytes split
    /// into lines at each newline, cursor at the origin, not dirty. Fails with
    /// `Encoding` exactly when the bytes are not valid UTF-8.
    pub fn from_file_bytes(filename: String, bytes: Vec<u8>) -> (r: Result<Buffer, EditorError>)
        ensures
            r is Err <==> !valid_utf8(bytes@),
            r matches Err(e) ==> e == EditorError::Encoding,
            r matches Ok(b) ==> b@ == (BufferView {
                filename: Some(filename@),
                lines: document_lines(bytes@),
                cursor: Cursor { line: 0, column: 0 },
                dirty: false,
            }) && b@.is_wf(),
    {
        let ghost b = bytes@;
        let contents = match string_from_utf8(bytes) {
            Some(s) => s,
            None => {
                return Err(EditorError::Encoding);
            },
        };
        let mut lines = split_lines(contents.as_str());
        if lines.len() == 0 {
            lines.push(String::new());
            proof {
                assert(text_of(lines@) =~= seq![Seq::<u8>::empty()]);
            }
        }
        let buf = Buffer {
            filename: Some(filename),
            lines: lines,
            dirty: false,
            cursor: Cursor::new(0, 0),
        };
        proof {
            lemma_text_valid(lines@);
            assert(valid_utf8(Seq::<u8>::empty()));
        }
        Ok(buf)
    }

    /// What saving this buffer writes: every line followed by a newline, to the
    /// buffer's file. Fails with `NoFilename` exactly when the buffer has none.
    pub fn save(&self) -> (r: Result<SaveRequest, EditorError>)
        ensures
            r is Err <==> self@.filename is None,
            r matches Err(e) ==> e == EditorError::NoFilename,
            r matches Ok(req) ==> self@.filename == Some(req.filename@) && encode_utf8(
                req.contents@,
            ) == file_image(self@.lines),
    {
        match &self.filename {
            Some(name) => Ok(
                SaveRequest { filename: name.clone(), contents: join_lines(self.lines.as_slice()) },
            ),
            None => Err(EditorError::NoFilename),
        }
    }

    /// Records that the buffer's contents have been written to its file.
    pub fn mark_saved(&mut self)
        ensures
            final(self)@ == (BufferView { dirty: false, ..old(self)@ }),
    {
        self.dirty = false;
    }

    /// Inserts `content` as a new line at index `index`.
    pub fn insert_newline_at(&mut self, index: usize, content: String)
        requires
            index <= old(self)@.lines.len(),
        ensures
            final(self)@ == (BufferView {
                lines: old(self)@.lines.insert(index as int, encode_utf8(content@)),
                dirty: true,
                ..old(self)@
            }),
    {
        if index == self.lines.len() {
            self.push_newline(content);
        } else {
            self.lines.insert(index, content);
            self.dirty = true;
        }
        assert(text_of(self.lines@) =~= text_of(old(self).lines@).insert(
            index as int,
            encode_utf8(content@),
        ));
    }

    /// Adds `content` as a new line at the end of the text.
    pub fn push_newline(&mut self, content: String)
        ensures
            final(self)@ == (BufferView {
                lines: old(self)@.lines.push(encode_utf8(content@)),
                dirty: true,
                ..old(self)@
            }),
    {
        self.lines.push(content);
        self.dirty = true;
        assert(text_of(self.lines@) =~= text_of(old(self).lines@).push(encode_utf8(content@)));
    }

    /// The line at `index`.
    pub fn get_line(&self, index: usize) -> (r: &String)
        requires
            index < self@.lines.len(),
        ensures
            encode_utf8(r@) == self@.lines[index as int],
    {
        &self.lines[index]
    }

    /// Splits the line at `line` into two lines at byte offset `column`.
    pub fn split_line_into_two_at(&mut self, line: usize, column: usize)
        requires
            line < old(self)@.lines.len(),
            is_char_boundary(old(self)@.lines[line as int], column as int),
        ensures
            final(self)@ == (BufferView {
                lines: lines_split(old(self)@.lines, line as int, column as int),
                dirty: true,
                ..old(self)@
            }),
    {
        let (start, rest) = self.split_line_at(line, column);
        self.lines.set(line, start);
        proof {
            assert(text_of(self.lines@) =~= text_of(old(self).lines@).update(
                line as int,
                encode_utf8(start@),
            ));
        }
        self.insert_newline_at(line + 1, rest);
        self.dirty = true;
        assert(self@.lines =~= lines_split(old(self)@.lines, line as int, column as int));
    }

    /// The two halves of the line at `line`, cut at byte offset `column`.
    pub fn split_line_at(&self, line: usize, column: usize) -> (r: (String, String))
        requires
            line < self@.lines.len(),
            is_char_boundary(self@.lines[line as int], column as int),
        ensures
            encode_utf8(r.0@) == self@.lines[line as int].take(column as int),
            encode_utf8(r.1@) == self@.lines[line as int].skip(column as int),
    {
        let (a, b) = self.lines[line].as_str().split_at(column);
        (a.to_owned(), b.to_owned())
    }

    /// Inserts `c` at byte offset `column` of the line at `line`.
    pub fn insert_char_at(&mut self, c: char, line: usize, column: usize)
        requires
            line < old(self)@.lines.len(),
            is_char_boundary(old(self)@.lines[line as int], column as int),
        ensures
            final(self)@ == (BufferView {
                lines: old(self)@.lines.update(
                    line as int,
                    with_char_inserted(old(self)@.lines[line as int], column as int, c),
                ),
                dirty: true,
                ..old(self)@
            }),
    {
        insert_char_into(&mut self.lines[line], column, c);
        self.dirty = true;
        assert(self@.lines =~= old(self)@.lines.update(
            line as int,
            with_char_inserted(old(self)@.lines[line as int], column as int, c),
        ));
    }

    /// Moves the line at `line` to the end of the line before it, and removes it.
    pub fn join_lines_at(&mut self, line: usize)
        requires
            1 <= line < old(self)@.lines.len(),
        ensures
            final(self)@ == (BufferView {
                lines: lines_joined(old(self)@.lines, line as int),
                dirty: true,
                ..old(self)@
            }),
    {
        let s = self.lines.remove(line);
        self.lines[line - 1].append(s.as_str());
        self.dirty = true;
        proof {
            crate::text::lemma_encode_concat(old(self).lines@[line - 1]@, s@);
        }
        assert(self@.lines =~= lines_joined(old(self)@.lines, line as int));
    }

    /// Deletes the character whose encoding starts at byte offset `column` of the
    /// line at `line`.
    pub fn delete_char_at(&mut self, line: usize, column: usize)
        requires
            line < old(self)@.lines.len(),
            column < old(self)@.lines[line as int].len(),
            is_char_boundary(old(self)@.lines[line as int], column as int),
        ensures
            final(self)@ == (BufferView {
                lines: old(self)@.lines.update(
                    line as int,
                    with_char_removed(old(self)@.lines[line as int], column as int),
                ),
                dirty: true,
                ..old(self)@
            }),
    {
        remove_char_from(&mut self.lines[line], column);
        self.dirty = true;
        assert(self@.lines =~= old(self)@.lines.update(
            line as int,
            with_char_removed(old(self)@.lines[line as int], column as int),
        ));
    }
}

/// The abstract state of the document store.
pub struct BackendView {
    pub buffers: Seq<BufferView>,
    /// The index of the active document.
    pub current: int,
}

impl BackendView {
    /// There is at least one document, the active index names one of them, and
    /// every document is well formed.
    pub open spec fn is_wf(self) -> bool {
        &&& self.buffers.len() >= 1
        &&& 0 <= self.current < self.buffers.len()
        &&& forall|i: int| 0 <= i < self.buffers.len() ==> (#[trigger] self.buffers[i]).is_wf()
    }

    /// The active document.
    pub open spec fn active(self) -> BufferView {
        self.buffers[self.current]
    }

    /// The store with the active document replaced by `doc`.
    pub open spec fn with_active(self, doc: BufferView) -> BackendView {
        BackendView { buffers: self.buffers.update(self.current, doc), ..self }
    }

    /// The store with the active document's cursor replaced by `c`.
    pub open spec fn with_cursor(self, c: Cursor) -> BackendView {
        self.with_active(BufferView { cursor: c, ..self.active() })
    }

    /// The store with the next document active, the first after the last.
    pub open spec fn switched_next(self) -> BackendView {
        BackendView {
            current: if self.current + 1 == self.buffers.len() {
                0
            } else {
                self.current + 1
            },
            ..self
        }
    }

    /// The store with the previous document active, the last before the first.
    pub open spec fn switched_previous(self) -> BackendView {
        BackendView {
            current: if self.current == 0 {
                self.buffers.len() - 1
            } else {
                self.current - 1
            },
            ..self
        }
    }

    /// The store with a new, empty document right after the active one, and active.
    pub open spec fn with_new_document(self) -> BackendView {
        BackendView {
            buffers: self.buffers.insert(self.current + 1, BufferView::empty()),
            current: self.current + 1,
        }
    }

    /// The edit that `command` asks for can be made at the active cursor.
    pub open spec fn allows(self, command: Command) -> bool {
        match command {
            Command::InsertChar(_) | Command::InsertNewline => self.active().cursor_on_boundary(),
            Command::DeleteBackward => self.active().backspace_allowed(),
            _ => true,
        }
    }

    /// The store after `command`: unchanged where the command is not allowed, or
    /// asks only for outside work (a save, quitting).
    pub open spec fn after_command(self, command: Command) -> BackendView {
        let doc = self.active();
        if !self.allows(command) {
            self
        } else {
            match command {
                Command::MoveUp => self.with_cursor(doc.cursor.moved_up(doc.lines)),
                Command::MoveDown => self.with_cursor(doc.cursor.moved_down(doc.lines)),
                Command::MoveLeft => self.with_cursor(doc.cursor.moved_left(doc.lines)),
                Command::MoveRight => self.with_cursor(doc.cursor.moved_right(doc.lines)),
                Command::InsertChar(c) => self.with_active(doc.after_insert_char(c)),
                Command::InsertNewline => self.with_active(doc.after_newline()),
                Command::DeleteBackward => self.with_active(doc.after_backspace()),
                Command::NextDocument => self.switched_next(),
                Command::PreviousDocument => self.switched_previous(),
                Command::NewDocument => self.with_new_document(),
                Command::Save | Command::Quit => self,
            }
        }
    }
}

/// Replacing the active document of a well-formed store by a well-formed
/// document keeps the store well formed.
proof fn lemma_with_active_wf(s: BackendView, doc: BufferView)
    requires
        s.is_wf(),
        doc.is_wf(),
    ensures
        s.with_active(doc).is_wf(),
{
    let t = s.with_active(doc);
    assert forall|i: int| 0 <= i < t.buffers.len() implies (#[trigger] t.buffers[i]).is_wf() by {
        if i != s.current {
            assert(t.buffers[i] == s.buffers[i]);
        }
    }
}

/// Opens documents, edits their text and moves their cursors. All of it happens
/// in the active document, one of an ordered, non-empty collection.
#[derive(Debug)]
pub struct Backend {
    buffers: Vec<Buffer>,
    current: usize,
}

impl View for Backend {
    type V = BackendView;

    closed spec fn view(&self) -> BackendView {
        BackendView {
            buffers: self.buffers@.map_values(|b: Buffer| b@),
            current: self.current as int,
        }
    }
}

impl Backend {
    /// The store is well formed (see `BackendView::is_wf`).
    pub open spec fn wf(&self) -> bool {
        self@.is_wf()
    }

    /// A store of `buffers`, the first of them active; a store of one empty
    /// document where `buffers` is empty.
    pub fn new(buffers: Vec<Buffer>) -> (r: Backend)
        requires
            forall|i: int| 0 <= i < buffers@.len() ==> (#[trigger] buffers@[i])@.is_wf(),
        ensures
            r.wf(),
            r@.current == 0,
            buffers@.len() == 0 ==> r@.buffers == seq![BufferView::empty()],
            buffers@.len() > 0 ==> r@.buffers == buffers@.map_values(|b: Buffer| b@),
    {
        let mut buffers = buffers;
        if buffers.len() == 0 {
            buffers.push(Buffer::new());
        }
        let r = Backend { buffers: buffers, current: 0 };
        assert(r@.buffers =~= buffers@.map_values(|b: Buffer| b@));
        assert(valid_utf8(Seq::<u8>::empty()));
        r
    }

    /// The lines of the active document.
    pub fn current_lines(&self) -> (r: &Vec<String>)
        requires
            self.wf(),
        ensures
            text_of(r@) == self@.active().lines,
    {
        &self.current_buffer().lines
    }

    /// The number of lines in the active document.
    pub fn number_of_lines(&self) -> (r: usize)
        requires
            self.wf(),
        ensures
            r == self@.active().lines.len(),
    {
        self.current_buffer().lines.len()
    }

    /// The length in bytes of line `line` of the active document.
    pub fn length_of_line(&self, line: usize) -> (r: usize)
        requires
            self.wf(),
            line < self@.active().lines.len(),
        ensures
            r == self@.active().lines[line as int].len(),
    {
        byte_len(&self.current_buffer().lines[line])
    }

    /// The active document.
    pub fn current_buffer(&self) -> (r: &Buffer)
        requires
            self.wf(),
        ensures
            r@ == self@.active(),
    {
        &self.buffers[self.current]
    }

    /// The active document, to change in place.
    pub fn current_buffer_mut(&mut self) -> (r: &mut Buffer)
        requires
            old(self).wf(),
        ensures
            r@ == old(self)@.active(),
            final(self)@ == old(self)@.with_active(final(r)@),
    {
        let cur = self.current;
        let r = &mut self.buffers[cur];
        assert(after_borrow(self.buffers)@.map_values(|b: Buffer| b@) =~= old(self)@.buffers.update(
            cur as int,
            final(r)@,
        ));
        r
    }

    /// The filename of the active document.
    pub fn filename(&self) -> (r: &Option<String>)
        requires
            self.wf(),
        ensures
            r.deep_view() == self@.active().filename,
    {
        &self.current_buffer().filename
    }

    /// Sets the filename of the active document.
    pub fn set_filename(&mut self, name: Option<String>)
        requires
            old(self).wf(),
        ensures
            final(self).wf(),
            final(self)@ == old(self)@.with_active(
                BufferView { filename: name.deep_view(), ..old(self)@.active() },
            ),
    {
        let buf = self.current_buffer_mut();
        buf.filename = name;
        proof {
            lemma_with_active_wf(old(self)@, BufferView { filename: name.deep_view(), ..old(self)@.active() });
        }
    }

    /// Carries out `command` on the active document, or on the collection for the
    /// document commands, and says what the caller does next.
    pub fn execute(&mut self, command: Command) -> (r: Action)
        requires
            old(self).wf(),
        ensures
            final(self).wf(),
            final(self)@ == old(self)@.after_command(command),
            !old(self)@.allows(command) ==> r is Rejected,
            old(self)@.allows(command) ==> match command {
                Command::Quit => r is Quit,
                Command::Save => match old(self)@.active().filename {
                    None => r is AskFilename,
                    Some(name) => r matches Action::Write(req) && req.filename@ == name
                        && encode_utf8(req.contents@) == file_image(old(self)@.active().lines),
                },
                _ => r is Redraw,
            },
    {
        match command {
            Command::MoveUp => self.move_up(),
            Command::MoveDown => self.move_down(),
            Command::MoveLeft => self.move_left(),
            Command::MoveRight => self.move_right(),
            Command::InsertChar(c) => {
                if !self.cursor_on_boundary() {
                    return Action::Rejected;
                }
                self.insert_char(c);
            },
            Command::InsertNewline => {
                if !self.cursor_on_boundary() {
                    return Action::Rejected;
                }
                self.insert_newline();
            },
            Command::DeleteBackward => {
                if !self.backspace_allowed() {
                    return Action::Rejected;
                }
                self.insert_backspace();
            },
            Command::Save => {
                return match self.save() {
                    Ok(request) => Action::Write(request),
                    Err(_) => Action::AskFilename,
                };
            },
            Command::NextDocument => self.switch_to_next_buffer(),
            Command::PreviousDocument => self.switch_to_previous_buffer(),
            Command::NewDocument => self.new_empty_buffer(),
            Command::Quit => {
                return Action::Quit;
            },
        }
        Action::Redraw
    }

    /// Whether the cursor column is a character boundary of its line, where text
    /// can be inserted or the line split.
    pub fn cursor_on_boundary(&self) -> (r: bool)
        requires
            self.wf(),
        ensures
            r == self@.active().cursor_on_boundary(),
    {
        let c = self.cursor();
        self.current_lines()[c.line].as_str().is_char_boundary(c.column)
    }

    /// Whether a backspace can act at the cursor: it is at a line's start, or
    /// just after a character boundary.
    pub fn backspace_allowed(&self) -> (r: bool)
        requires
            self.wf(),
        ensures
            r == self@.active().backspace_allowed(),
    {
        let c = self.cursor();
        c.column == 0 || self.current_lines()[c.line].as_str().is_char_boundary(c.column - 1)
    }

    /// Splits the cursor line at the cursor, and moves the cursor to the start of
    /// the second half.
    pub fn insert_newline(&mut self)
        requires
            old(self).wf(),
            old(self)@.active().cursor_on_boundary(),
        ensures
            final(self).wf(),
            final(self)@ == old(self)@.with_active(old(self)@.active().after_newline()),
    {
        let (x, y) = {
            let cursor = self.cursor();
            (cursor.line, cursor.column)
        };
        let buf = self.current_buffer_mut();
        buf.split_line_into_two_at(x, y);
        proof {
            assert(buf.lines.len() == buf.lines@.len());
        }
        buf.cursor.line = x + 1;
        buf.cursor.column = 0;
        proof {
            let doc = old(self)@.active().after_newline();
            lemma_text_valid(buf.lines@);
            assert(buf@ == doc);
            assert(fits_usize(doc.lines)) by {
                assert forall|i: int| 0 <= i < doc.lines.len() implies #[trigger] doc.lines[i].len()
                    <= usize::MAX by {
                    if i > x + 1 {
                        assert(doc.lines[i] == old(self)@.active().lines[i - 1]);
                    } else if i < x {
                        assert(doc.lines[i] == old(self)@.active().lines[i]);
                    }
                }
            }
            lemma_with_active_wf(old(self)@, doc);
        }
    }

    /// Deletes backwards from the cursor: nothing at the start of the document;
    /// at the start of a later line, joins that line to the one above, with the
    /// cursor at the join point; elsewhere deletes the character before the cursor
    /// and moves the cursor one column left.
    pub fn insert_backspace(&mut self)
        requires
            old(self).wf(),
            old(self)@.active().backspace_allowed(),
        ensures
            final(self).wf(),
            final(self)@ == old(self)@.with_active(old(self)@.active().after_backspace()),
    {
        let (x, y) = {
            let cursor = self.cursor();
            (cursor.line, cursor.column)
        };
        if x == 0 && y == 0 {
            assert(old(self)@.buffers.update(old(self)@.current, old(self)@.active())
                =~= old(self)@.buffers);
            return;
        }
        let ghost before = old(self)@.active();
        let buf = self.current_buffer_mut();
        if y == 0 {
            let len = byte_len(&buf.lines[x - 1]);
            buf.join_lines_at(x);
            assert(buf@.lines.len() == before.lines.len() - 1);
            assert(buf.lines@.len() == buf@.lines.len());
            // Measuring the joined line records that its length fits a usize.
            let joined_len = byte_len(&buf.lines[x - 1]);
            assert(joined_len == buf@.lines[x - 1].len());
            buf.cursor.line = x - 1;
            buf.cursor.column = len;
            proof {
                let doc = before.after_backspace();
                lemma_text_valid(buf.lines@);
                assert(buf@ == doc);
                assert(fits_usize(doc.lines)) by {
                    assert forall|i: int| 0 <= i < doc.lines.len() implies #[trigger] doc.lines[i].len()
                        <= usize::MAX by {
                        if i >= x {
                            assert(doc.lines[i] == before.lines[i + 1]);
                        } else if i < x - 1 {
                            assert(doc.lines[i] == before.lines[i]);
                        }
                    }
                }
                lemma_with_active_wf(old(self)@, doc);
            }
        } else {
            proof {
                lemma_removal_fits(before.lines[x as int], y - 1);
            }
            buf.delete_char_at(x, y - 1);
            buf.cursor.column = y - 1;
            proof {
                let doc = before.after_backspace();
                lemma_text_valid(buf.lines@);
                assert(buf@ == doc);
                assert(fits_usize(doc.lines)) by {
                    assert forall|i: int| 0 <= i < doc.lines.len() implies #[trigger] doc.lines[i].len()
                        <= usize::MAX by {
                        if i != x {
                            assert(doc.lines[i] == before.lines[i]);
                        }
                    }
                }
                lemma_with_active_wf(old(self)@, doc);
            }
        }
    }

    /// Inserts `c` at the cursor, and moves the cursor one column right.
    pub fn insert_char(&mut self, c: char)
        requires
            old(self).wf(),
            old(self)@.active().cursor_on_boundary(),
        ensures
            final(self).wf(),
            final(self)@ == old(self)@.with_active(old(self)@.active().after_insert_char(c)),
    {
        let (x, y) = {
            let cursor = self.cursor();
            (cursor.line, cursor.column)
        };
        let ghost before = old(self)@.active();
        proof {
            lemma_remove_inserted(before.lines[x as int], y as int, c);
        }
        let buf = self.current_buffer_mut();
        buf.insert_char_at(c, x, y);
        assert(buf@.lines.len() == before.lines.len());
        assert(buf.lines@.len() == buf@.lines.len());
        // Measuring the grown line bounds the new column, y + 1, by a usize.
        let len = byte_len(&buf.lines[x]);
        assert(len == buf@.lines[x as int].len());
        buf.cursor.column = y + 1;
        proof {
            let doc = before.after_insert_char(c);
            lemma_text_valid(buf.lines@);
            assert(buf@ == doc);
            assert(fits_usize(doc.lines)) by {
                assert forall|i: int| 0 <= i < doc.lines.len() implies #[trigger] doc.lines[i].len()
                    <= usize::MAX by {
                    if i != x {
                        assert(doc.lines[i] == before.lines[i]);
                    }
                }
            }
            lemma_with_active_wf(old(self)@, doc);
        }
    }

    /// What saving the active document writes. Fails with `NoFilename` exactly
    /// when the document has no filename; nothing changes either way.
    pub fn save(&self) -> (r: Result<SaveRequest, EditorError>)
        requires
            self.wf(),
        ensures
            r is Err <==> self@.active().filename is None,
            r matches Err(e) ==> e == EditorError::NoFilename,
            r matches Ok(req) ==> self@.active().filename == Some(req.filename@) && encode_utf8(
                req.contents@,
            ) == file_image(self@.active().lines),
    {
        self.current_buffer().save()
    }

    /// Records that the active document has been written to its file.
    pub fn mark_saved(&mut self)
        requires
            old(self).wf(),
        ensures
            final(self).wf(),
            final(self)@ == old(self)@.with_active(BufferView { dirty: false, ..old(self)@.active() }),
    {
        self.current_buffer_mut().mark_saved();
        proof {
            lemma_with_active_wf(old(self)@, BufferView { dirty: false, ..old(self)@.active() });
        }
    }

    /// Makes the next document active, wrapping from the last to the first.
    pub fn switch_to_next_buffer(&mut self)
        requires
            old(self).wf(),
        ensures
            final(self).wf(),
            final(self)@ == old(self)@.switched_next(),
    {
        let n = self.buffers.len();
        self.current = if self.current + 1 == n {
            0
        } else {
            self.current + 1
        };
    }

    /// Makes the previous document active, wrapping from the first to the last.
    pub fn switch_to_previous_buffer(&mut self)
        requires
            old(self).wf(),
        ensures
            final(self).wf(),
            final(self)@ == old(self)@.switched_previous(),
    {
        let n = self.buffers.len();
        self.current = if self.current == 0 {
            n - 1
        } else {
            self.current - 1
        };
    }

    /// Opens a new, empty document right after the active one and makes it active.
    pub fn new_empty_buffer(&mut self)
        requires
            old(self).wf(),
        ensures
            final(self).wf(),
            final(self)@ == old(self)@.with_new_document(),
    {
        proof {
            assert(self.buffers.len() == self.buffers@.len());
        }
        self.buffers.insert(self.current + 1, Buffer::new());
        proof {
            assert(old(self)@.buffers.insert(old(self)@.current + 1, BufferView::empty())
                =~= self@.buffers);
            assert(valid_utf8(Seq::<u8>::empty()));
            assert(BufferView::empty().is_wf());
            assert(self.wf());
        }
        self.switch_to_next_buffer();
    }

    /// The cursor of the active document.
    pub fn cursor(&self) -> (r: &Cursor)
        requires
            self.wf(),
        ensures
            *r == self@.active().cursor,
    {
        &self.current_buffer().cursor
    }

    /// The cursor of the active document, to change in place.
    pub fn cursor_mut(&mut self) -> (r: &mut Cursor)
        requires
            old(self).wf(),
        ensures
            *r == old(self)@.active().cursor,
            final(self)@ == old(self)@.with_cursor(*final(r)),
    {
        let buf = self.current_buffer_mut();
        &mut buf.cursor
    }

    /// Moves the cursor up.
    pub fn move_up(&mut self)
        requires
            old(self).wf(),
        ensures
            final(self).wf(),
            final(self)@ == old(self)@.with_cursor(
                old(self)@.active().cursor.moved_up(old(self)@.active().lines),
            ),
    {
        let buf = self.current_buffer_mut();
        let mut c = buf.cursor;
        c.move_up(buf.lines.as_slice());
        buf.cursor = c;
        proof {
            lemma_with_active_wf(old(self)@, BufferView { cursor: c, ..old(self)@.active() });
        }
    }

    /// Moves the cursor down.
    pub fn move_down(&mut self)
        requires
            old(self).wf(),
        ensures
            final(self).wf(),
            final(self)@ == old(self)@.with_cursor(
                old(self)@.active().cursor.moved_down(old(self)@.active().lines),
            ),
    {
        let buf = self.current_buffer_mut();
        let mut c = buf.cursor;
        c.move_down(buf.lines.as_slice());
        buf.cursor = c;
        proof {
            lemma_with_active_wf(old(self)@, BufferView { cursor: c, ..old(self)@.active() });
        }
    }

    /// Moves the cursor left.
    pub fn move_left(&mut self)
        requires
            old(self).wf(),
        ensures
            final(self).wf(),
            final(self)@ == old(self)@.with_cursor(
                old(self)@.active().cursor.moved_left(old(self)@.active().lines),
            ),
    {
        let buf = self.current_buffer_mut();
        let mut c = buf.cursor;
        c.move_left(buf.lines.as_slice());
        buf.cursor = c;
        proof {
            lemma_with_active_wf(old(self)@, BufferView { cursor: c, ..old(self)@.active() });
        }
    }

    /// Moves the cursor right.
    pub fn move_right(&mut self)
        requires
            old(self).wf(),
        ensures
            final(self).wf(),
            final(self)@ == old(self)@.with_cursor(
                old(self)@.active().cursor.moved_right(old(self)@.active().lines),
            ),
    {
        let buf = self.current_buffer_mut();
        let mut c = buf.cursor;
        c.move_right(buf.lines.as_slice());
        buf.cursor = c;
        proof {
            lemma_with_active_wf(old(self)@, BufferView { cursor: c, ..old(self)@.active() });
        }
    }
}

} // verus!
