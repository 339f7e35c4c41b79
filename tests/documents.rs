use trusty::backend::{Backend, Buffer, EditorError};
use trusty::cursor::Cursor;
use trusty::file_format::{join_lines, split_lines};

fn open(name: &str, text: &[u8]) -> Buffer {
    Buffer::from_file_bytes(String::from(name), text.to_vec()).unwrap()
}

fn buffer_lines(buffer: &Buffer, count: usize) -> Vec<String> {
    (0..count).map(|i| buffer.get_line(i).clone()).collect()
}

#[test]
fn save_without_filename_fails_and_keeps_dirty() {
    let mut b = Backend::new(Vec::new());
    b.insert_char('x');
    assert!(b.current_buffer().dirty);
    assert_eq!(b.save().unwrap_err(), EditorError::NoFilename);
    assert!(b.current_buffer().dirty);
    assert_eq!(*b.filename(), None);
}

#[test]
fn save_after_set_filename_writes_every_line_with_newline() {
    let mut b = Backend::new(Vec::new());
    b.insert_char('a');
    b.insert_newline();
    b.set_filename(Some(String::from("out.txt")));
    assert_eq!(*b.filename(), Some(String::from("out.txt")));
    let request = b.save().unwrap();
    assert_eq!(request.filename, "out.txt");
    assert_eq!(request.contents, "a\n\n");
    assert!(b.current_buffer().dirty);
    b.mark_saved();
    assert!(!b.current_buffer().dirty);
}

#[test]
fn switch_next_wraps_around_two_documents() {
    let mut b = Backend::new(vec![open("first", b"one\n"), open("second", b"two\n")]);
    assert_eq!(*b.filename(), Some(String::from("first")));
    b.switch_to_next_buffer();
    assert_eq!(*b.filename(), Some(String::from("second")));
    assert_eq!(b.current_lines().clone(), vec!["two"]);
    b.switch_to_next_buffer();
    assert_eq!(*b.filename(), Some(String::from("first")));
}

#[test]
fn switch_previous_wraps_around() {
    let mut b = Backend::new(vec![open("a", b""), open("b", b""), open("c", b"")]);
    b.switch_to_previous_buffer();
    assert_eq!(*b.filename(), Some(String::from("c")));
    b.switch_to_previous_buffer();
    assert_eq!(*b.filename(), Some(String::from("b")));
}

#[test]
fn switching_with_one_document_stays() {
    let mut b = Backend::new(vec![open("only", b"x\n")]);
    b.switch_to_next_buffer();
    assert_eq!(*b.filename(), Some(String::from("only")));
    b.switch_to_previous_buffer();
    assert_eq!(*b.filename(), Some(String::from("only")));
}

#[test]
fn new_empty_buffer_goes_after_active_and_becomes_active() {
    let mut b = Backend::new(vec![open("a", b"1\n"), open("b", b"2\n")]);
    b.new_empty_buffer();
    assert_eq!(*b.filename(), None);
    assert_eq!(b.current_lines().clone(), vec![""]);
    assert_eq!(*b.cursor(), Cursor::new(0, 0));
    assert!(!b.current_buffer().dirty);
    b.switch_to_next_buffer();
    assert_eq!(*b.filename(), Some(String::from("b")));
    b.switch_to_next_buffer();
    assert_eq!(*b.filename(), Some(String::from("a")));
}

#[test]
fn edits_stay_in_active_document() {
    let mut b = Backend::new(vec![open("a", b"1\n"), open("b", b"2\n")]);
    b.switch_to_next_buffer();
    b.insert_char('x');
    assert_eq!(b.current_lines().clone(), vec!["x2"]);
    b.switch_to_next_buffer();
    assert_eq!(b.current_lines().clone(), vec!["1"]);
    assert!(!b.current_buffer().dirty);
}

#[test]
fn current_buffer_mut_edits_active_document() {
    let mut b = Backend::new(vec![open("a", b"abc\n")]);
    b.current_buffer_mut().insert_char_at('Z', 0, 3);
    assert_eq!(b.current_lines().clone(), vec!["abcZ"]);
}

#[test]
fn new_buffer_is_empty_and_clean() {
    let buffer = Buffer::new();
    assert_eq!(buffer.filename, None);
    assert!(!buffer.dirty);
    assert_eq!(buffer.get_line(0), "");
}

#[test]
fn open_splits_lines_and_strips_carriage_returns() {
    let buffer = open("f", b"one\r\ntwo\n\nthree");
    assert_eq!(buffer_lines(&buffer, 4), vec!["one", "two", "", "three"]);
    assert_eq!(buffer.filename, Some(String::from("f")));
    assert!(!buffer.dirty);
}

#[test]
fn open_empty_file_gives_one_empty_line() {
    let buffer = open("empty", b"");
    let b = Backend::new(vec![buffer]);
    assert_eq!(b.current_lines().clone(), vec![""]);
    assert_eq!(b.number_of_lines(), 1);
}

#[test]
fn open_invalid_utf8_fails_with_encoding_error() {
    let r = Buffer::from_file_bytes(String::from("bad"), vec![b'a', 0xff, b'\n']);
    assert_eq!(r.unwrap_err(), EditorError::Encoding);
}

#[test]
fn save_then_open_gives_same_lines() {
    let buffer = open("f", b"one\r\ntwo\n\nthree");
    let request = buffer.save().unwrap();
    assert_eq!(request.contents, "one\ntwo\n\nthree\n");
    let reopened = open("f", request.contents.as_bytes());
    assert_eq!(buffer_lines(&reopened, 4), buffer_lines(&buffer, 4));
    let again = reopened.save().unwrap();
    assert_eq!(again.contents, request.contents);
}

#[test]
fn save_then_open_keeps_empty_last_line() {
    let mut b = Backend::new(vec![open("f", b"a")]);
    b.move_right();
    b.insert_newline();
    let request = b.save().unwrap();
    assert_eq!(request.contents, "a\n\n");
    let reopened = Backend::new(vec![open("f", request.contents.as_bytes())]);
    assert_eq!(reopened.current_lines().clone(), vec!["a", ""]);
}

#[test]
fn split_lines_follows_line_endings() {
    assert_eq!(split_lines(""), Vec::<String>::new());
    assert_eq!(split_lines("\n"), vec![""]);
    assert_eq!(split_lines("a\r"), vec!["a\r"]);
    assert_eq!(split_lines("a\r\n"), vec!["a"]);
    assert_eq!(split_lines("a\r\r\nb"), vec!["a\r", "b"]);
    assert_eq!(split_lines("é\nü\n"), vec!["é", "ü"]);
}

#[test]
fn join_lines_ends_every_line_with_newline() {
    let lines = vec![String::from("a"), String::new(), String::from("é")];
    assert_eq!(join_lines(&lines), "a\n\né\n");
    assert_eq!(join_lines(&[]), "");
}

#[test]
fn split_then_join_restores_buffer() {
    let mut buffer = open("f", b"ab\ncd\nef\n");
    buffer.split_line_into_two_at(1, 1);
    assert_eq!(buffer_lines(&buffer, 4), vec!["ab", "c", "d", "ef"]);
    assert!(buffer.dirty);
    buffer.join_lines_at(2);
    assert_eq!(buffer_lines(&buffer, 3), vec!["ab", "cd", "ef"]);
}

#[test]
fn split_line_at_returns_both_halves() {
    let buffer = open("f", b"hello\n");
    let (a, b) = buffer.split_line_at(0, 2);
    assert_eq!(a, "he");
    assert_eq!(b, "llo");
    assert!(!buffer.dirty);
}

#[test]
fn buffer_char_edits_mark_dirty() {
    let mut buffer = open("f", b"abc\n");
    buffer.insert_char_at('é', 0, 1);
    assert_eq!(buffer.get_line(0), "aébc");
    assert!(buffer.dirty);
    buffer.delete_char_at(0, 1);
    assert_eq!(buffer.get_line(0), "abc");
    buffer.delete_char_at(0, 2);
    assert_eq!(buffer.get_line(0), "ab");
}

#[test]
fn buffer_line_insertions_mark_dirty() {
    let mut buffer = open("f", b"a\nb\n");
    buffer.insert_newline_at(1, String::from("mid"));
    assert!(buffer.dirty);
    buffer.push_newline(String::from("end"));
    buffer.insert_newline_at(4, String::from("last"));
    assert_eq!(buffer_lines(&buffer, 5), vec!["a", "mid", "b", "end", "last"]);
    buffer.mark_saved();
    assert!(!buffer.dirty);
}
