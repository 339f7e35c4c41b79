use trusty::backend::{Backend, Buffer};
use trusty::cursor::Cursor;

fn current_text(backend: &Backend) -> Vec<String> {
    backend.current_lines().clone()
}

fn backend_with(text: &str) -> Backend {
    let buffer = Buffer::from_file_bytes(String::from("doc.txt"), text.as_bytes().to_vec()).unwrap();
    Backend::new(vec![buffer])
}

#[test]
fn empty_document_typing_scenario() {
    let mut b = Backend::new(Vec::new());
    assert_eq!(current_text(&b), vec![String::new()]);
    assert_eq!(*b.cursor(), Cursor::new(0, 0));

    b.insert_char('a');
    assert_eq!(current_text(&b), vec!["a"]);
    assert_eq!(*b.cursor(), Cursor::new(0, 1));

    b.insert_newline();
    assert_eq!(current_text(&b), vec!["a", ""]);
    assert_eq!(*b.cursor(), Cursor::new(1, 0));

    b.insert_char('b');
    assert_eq!(current_text(&b), vec!["a", "b"]);
    assert_eq!(*b.cursor(), Cursor::new(1, 1));

    b.insert_backspace();
    assert_eq!(current_text(&b), vec!["a", ""]);
    assert_eq!(*b.cursor(), Cursor::new(1, 0));

    b.insert_backspace();
    assert_eq!(current_text(&b), vec!["a"]);
    assert_eq!(*b.cursor(), Cursor::new(0, 1));
}

#[test]
fn insert_then_backspace_restores_line() {
    let mut b = backend_with("hello\nworld\n");
    b.move_down();
    b.move_right();
    b.move_right();
    assert_eq!(*b.cursor(), Cursor::new(1, 2));
    b.insert_char('X');
    assert_eq!(current_text(&b), vec!["hello", "woXrld"]);
    assert_eq!(*b.cursor(), Cursor::new(1, 3));
    b.insert_backspace();
    assert_eq!(current_text(&b), vec!["hello", "world"]);
    assert_eq!(*b.cursor(), Cursor::new(1, 2));
}

#[test]
fn insert_then_backspace_restores_line_with_multibyte_char() {
    let mut b = backend_with("ab\n");
    b.move_right();
    b.insert_char('é');
    assert_eq!(current_text(&b), vec!["aéb"]);
    assert_eq!(*b.cursor(), Cursor::new(0, 2));
    assert_eq!(b.length_of_line(0), 4);
    assert!(!b.cursor_on_boundary());
    assert!(b.backspace_allowed());
    b.insert_backspace();
    assert_eq!(current_text(&b), vec!["ab"]);
    assert_eq!(*b.cursor(), Cursor::new(0, 1));
}

#[test]
fn backspace_at_document_start_does_nothing() {
    let mut b = backend_with("abc\n");
    b.insert_backspace();
    assert_eq!(current_text(&b), vec!["abc"]);
    assert_eq!(*b.cursor(), Cursor::new(0, 0));
    assert!(!b.current_buffer().dirty);
}

#[test]
fn backspace_at_line_start_joins_with_previous_line() {
    let mut b = backend_with("abc\ndef\nghi\n");
    b.move_down();
    b.move_down();
    assert_eq!(*b.cursor(), Cursor::new(2, 0));
    b.insert_backspace();
    assert_eq!(current_text(&b), vec!["abc", "defghi"]);
    assert_eq!(*b.cursor(), Cursor::new(1, 3));
    assert!(b.current_buffer().dirty);
}

#[test]
fn newline_in_middle_of_line_splits_it() {
    let mut b = backend_with("hello\n");
    b.move_right();
    b.move_right();
    b.insert_newline();
    assert_eq!(current_text(&b), vec!["he", "llo"]);
    assert_eq!(*b.cursor(), Cursor::new(1, 0));
    assert_eq!(b.number_of_lines(), 2);
    assert_eq!(b.length_of_line(1), 3);
}

#[test]
fn newline_at_end_of_line_adds_empty_line() {
    let mut b = backend_with("ab\ncd\n");
    b.move_right();
    b.move_right();
    b.insert_newline();
    assert_eq!(current_text(&b), vec!["ab", "", "cd"]);
    assert_eq!(*b.cursor(), Cursor::new(1, 0));
}

#[test]
fn right_then_left_returns_to_start() {
    let mut b = backend_with("ab\nc\n");
    for &(line, column) in &[(0usize, 0usize), (0, 1), (0, 2), (1, 0)] {
        *b.cursor_mut() = Cursor::new(line, column);
        b.move_right();
        b.move_left();
        assert_eq!(*b.cursor(), Cursor::new(line, column));
    }
}

#[test]
fn horizontal_moves_wrap_and_stop_at_document_ends() {
    let mut b = backend_with("ab\nc\n");
    b.move_left();
    assert_eq!(*b.cursor(), Cursor::new(0, 0));
    *b.cursor_mut() = Cursor::new(0, 2);
    b.move_right();
    assert_eq!(*b.cursor(), Cursor::new(1, 0));
    b.move_left();
    assert_eq!(*b.cursor(), Cursor::new(0, 2));
    *b.cursor_mut() = Cursor::new(1, 1);
    b.move_right();
    assert_eq!(*b.cursor(), Cursor::new(1, 1));
}

#[test]
fn vertical_moves_clamp_column() {
    let mut b = backend_with("a\nlonger line\nxy\n");
    *b.cursor_mut() = Cursor::new(1, 8);
    b.move_up();
    assert_eq!(*b.cursor(), Cursor::new(0, 1));
    *b.cursor_mut() = Cursor::new(1, 8);
    b.move_down();
    assert_eq!(*b.cursor(), Cursor::new(2, 2));
    b.move_down();
    assert_eq!(*b.cursor(), Cursor::new(2, 2));
    *b.cursor_mut() = Cursor::new(0, 0);
    b.move_up();
    assert_eq!(*b.cursor(), Cursor::new(0, 0));
    b.move_down();
    assert_eq!(*b.cursor(), Cursor::new(1, 0));
}

#[test]
fn vertical_move_keeps_column_that_fits() {
    let mut b = backend_with("abcdef\nabc\n");
    *b.cursor_mut() = Cursor::new(1, 2);
    b.move_up();
    assert_eq!(*b.cursor(), Cursor::new(0, 2));
}

#[test]
fn cursor_moves_on_given_lines() {
    let lines = vec![String::from("ab"), String::new(), String::from("xyz")];
    let mut c = Cursor::new(2, 3);
    c.move_up(&lines);
    assert_eq!(c, Cursor::new(1, 0));
    c.move_up(&lines);
    assert_eq!(c, Cursor::new(0, 0));
    c.move_right(&lines);
    c.move_right(&lines);
    assert_eq!(c, Cursor::new(0, 2));
    c.move_right(&lines);
    assert_eq!(c, Cursor::new(1, 0));
    c.move_right(&lines);
    assert_eq!(c, Cursor::new(2, 0));
    c.move_left(&lines);
    assert_eq!(c, Cursor::new(1, 0));
    c.move_left(&lines);
    assert_eq!(c, Cursor::new(0, 2));
    c.move_down(&lines);
    assert_eq!(c, Cursor::new(1, 0));
}
