use trusty::backend::{Action, Backend, Buffer, Command};
use trusty::cursor::Cursor;

fn backend_with(text: &str) -> Backend {
    let buffer = Buffer::from_file_bytes(String::from("doc.txt"), text.as_bytes().to_vec()).unwrap();
    Backend::new(vec![buffer])
}

#[test]
fn execute_edits_and_moves() {
    let mut b = Backend::new(Vec::new());
    assert!(matches!(b.execute(Command::InsertChar('a')), Action::Redraw));
    assert!(matches!(b.execute(Command::InsertNewline), Action::Redraw));
    assert!(matches!(b.execute(Command::InsertChar('b')), Action::Redraw));
    assert_eq!(b.current_lines().clone(), vec!["a", "b"]);
    assert!(matches!(b.execute(Command::MoveUp), Action::Redraw));
    assert_eq!(*b.cursor(), Cursor::new(0, 1));
    assert!(matches!(b.execute(Command::MoveDown), Action::Redraw));
    assert!(matches!(b.execute(Command::MoveLeft), Action::Redraw));
    assert_eq!(*b.cursor(), Cursor::new(1, 0));
    assert!(matches!(b.execute(Command::DeleteBackward), Action::Redraw));
    assert_eq!(b.current_lines().clone(), vec!["ab"]);
    assert_eq!(*b.cursor(), Cursor::new(0, 1));
    assert!(matches!(b.execute(Command::MoveRight), Action::Redraw));
    assert_eq!(*b.cursor(), Cursor::new(0, 2));
}

#[test]
fn execute_save_asks_for_filename_then_writes() {
    let mut b = Backend::new(Vec::new());
    b.execute(Command::InsertChar('z'));
    assert!(matches!(b.execute(Command::Save), Action::AskFilename));
    assert!(b.current_buffer().dirty);
    b.set_filename(Some(String::from("z.txt")));
    match b.execute(Command::Save) {
        Action::Write(request) => {
            assert_eq!(request.filename, "z.txt");
            assert_eq!(request.contents, "z\n");
        }
        other => panic!("unexpected {:?}", other),
    }
}

#[test]
fn execute_quit_changes_nothing() {
    let mut b = backend_with("abc\n");
    assert!(matches!(b.execute(Command::Quit), Action::Quit));
    assert_eq!(b.current_lines().clone(), vec!["abc"]);
    assert!(!b.current_buffer().dirty);
}

#[test]
fn execute_rejects_edits_inside_a_character() {
    let mut b = backend_with("é\n");
    b.execute(Command::MoveRight);
    assert_eq!(*b.cursor(), Cursor::new(0, 1));
    assert!(matches!(b.execute(Command::InsertChar('x')), Action::Rejected));
    assert!(matches!(b.execute(Command::InsertNewline), Action::Rejected));
    b.execute(Command::MoveRight);
    assert_eq!(*b.cursor(), Cursor::new(0, 2));
    assert!(matches!(b.execute(Command::DeleteBackward), Action::Rejected));
    assert_eq!(b.current_lines().clone(), vec!["é"]);
    assert!(!b.current_buffer().dirty);
}

#[test]
fn execute_document_commands() {
    let mut b = backend_with("one\n");
    assert!(matches!(b.execute(Command::NewDocument), Action::Redraw));
    assert_eq!(*b.filename(), None);
    assert!(matches!(b.execute(Command::NextDocument), Action::Redraw));
    assert_eq!(*b.filename(), Some(String::from("doc.txt")));
    assert!(matches!(b.execute(Command::PreviousDocument), Action::Redraw));
    assert_eq!(*b.filename(), None);
}
