//! The text buffer and cursor model of a terminal line editor.
//!
//! A document is a non-empty sequence of lines; each line is a `String`
//! whose columns are byte offsets into its UTF-8 encoding.
pub mod backend;
pub mod cursor;
pub mod file_format;
pub mod text;

pub use backend::{Action, Backend, Buffer, Command, EditorError, SaveRequest};
pub use cursor::Cursor;
