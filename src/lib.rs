//! A text buffer with one edit cursor, for an interactive line editor.
pub mod boundaries;
pub mod edits;
pub mod laws;
pub mod line_buffer;
pub mod text;
pub mod unicode;

pub use line_buffer::LineBuffer;
