//! Cursor navigation over an immutable UTF-8 text buffer.
//!
//! The buffer is treated as a sequence of extended grapheme clusters; a
//! cursor position is a triple of column, line and byte offset that stays
//! consistent while the cursor moves by graphemes or by lines in either
//! direction.

pub mod buffer;
pub mod cursor;
pub mod document;
pub mod plane;
pub mod unicode;
