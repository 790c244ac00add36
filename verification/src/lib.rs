//! Core of an interactive line editor: a UTF-8 text buffer with a
//! grapheme-aware cursor, and an edit-command engine with a bounded
//! history and a single-slot kill buffer.

pub mod engine;
pub mod line_buffer;
pub mod text;
