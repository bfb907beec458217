//! Newline normalization for UTF-8 text.
//!
//! Text is rewritten so that every line break, whether written as `\r\n`, a
//! lone `\r` or a lone `\n`, takes one fixed form: `\n` (unix) or `\r\n`
//! (dos). Text that already has the wanted form is handed back borrowed, with
//! nothing copied.
//!
//! - [`model`] says what the rewritten bytes are;
//! - [`text`] says the same of characters, and ties the two together;
//! - [`search`] finds the next line-break byte;
//! - [`unix`] and [`dos`] hold the two rewrites;
//! - [`laws`] states what holds of them for every text.

pub mod dos;
pub mod laws;
pub mod model;
pub mod search;
pub mod text;
pub mod unix;

pub use crate::dos::{ToDosNewlines, dos_newline_bytes};
pub use crate::unix::{ToUnixNewlines, unix_newline_bytes};
