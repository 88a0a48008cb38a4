//! A small configuration-file reader.
//!
//! A pull-based character stream assembles newline-terminated lines, and a
//! reader on top of it strips comments, splits `name = value` assignments and
//! classifies each value as an integer, a float, a bare word or a quoted
//! string.  Malformed lines are skipped silently; the end of the source is a
//! plain "nothing left" signal, never an error.

pub mod cfg;
pub mod stream;
pub mod text;
pub mod value;
