//! Time-annotated values: the time system a text names by its suffix, and
//! the calendar parts of its date.

pub mod error;
pub mod parse;
pub mod leap;
