//! Physical units: dimension vectors, unit symbols and the text syntax of
//! quantities and compound units.

pub mod error;
pub mod unit;
pub mod parse;
