//! Errors of time parsing and conversion.

use vstd::prelude::*;

verus! {

/// Errors that can occur during time parsing and conversion.
#[derive(Debug, Clone, PartialEq)]
pub enum TimeError {
    ParseError { input: String, reason: String },
    InvalidTimeSystem { system: String },
    LeapSecondTableError { reason: String },
}

} // verus!
