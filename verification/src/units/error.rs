//! Errors of unit operations.

use vstd::prelude::*;

verus! {

/// Dimension vector: the seven SI base dimensions (length, mass, time,
/// current, temperature, amount, luminosity) and one pseudo-dimension for
/// dimensionless categories.
pub type Dimensions = [i8; 8];

/// Errors that can occur during unit operations.
#[derive(Debug, Clone, PartialEq)]
pub enum UnitError {
    DimensionMismatch { expected: Dimensions, found: Dimensions },
    IncompatibleUnits { from: Dimensions, to: Dimensions },
    NotDimensionless { found: Dimensions },
    ParseError { input: String, reason: String },
}

} // verus!
