//! Error reports passed between the processing stages, and whether
//! processing goes on.

use vstd::prelude::*;
use crate::error::VVError;

verus! {

/// Loading a file or directory failed.
pub struct LoadError {
    pub path: String,
    pub error: VVError,
}

/// Some templates need keys no data provides.
pub struct ValidationError {
    pub unmet: Vec<String>,
}

/// Rendering a template failed.
pub struct RenderError {
    pub template_name: String,
    pub error: VVError,
}

/// Reading an analysis manifest failed.
pub struct ManifestError {
    pub path: String,
    pub error: VVError,
}

/// Whether an error has occurred during processing.
pub struct ProcessingStatus {
    pub has_errors: bool,
}

impl ProcessingStatus {
    /// A status with no error recorded.
    pub fn new() -> (res: Self)
        ensures
            !res.has_errors,
    {
        ProcessingStatus { has_errors: false }
    }
}

/// Records that an error has occurred.
pub fn mark_error(status: &mut ProcessingStatus)
    ensures
        final(status).has_errors,
{
    status.has_errors = true;
}

/// Processing goes on while no error has occurred.
pub fn should_continue(status: &ProcessingStatus) -> (res: bool)
    ensures
        res == !status.has_errors,
{
    !status.has_errors
}

} // verus!
