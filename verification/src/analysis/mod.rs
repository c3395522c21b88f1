//! Analysis bundles: directories ending in `.analysis` that hold a manifest,
//! templates and static files, rendered and run in a container.

pub mod manifest;
pub mod paths;
pub mod outputs;
pub mod execution;
