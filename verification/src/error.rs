//! Errors reported by the engine's own logic.

use vstd::prelude::*;

verus! {

/// Errors raised while loading, checking and rendering a project.
#[derive(Debug, Clone, PartialEq, Eq)]
pub enum VVError {
    UnsupportedFileType(String),
    NoValidExtension(String),
    EmptyDataFile(String),
    NotDirectory(String),
    CantParseDirectory(String),
    FileNotFound(String),
    NotAFile(String),
    InvalidVvArchive(String),
    Io(String),
    Utf8(String),
    Zip(String),
    Xml(String),
    ArchiveFinished(String),
    PathTraversal(String),
    XlsxFormat(String),
    /// A data file that its format's reader refused: the format and the
    /// reader's message.
    Parse { format: String, message: String },
    /// A template that failed to compile or render, with the message.
    Template(String),
    UnmetDependencies(Vec<String>),
    CircularDependency { cycle: Vec<String> },
    MissingManifest(String),
    InvalidManifest { path: String, message: String },
    MissingStaticFile { bundle: String, file: String },
    MissingTemplateFile { bundle: String, file: String },
    DockerNotAvailable(String),
    DockerImageNotFound(String),
    ContainerCreateFailed(String),
    ContainerStartFailed(String),
    ContainerWaitFailed(String),
    ContainerFailed { exit_code: i64, stderr: String },
    ContainerTimeout(u64),
    ContainerCleanupFailed(String),
    MissingOutput { analysis_output_dir: String, expected_file: String },
    MissingProjectInput,
    ConflictingOutputFlags,
    InputNotFound { kind: String, path: String },
    InitDirectoryNotFound(String),
    InitFileExists(String),
}

} // verus!
