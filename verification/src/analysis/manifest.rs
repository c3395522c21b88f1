//! The parts of an analysis manifest that are plain data, and where a
//! bundle's manifest lives.

use vstd::prelude::*;
use crate::error::VVError;
use crate::path::{extension, push_path, spec_extension, spec_push};

verus! {

/// An input the analysis needs from the project data.
#[derive(Debug, Clone)]
pub struct InputSpec {
    /// Key path in the project data (e.g. `materials.thermal_conductivity`).
    pub key: String,
    /// Whether the input must exist.
    pub required: bool,
}

/// A file the analysis is expected to produce.
#[derive(Debug, Clone)]
pub struct OutputSpec {
    /// File name or relative path of the output.
    pub key: String,
}

/// A template of the bundle and the file it renders to.
#[derive(Debug, Clone)]
pub struct TemplateSpec {
    /// Source template file (e.g. `script.py.j2`).
    pub source: String,
    /// Destination file name after rendering (e.g. `script.py`).
    pub destination: String,
}

/// Inputs are required unless the manifest says otherwise.
pub fn default_true() -> (res: bool)
    ensures
        res,
{
    true
}

/// The memory limit, in megabytes, when the manifest gives none.
pub fn default_memory_mb() -> (res: u64)
    ensures
        res == 512,
{
    512
}

/// The time limit, in seconds, when the manifest gives none.
pub fn default_timeout_seconds() -> (res: u64)
    ensures
        res == 300,
{
    300
}

/// Whether `path` names an analysis bundle: its extension is `analysis`.
/// The file system is not consulted.
pub fn is_analysis_bundle(path: &str) -> (res: bool)
    ensures
        res == (spec_extension(path@) == Some(seq!['a', 'n', 'a', 'l', 'y', 's', 'i', 's'])),
{
    match extension(path) {
        Some(e) => {
            let want: [char; 8] = ['a', 'n', 'a', 'l', 'y', 's', 'i', 's'];
            assert(want@ == seq!['a', 'n', 'a', 'l', 'y', 's', 'i', 's']);
            crate::text::chars_eq(crate::text::chars_of(e.as_str()).as_slice(), &want)
        },
        None => false,
    }
}

/// The file name of a bundle's manifest.
pub open spec fn manifest_file() -> Seq<char> {
    seq!['m', 'a', 'n', 'i', 'f', 'e', 's', 't', '.', 'r', 'o', 'n']
}

/// The path of the manifest in a bundle: `manifest.ron` joined to it.
pub fn manifest_path(bundle_path: &str) -> (res: String)
    ensures
        res@ == spec_push(bundle_path@, manifest_file()),
{
    let name: Vec<char> = vec!['m', 'a', 'n', 'i', 'f', 'e', 's', 't', '.', 'r', 'o', 'n'];
    assert(name@ == manifest_file());
    let n = crate::text::string_from_chars(name.as_slice());
    push_path(bundle_path, n.as_str())
}

/// Where a bundle's manifest is read from: its manifest path when the file
/// exists there (`manifest_exists`), and otherwise the missing-manifest
/// error naming the bundle.
pub fn manifest_location(bundle_path: &str, manifest_exists: bool) -> (res: Result<String, VVError>)
    ensures
        manifest_exists ==> (res matches Ok(p) && p@ == spec_push(bundle_path@, manifest_file())),
        !manifest_exists ==> (res matches Err(VVError::MissingManifest(b)) && b@ == bundle_path@),
{
    if manifest_exists {
        Ok(manifest_path(bundle_path))
    } else {
        Err(VVError::MissingManifest(crate::text::string_from_chars(crate::text::chars_of(bundle_path).as_slice())))
    }
}

/// What a search for bundles does with a directory entry.
#[derive(Debug, Clone, Copy, PartialEq, Eq)]
pub enum BundleSearch {
    /// The entry is a bundle: it is collected and not searched.
    Bundle,
    /// The entry is a directory to search.
    Descend,
    /// The entry is no directory.
    Skip,
}

/// Classifies an entry met while searching a tree for bundles: a directory
/// named as a bundle is one; any other directory is searched; other entries
/// are passed over.
pub fn bundle_search_step(path: &str, is_dir: bool) -> (res: BundleSearch)
    ensures
        !is_dir ==> res == BundleSearch::Skip,
        is_dir && spec_extension(path@) == Some(seq!['a', 'n', 'a', 'l', 'y', 's', 'i', 's']) ==> res == BundleSearch::Bundle,
        is_dir && spec_extension(path@) != Some(seq!['a', 'n', 'a', 'l', 'y', 's', 'i', 's']) ==> res == BundleSearch::Descend,
{
    if !is_dir {
        BundleSearch::Skip
    } else if is_analysis_bundle(path) {
        BundleSearch::Bundle
    } else {
        BundleSearch::Descend
    }
}

} // verus!
