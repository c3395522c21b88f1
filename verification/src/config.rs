//! The engine's configuration: where input comes from, where output goes,
//! and which file extensions count as templates and as data.

use vstd::prelude::*;
use crate::error::VVError;
use crate::path::{extension, push_path, spec_extension, spec_push, spec_parent};
use crate::text::{chars_eq, chars_of, string_from_chars, string_views};

verus! {

/// The kind of input source.
#[derive(Clone, Debug, PartialEq)]
pub enum InputType {
    /// A directory on the file system.
    Directory(String),
    /// A `.vv` zip archive.
    ZipArchive(String),
}

/// Where output is written.
#[derive(Clone, Debug, PartialEq)]
pub enum OutputType {
    /// `_output/` inside the input.
    InPlace,
    /// A copy of the project in a directory, `_output/` inside it.
    Directory(String),
    /// A `.vv` archive holding the project and `_output/`.
    Archive(String),
}

/// The extension of archive files.
pub open spec fn vv_ext() -> Seq<char> {
    seq!['v', 'v']
}

/// Whether the path has the `.vv` extension.
pub fn has_vv_extension(path: &str) -> (res: bool)
    ensures
        res == (spec_extension(path@) == Some(vv_ext())),
{
    match extension(path) {
        Some(e) => {
            let vv: [char; 2] = ['v', 'v'];
            assert(vv@ == vv_ext());
            chars_eq(chars_of(e.as_str()).as_slice(), &vv)
        },
        None => false,
    }
}

fn copy_string(s: &String) -> (res: String)
    ensures
        res@ == s@,
{
    string_from_chars(chars_of(s.as_str()).as_slice())
}

/// The input type of a path: an archive for a `.vv` file, a directory for
/// a directory, nothing otherwise. Whether the path is a file and whether it
/// is a directory are what the file system says.
pub fn detect_input_type(path: &str, is_file: bool, is_dir: bool) -> (res: Option<InputType>)
    ensures
        if spec_extension(path@) == Some(vv_ext()) {
            if is_file { res matches Some(InputType::ZipArchive(p)) && p@ == path@ } else { res is None }
        } else if is_dir {
            res matches Some(InputType::Directory(p)) && p@ == path@
        } else {
            res is None
        },
{
    let p = string_from_chars(chars_of(path).as_slice());
    if has_vv_extension(path) {
        if is_file { Some(InputType::ZipArchive(p)) } else { None }
    } else if is_dir {
        Some(InputType::Directory(p))
    } else {
        None
    }
}

/// The path of an input.
pub fn input_type_path(input_type: &InputType) -> (res: &String)
    ensures
        match input_type {
            InputType::Directory(p) => res == p,
            InputType::ZipArchive(p) => res == p,
        },
{
    match input_type {
        InputType::Directory(p) => p,
        InputType::ZipArchive(p) => p,
    }
}

/// The engine's configuration.
#[derive(Clone)]
pub struct VVConfig {
    pub input_type: InputType,
    pub output_type: OutputType,
    /// Subdirectory for output files, relative to the project.
    pub output_subdir: String,
    /// Template file extensions.
    pub template_extensions: Vec<String>,
    /// Data file extensions.
    pub data_extensions: Vec<String>,
}

/// The default output subdirectory.
pub open spec fn default_output_subdir() -> Seq<char> {
    seq!['_', 'o', 'u', 't', 'p', 'u', 't']
}

/// The default template extensions.
pub open spec fn default_template_extensions() -> Seq<Seq<char>> {
    seq![seq!['j', '2'], seq!['j', 'i', 'n', 'j', 'a'], seq!['j', 'i', 'n', 'j', 'a', '2'], seq!['t', 'm', 'p', 'l']]
}

/// The default data extensions.
pub open spec fn default_data_extensions() -> Seq<Seq<char>> {
    seq![
        seq!['j', 's', 'o', 'n'], seq!['y', 'a', 'm', 'l'], seq!['y', 'm', 'l'], seq!['t', 'o', 'm', 'l'],
        seq!['r', 'o', 'n'], seq!['m', 's', 'g', 'p', 'a', 'c', 'k'], seq!['m', 'p'],
        seq!['p', 'i', 'c', 'k', 'l', 'e'], seq!['p', 'k', 'l'], seq!['c', 'b', 'o', 'r'], seq!['b', 's', 'o', 'n'],
        seq!['c', 's', 'v'], seq!['x', 'l', 's', 'x'], seq!['m', 'd']
    ]
}

fn strings_of(v: Vec<Vec<char>>) -> (res: Vec<String>)
    ensures
        string_views(res@) == crate::text::views(v@),
{
    let mut out: Vec<String> = Vec::new();
    let mut i: usize = 0;
    while i < v.len()
        invariant
            i <= v.len(),
            string_views(out@) == crate::text::views(v@).take(i as int),
        decreases v.len() - i,
    {
        let ghost before = string_views(out@);
        out.push(string_from_chars(v[i].as_slice()));
        assert(string_views(out@) == before.push(v@[i as int]@));
        assert(crate::text::views(v@).take(i + 1) == crate::text::views(v@).take(i as int).push(v@[i as int]@));
        i = i + 1;
    }
    assert(crate::text::views(v@).take(v.len() as int) == crate::text::views(v@));
    out
}

impl VVConfig {
    /// The default configuration: an empty directory input, output in
    /// place under `_output`, the usual template and data extensions.
    pub fn default_config() -> (res: Self)
        ensures
            res.input_type matches InputType::Directory(p) && p@.len() == 0,
            res.output_type == OutputType::InPlace,
            res.output_subdir@ == default_output_subdir(),
            string_views(res.template_extensions@) == default_template_extensions(),
            string_views(res.data_extensions@) == default_data_extensions(),
    {
        let t: Vec<Vec<char>> = vec![vec!['j', '2'], vec!['j', 'i', 'n', 'j', 'a'], vec!['j', 'i', 'n', 'j', 'a', '2'], vec!['t', 'm', 'p', 'l']];
        assert(crate::text::views(t@) =~= default_template_extensions());
        let d: Vec<Vec<char>> = vec![
            vec!['j', 's', 'o', 'n'], vec!['y', 'a', 'm', 'l'], vec!['y', 'm', 'l'], vec!['t', 'o', 'm', 'l'],
            vec!['r', 'o', 'n'], vec!['m', 's', 'g', 'p', 'a', 'c', 'k'], vec!['m', 'p'],
            vec!['p', 'i', 'c', 'k', 'l', 'e'], vec!['p', 'k', 'l'], vec!['c', 'b', 'o', 'r'], vec!['b', 's', 'o', 'n'],
            vec!['c', 's', 'v'], vec!['x', 'l', 's', 'x'], vec!['m', 'd'],
        ];
        assert(crate::text::views(d@) =~= default_data_extensions());
        let sub: Vec<char> = vec!['_', 'o', 'u', 't', 'p', 'u', 't'];
        assert(sub@ == default_output_subdir());
        VVConfig {
            input_type: InputType::Directory(String::new()),
            output_type: OutputType::InPlace,
            output_subdir: string_from_chars(sub.as_slice()),
            template_extensions: strings_of(t),
            data_extensions: strings_of(d),
        }
    }
}

impl Default for VVConfig {
    /// The default configuration (see `default_config`).
    fn default() -> (res: Self)
        ensures
            res.input_type matches InputType::Directory(p) && p@.len() == 0,
            res.output_type == OutputType::InPlace,
            res.output_subdir@ == default_output_subdir(),
            string_views(res.template_extensions@) == default_template_extensions(),
            string_views(res.data_extensions@) == default_data_extensions(),
    {
        VVConfig::default_config()
    }
}

/// The configuration for the given input and output, defaults otherwise.
pub fn config_with_input_and_output(input_type: InputType, output_type: OutputType) -> (res: VVConfig)
    ensures
        res.input_type == input_type,
        res.output_type == output_type,
        res.output_subdir@ == default_output_subdir(),
        string_views(res.template_extensions@) == default_template_extensions(),
        string_views(res.data_extensions@) == default_data_extensions(),
{
    let d = VVConfig::default_config();
    VVConfig { input_type, output_type, ..d }
}

/// The configuration for the given input, output in place.
pub fn config_with_input_type(input_type: InputType) -> (res: VVConfig)
    ensures
        res.input_type == input_type,
        res.output_type == OutputType::InPlace,
        res.output_subdir@ == default_output_subdir(),
        string_views(res.template_extensions@) == default_template_extensions(),
        string_views(res.data_extensions@) == default_data_extensions(),
{
    config_with_input_and_output(input_type, OutputType::InPlace)
}

/// The configuration for a project directory, output in place.
pub fn new_config(project_dir: String) -> (res: VVConfig)
    ensures
        res.input_type == InputType::Directory(project_dir),
        res.output_type == OutputType::InPlace,
        res.output_subdir@ == default_output_subdir(),
        string_views(res.template_extensions@) == default_template_extensions(),
        string_views(res.data_extensions@) == default_data_extensions(),
{
    config_with_input_type(InputType::Directory(project_dir))
}

/// The input path.
pub fn input_path(config: &VVConfig) -> (res: String)
    ensures
        match config.input_type {
            InputType::Directory(p) => res@ == p@,
            InputType::ZipArchive(p) => res@ == p@,
        },
{
    copy_string(input_type_path(&config.input_type))
}

/// The output directory: the output subdirectory inside the input
/// directory, or beside an input archive, or inside the output directory;
/// for an output archive the subdirectory itself.
pub open spec fn spec_output_path(c: VVConfig) -> Seq<char> {
    match c.output_type {
        OutputType::InPlace => match c.input_type {
            InputType::Directory(d) => spec_push(d@, c.output_subdir@),
            InputType::ZipArchive(a) => spec_push(spec_parent(a@), c.output_subdir@),
        },
        OutputType::Directory(d) => spec_push(d@, c.output_subdir@),
        OutputType::Archive(_) => c.output_subdir@,
    }
}

/// Computes `spec_output_path`.
pub fn output_path(config: &VVConfig) -> (res: String)
    ensures
        res@ == spec_output_path(*config),
{
    match &config.output_type {
        OutputType::InPlace => match &config.input_type {
            InputType::Directory(d) => push_path(d.as_str(), config.output_subdir.as_str()),
            InputType::ZipArchive(a) => {
                let parent = crate::path::parent_path(a.as_str());
                push_path(parent.as_str(), config.output_subdir.as_str())
            },
        },
        OutputType::Directory(d) => push_path(d.as_str(), config.output_subdir.as_str()),
        OutputType::Archive(_) => copy_string(&config.output_subdir),
    }
}

/// The root the project is copied to, when output is not in place.
pub fn copy_root_path(config: &VVConfig) -> (res: Option<String>)
    ensures
        match config.output_type {
            OutputType::InPlace => res is None,
            OutputType::Directory(d) => res matches Some(p) && p@ == d@,
            OutputType::Archive(a) => res matches Some(p) && p@ == a@,
        },
{
    match &config.output_type {
        OutputType::InPlace => None,
        OutputType::Directory(d) => Some(copy_string(d)),
        OutputType::Archive(a) => Some(copy_string(a)),
    }
}

/// Whether the input is a zip archive.
pub fn is_zip_archive(config: &VVConfig) -> (res: bool)
    ensures
        res == (config.input_type is ZipArchive),
{
    match config.input_type {
        InputType::ZipArchive(_) => true,
        InputType::Directory(_) => false,
    }
}

fn contains_string(list: &Vec<String>, s: &str) -> (res: bool)
    ensures
        res == string_views(list@).contains(s@),
{
    let sc = chars_of(s);
    let mut i: usize = 0;
    while i < list.len()
        invariant
            i <= list.len(),
            sc@ == s@,
            forall|j: int| 0 <= j < i ==> list@[j]@ != s@,
        decreases list.len() - i,
    {
        if chars_eq(chars_of(list[i].as_str()).as_slice(), sc.as_slice()) {
            assert(string_views(list@)[i as int] == s@);
            return true;
        }
        i = i + 1;
    }
    proof {
        if string_views(list@).contains(s@) {
            let j = choose|j: int| 0 <= j < string_views(list@).len() && string_views(list@)[j] == s@;
            assert(list@[j]@ == s@);
        }
    }
    false
}

/// Whether `ext` is one of the template extensions.
pub fn is_template_extension(config: &VVConfig, ext: &str) -> (res: bool)
    ensures
        res == string_views(config.template_extensions@).contains(ext@),
{
    contains_string(&config.template_extensions, ext)
}

/// Whether `ext` is one of the data extensions.
pub fn is_data_extension(config: &VVConfig, ext: &str) -> (res: bool)
    ensures
        res == string_views(config.data_extensions@).contains(ext@),
{
    contains_string(&config.data_extensions, ext)
}

/// Checks the command-line arguments and gives back the project path: a
/// project must be given, at most one of the output options, and the
/// project must be an archive file (`.vv`) or a directory, as the file
/// system says (`project_is_file`, `project_is_dir`).
pub fn validate_run_args(
    project: &Option<String>,
    output_dir: &Option<String>,
    output_file: &Option<String>,
    project_is_file: bool,
    project_is_dir: bool,
) -> (res: Result<String, VVError>)
    ensures
        match project {
            None => res == Err::<String, VVError>(VVError::MissingProjectInput),
            Some(p) => if output_dir.is_some() && output_file.is_some() {
                res == Err::<String, VVError>(VVError::ConflictingOutputFlags)
            } else if spec_extension(p@) == Some(vv_ext()) {
                if project_is_file {
                    res matches Ok(q) && q@ == p@
                } else {
                    res matches Err(VVError::InputNotFound { kind, path }) && kind@ == seq!['A', 'r', 'c', 'h', 'i', 'v', 'e'] && path@ == p@
                }
            } else if project_is_dir {
                res matches Ok(q) && q@ == p@
            } else {
                res matches Err(VVError::InputNotFound { kind, path }) && kind@ == seq!['D', 'i', 'r', 'e', 'c', 't', 'o', 'r', 'y'] && path@ == p@
            },
        },
{
    let p = match project {
        None => return Err(VVError::MissingProjectInput),
        Some(p) => p,
    };
    if output_dir.is_some() && output_file.is_some() {
        return Err(VVError::ConflictingOutputFlags);
    }
    if has_vv_extension(p.as_str()) {
        if !project_is_file {
            let k: Vec<char> = vec!['A', 'r', 'c', 'h', 'i', 'v', 'e'];
            return Err(VVError::InputNotFound { kind: string_from_chars(k.as_slice()), path: copy_string(p) });
        }
    } else if !project_is_dir {
        let k: Vec<char> = vec!['D', 'i', 'r', 'e', 'c', 't', 'o', 'r', 'y'];
        return Err(VVError::InputNotFound { kind: string_from_chars(k.as_slice()), path: copy_string(p) });
    }
    Ok(copy_string(p))
}

} // verus!
