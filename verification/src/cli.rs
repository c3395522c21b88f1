//! The decisions of the command line: where output goes, when to ask
//! before overwriting, and how answers are read.

use vstd::prelude::*;
use crate::config::{has_vv_extension, vv_ext, OutputType};
use crate::node::parts_prefix;
use crate::path::{file_name_chars, path_parts, spec_extension, spec_file_name, spec_file_stem, spec_stem_ext, stem_ext_chars, trim_end_spec};
use crate::source::components;
use crate::text::{chars_of, extend, string_from_chars, trim_chars, trim_spec};

verus! {

/// Whether two paths conflict: the paths (as the file system resolves
/// them) are equal, or one is inside the other.
pub open spec fn spec_paths_conflict(input: Seq<char>, output: Seq<char>) -> bool {
    components(input) == components(output)
        || parts_prefix(components(input), components(output))
        || parts_prefix(components(output), components(input))
}

fn components_of(p: &str) -> (res: Vec<Vec<char>>)
    ensures
        crate::text::views(res@) == components(p@),
{
    let c = chars_of(p);
    let parts = crate::path::parts_of(c.as_slice());
    let mut out: Vec<Vec<char>> = Vec::new();
    if c.len() > 0 && c[0] == '/' {
        let root: Vec<char> = vec!['/'];
        assert(root@ == seq!['/']);
        out.push(root);
        assert(crate::text::views(out@) =~= seq![seq!['/']]);
    } else {
        assert(crate::text::views(out@) =~= Seq::<Seq<char>>::empty());
    }
    let ghost start = crate::text::views(out@);
    assert(start == if crate::node::is_absolute(p@) { seq![seq!['/']] } else { Seq::<Seq<char>>::empty() });
    let mut i: usize = 0;
    while i < parts.len()
        invariant
            i <= parts.len(),
            crate::text::views(out@) == start + crate::text::views(parts@).take(i as int),
        decreases parts.len() - i,
    {
        proof { crate::text::lemma_views_push(out@, parts@[i as int]); }
        out.push(parts[i].clone());
        assert(crate::text::views(parts@).take(i + 1) == crate::text::views(parts@).take(i as int).push(parts@[i as int]@));
        i = i + 1;
    }
    assert(crate::text::views(parts@).take(parts.len() as int) == crate::text::views(parts@));
    out
}

/// Whether two paths are the same path, compared by components.
pub fn same_path(a: &str, b: &str) -> (res: bool)
    ensures
        res == (components(a@) == components(b@)),
{
    crate::path::parts_equal(&components_of(a), &components_of(b))
}

/// Whether two paths conflict. The paths are given as the file system
/// resolves them (canonical, where they exist).
pub fn paths_conflict(input: &str, output: &str) -> (res: bool)
    ensures
        res == spec_paths_conflict(input@, output@),
{
    let a = components_of(input);
    let b = components_of(output);
    crate::path::parts_equal(&a, &b) || crate::node::parts_starts_with(&b, &a) || crate::node::parts_starts_with(&a, &b)
}

/// `PathBuf::set_extension`: the text up to the end of the file stem (what
/// followed it dropped), then `.` and `ext` when `ext` is not empty; the
/// path unchanged when it has no file name.
pub open spec fn spec_set_extension(p: Seq<char>, ext: Seq<char>) -> Seq<char> {
    match spec_file_name(p) {
        None => p,
        Some(name) => {
            let q = trim_end_spec(p);
            let stem = spec_stem_ext(name).0;
            let d = name.len() - stem.len();
            let kept = if q.len() >= d { q.take(q.len() - d) } else { Seq::<char>::empty() };
            if ext.len() == 0 { kept } else { kept + seq!['.'] + ext }
        },
    }
}

/// Computes `spec_set_extension`.
pub fn set_extension(p: &str, ext: &str) -> (res: String)
    ensures
        res@ == spec_set_extension(p@, ext@),
{
    let pc = chars_of(p);
    match file_name_chars(pc.as_slice()) {
        None => string_from_chars(pc.as_slice()),
        Some(name) => {
            let q = crate::path::trim_end_path(pc.as_slice());
            let (stem, _) = stem_ext_chars(name.as_slice());
            proof { crate::text::lemma_last_index_of(name@, '.'); }
            assert(stem.len() <= name.len());
            let d = name.len() - stem.len();
            let mut kept = if q.len() >= d {
                let k = crate::text::sub_chars(q.as_slice(), 0, q.len() - d);
                assert(k@ == q@.take(q.len() - d));
                k
            } else {
                Vec::new()
            };
            let e = chars_of(ext);
            if e.len() > 0 {
                kept.push('.');
                extend(&mut kept, e.as_slice());
            }
            string_from_chars(kept.as_slice())
        },
    }
}

/// What to do next in choosing the output.
pub enum OutputDecision {
    /// Stop with this message.
    Fail(String),
    /// Ask the question; go on with `output` on a yes, stop otherwise.
    Ask { question: String, output: OutputType },
    /// Go on with `output`.
    Proceed(OutputType),
}

/// What the file system says about the chosen output.
pub struct OutputFacts {
    /// The output directory conflicts with the project (see `paths_conflict`).
    pub dir_conflicts: bool,
    /// The output directory exists and is not empty.
    pub dir_not_empty: bool,
    /// The output archive (after `.vv` was added where missing) exists.
    pub file_exists: bool,
}

/// The output archive path: the given one when it has the `.vv`
/// extension, otherwise with its extension set to `vv`.
pub open spec fn spec_archive_output(file: Seq<char>) -> Seq<char> {
    if spec_extension(file) == Some(vv_ext()) { file } else { spec_set_extension(file, vv_ext()) }
}

/// The output archive path, and whether `.vv` had to be added.
pub fn archive_output_path(file: &str) -> (res: (String, bool))
    ensures
        res.0@ == spec_archive_output(file@),
        res.1 == (spec_extension(file@) != Some(vv_ext())),
{
    if has_vv_extension(file) {
        (string_from_chars(chars_of(file).as_slice()), false)
    } else {
        let vv: Vec<char> = vec!['v', 'v'];
        assert(vv@ == vv_ext());
        (set_extension(file, string_from_chars(vv.as_slice()).as_str()), true)
    }
}

/// `Directory <dir> exists and is not empty. Overwrite?`
pub open spec fn dir_question(dir: Seq<char>) -> Seq<char> {
    seq!['D', 'i', 'r', 'e', 'c', 't', 'o', 'r', 'y', ' '] + dir
        + seq![' ', 'e', 'x', 'i', 's', 't', 's', ' ', 'a', 'n', 'd', ' ', 'i', 's', ' ', 'n', 'o', 't', ' ', 'e', 'm', 'p', 't', 'y', '.', ' ', 'O', 'v', 'e', 'r', 'w', 'r', 'i', 't', 'e', '?']
}

/// `File <file> already exists. Overwrite?`
pub open spec fn file_question(file: Seq<char>) -> Seq<char> {
    seq!['F', 'i', 'l', 'e', ' '] + file
        + seq![' ', 'a', 'l', 'r', 'e', 'a', 'd', 'y', ' ', 'e', 'x', 'i', 's', 't', 's', '.', ' ', 'O', 'v', 'e', 'r', 'w', 'r', 'i', 't', 'e', '?']
}

/// The message when the output directory is the input or inside it.
pub open spec fn dir_conflict_message() -> Seq<char> {
    seq!['E', 'r', 'r', 'o', 'r', ':', ' ', 'O', 'u', 't', 'p', 'u', 't', ' ', 'd', 'i', 'r', 'e', 'c', 't', 'o', 'r', 'y', ' ',
        'c', 'a', 'n', 'n', 'o', 't', ' ', 'b', 'e', ' ', 't', 'h', 'e', ' ', 's', 'a', 'm', 'e', ' ', 'a', 's', ' ', 'o', 'r', ' ',
        'i', 'n', 's', 'i', 'd', 'e', ' ', 't', 'h', 'e', ' ', 'i', 'n', 'p', 'u', 't', ' ',
        'd', 'i', 'r', 'e', 'c', 't', 'o', 'r', 'y']
}

/// The message when the output archive is the input.
pub open spec fn file_conflict_message() -> Seq<char> {
    seq!['E', 'r', 'r', 'o', 'r', ':', ' ', 'O', 'u', 't', 'p', 'u', 't', ' ', 'f', 'i', 'l', 'e', ' ',
        'c', 'a', 'n', 'n', 'o', 't', ' ', 'b', 'e', ' ', 't', 'h', 'e', ' ', 's', 'a', 'm', 'e', ' ', 'a', 's', ' ',
        't', 'h', 'e', ' ', 'i', 'n', 'p', 'u', 't', ' ', 'f', 'i', 'l', 'e']
}

/// The decision as plain values: (kind, text, output), kind 0 for a
/// failure, 1 for a question, 2 to go on.
pub open spec fn decision_view(d: OutputDecision) -> (int, Seq<char>, OutputType) {
    match d {
        OutputDecision::Fail(m) => (0, m@, OutputType::InPlace),
        OutputDecision::Ask { question, output } => (1, question@, output),
        OutputDecision::Proceed(o) => (2, Seq::<char>::empty(), o),
    }
}

/// How the output is chosen. An output directory wins over an output
/// archive: it must not conflict with the project, and a directory that
/// exists and is not empty needs a yes unless `yes` was given. An output
/// archive must not be the project, gets the `.vv` extension where it
/// lacks it, and an existing one needs a yes unless `yes` was given.
/// Without either, output goes in place.
pub open spec fn spec_decision(project: Option<Seq<char>>, output_dir: Option<Seq<char>>, output_file: Option<Seq<char>>,
    yes: bool, facts: OutputFacts) -> (int, Seq<char>, Option<(bool, Seq<char>)>)
{
    match output_dir {
        Some(dir) => if project is Some && facts.dir_conflicts {
            (0, dir_conflict_message(), None)
        } else if facts.dir_not_empty && !yes {
            (1, dir_question(dir), Some((true, dir)))
        } else {
            (2, Seq::<char>::empty(), Some((true, dir)))
        },
        None => match output_file {
            Some(file) => if project matches Some(input) && components(input) == components(file) {
                (0, file_conflict_message(), None)
            } else {
                let f = spec_archive_output(file);
                if facts.file_exists && !yes {
                    (1, file_question(f), Some((false, f)))
                } else {
                    (2, Seq::<char>::empty(), Some((false, f)))
                }
            },
            None => (2, Seq::<char>::empty(), None),
        },
    }
}

/// The output type as plain values: none for in place, else (directory?, path).
pub open spec fn output_view(o: OutputType) -> Option<(bool, Seq<char>)> {
    match o {
        OutputType::InPlace => None,
        OutputType::Directory(d) => Some((true, d@)),
        OutputType::Archive(a) => Some((false, a@)),
    }
}

fn opt_view(o: &Option<String>) -> (res: Ghost<Option<Seq<char>>>)
    ensures
        res@ == match o { Some(s) => Some(s@), None => None::<Seq<char>> },
{
    Ghost(match o { Some(s) => Some(s@), None => None })
}

fn lit(v: Vec<char>) -> (res: String)
    ensures
        res@ == v@,
{
    string_from_chars(v.as_slice())
}

/// Decides how the output is chosen.
pub fn determine_output_type(
    project: &Option<String>,
    output_dir: &Option<String>,
    output_file: &Option<String>,
    yes: bool,
    facts: &OutputFacts,
) -> (res: OutputDecision)
    ensures
        ({
            let d = decision_view(res);
            let s = spec_decision(
                match project { Some(p) => Some(p@), None => None },
                match output_dir { Some(p) => Some(p@), None => None },
                match output_file { Some(p) => Some(p@), None => None },
                yes,
                *facts,
            );
            d.0 == s.0 && d.1 == s.1 && (d.0 != 0 ==> output_view(d.2) == s.2)
        }),
{
    if let Some(dir) = output_dir {
        if project.is_some() && facts.dir_conflicts {
            let m: Vec<char> = vec!['E', 'r', 'r', 'o', 'r', ':', ' ', 'O', 'u', 't', 'p', 'u', 't', ' ', 'd', 'i', 'r', 'e', 'c', 't', 'o', 'r', 'y', ' ',
                'c', 'a', 'n', 'n', 'o', 't', ' ', 'b', 'e', ' ', 't', 'h', 'e', ' ', 's', 'a', 'm', 'e', ' ', 'a', 's', ' ', 'o', 'r', ' ',
                'i', 'n', 's', 'i', 'd', 'e', ' ', 't', 'h', 'e', ' ', 'i', 'n', 'p', 'u', 't', ' ',
                'd', 'i', 'r', 'e', 'c', 't', 'o', 'r', 'y'];
            assert(m@ == dir_conflict_message());
            return OutputDecision::Fail(lit(m));
        }
        let d = lit(chars_of(dir.as_str()));
        if facts.dir_not_empty && !yes {
            let mut q: Vec<char> = vec!['D', 'i', 'r', 'e', 'c', 't', 'o', 'r', 'y', ' '];
            extend(&mut q, chars_of(dir.as_str()).as_slice());
            let tail: Vec<char> = vec![' ', 'e', 'x', 'i', 's', 't', 's', ' ', 'a', 'n', 'd', ' ', 'i', 's', ' ', 'n', 'o', 't', ' ', 'e', 'm', 'p', 't', 'y', '.', ' ', 'O', 'v', 'e', 'r', 'w', 'r', 'i', 't', 'e', '?'];
            extend(&mut q, tail.as_slice());
            assert(q@ == dir_question(dir@));
            return OutputDecision::Ask { question: lit(q), output: OutputType::Directory(d) };
        }
        return OutputDecision::Proceed(OutputType::Directory(d));
    }
    if let Some(file) = output_file {
        if let Some(input) = project {
            if crate::path::parts_equal(&components_of(input.as_str()), &components_of(file.as_str())) {
                let m: Vec<char> = vec!['E', 'r', 'r', 'o', 'r', ':', ' ', 'O', 'u', 't', 'p', 'u', 't', ' ', 'f', 'i', 'l', 'e', ' ',
                    'c', 'a', 'n', 'n', 'o', 't', ' ', 'b', 'e', ' ', 't', 'h', 'e', ' ', 's', 'a', 'm', 'e', ' ', 'a', 's', ' ',
                    't', 'h', 'e', ' ', 'i', 'n', 'p', 'u', 't', ' ', 'f', 'i', 'l', 'e'];
                assert(m@ == file_conflict_message());
                return OutputDecision::Fail(lit(m));
            }
        }
        let (f, _) = archive_output_path(file.as_str());
        if facts.file_exists && !yes {
            let mut q: Vec<char> = vec!['F', 'i', 'l', 'e', ' '];
            extend(&mut q, chars_of(f.as_str()).as_slice());
            let tail: Vec<char> = vec![' ', 'a', 'l', 'r', 'e', 'a', 'd', 'y', ' ', 'e', 'x', 'i', 's', 't', 's', '.', ' ', 'O', 'v', 'e', 'r', 'w', 'r', 'i', 't', 'e', '?'];
            extend(&mut q, tail.as_slice());
            assert(q@ == file_question(f@));
            return OutputDecision::Ask { question: lit(q), output: OutputType::Archive(f) };
        }
        return OutputDecision::Proceed(OutputType::Archive(f));
    }
    OutputDecision::Proceed(OutputType::InPlace)
}

/// A yes: the answer, trimmed and lower-cased, is `y` or `yes`.
pub open spec fn spec_is_yes(answer: Seq<char>) -> bool {
    let a = crate::text::lowercase(trim_spec(answer));
    a == seq!['y'] || a == seq!['y', 'e', 's']
}

/// Reads an answer to a question.
pub fn confirm_answer(answer: &str) -> (res: bool)
    ensures
        res == spec_is_yes(answer@),
        crate::text::all_ascii(trim_spec(answer@))
            ==> crate::text::lowercase(trim_spec(answer@)) == trim_spec(answer@).map_values(|c: char| crate::text::ascii_lower(c)),
{
    let t = string_from_chars(trim_chars(chars_of(answer).as_slice()).as_slice());
    let l = crate::text::to_lowercase(t.as_str());
    let lc = chars_of(l.as_str());
    let y: [char; 1] = ['y'];
    let yes: [char; 3] = ['y', 'e', 's'];
    assert(y@ == seq!['y'] && yes@ == seq!['y', 'e', 's']);
    crate::text::chars_eq(lc.as_slice(), &y) || crate::text::chars_eq(lc.as_slice(), &yes)
}

} // verus!
