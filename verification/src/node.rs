//! Project tree naming, requirement matching and template dependencies.
//!
//! Data files *provide* dotted keys (`propulsion.thrust`) and templates
//! *require* keys. A requirement is met by a provided key equal to it or
//! nested under it.

use vstd::prelude::*;
use crate::error::VVError;
use crate::path::{
    file_name_chars, file_stem, parts_of, path_parts, spec_file_name, spec_file_stem,
    stem_ext_chars,
};
use crate::text::{
    chars_eq, chars_of, copy_chars, extend, is_prefix, join_chars, join_spec, replace_char,
    replace_char_spec, starts_with, string_from_chars, string_views, take_parts, views,
};

verus! {

// =============================================================================
// Node data
// =============================================================================

/// Path and data name of a node in the project tree.
pub struct NodeInfo {
    pub path: String,
    pub name: String,
}

/// A template node: the name under which its source was registered.
pub struct Template {
    pub template_name: String,
}

/// Keys a data file provides.
pub struct Provides(pub Vec<String>);

/// Keys a template needs.
pub struct Requires(pub Vec<String>);

/// Marks a template that has been rendered in this run.
pub struct Rendered;

/// Requirements of a template not yet met; empty when it may render.
pub struct UnmetNeeds {
    pub remaining: Vec<String>,
}

/// Output files already loaded back into the tree.
pub struct SeenOutputFiles(pub Vec<String>);

// =============================================================================
// Requirement matching
// =============================================================================

/// The provided key `p` meets the requirement `r`: it is `r` itself or a key
/// nested under `r`.
pub open spec fn satisfies(p: Seq<char>, r: Seq<char>) -> bool {
    p == r || is_prefix(r.push('.'), p)
}

/// A provided key meets a requirement exactly when it is the requirement
/// itself or a key nested under it: the requirement, a dot, and more. A key
/// that merely starts with the same letters (`power_budget.total` for
/// `power`) meets nothing.
pub proof fn lemma_satisfies_dotted(p: Seq<char>, r: Seq<char>)
    ensures
        satisfies(p, r) <==> (p == r || (p.len() > r.len() && p.take(r.len() as int) == r && p[r.len() as int] == '.')),
{
    let rd = r.push('.');
    if p.len() > r.len() && p.take(r.len() as int) == r && p[r.len() as int] == '.' {
        assert(p.take(rd.len() as int) =~= rd);
    }
    if p != r && satisfies(p, r) {
        assert(p.take(rd.len() as int) == rd);
        assert(p.take(r.len() as int) =~= rd.take(r.len() as int));
        assert(rd.take(r.len() as int) =~= r);
        assert(p[r.len() as int] == p.take(rd.len() as int)[r.len() as int]);
    }
}

/// A key that extends a requirement by anything but a dot does not meet it,
/// and neither does a key shorter than the requirement.
pub proof fn lemma_satisfies_needs_dot(r: Seq<char>, c: char, rest: Seq<char>, q: Seq<char>)
    requires
        c != '.',
        q.len() < r.len(),
    ensures
        !satisfies(r.push(c) + rest, r),
        !satisfies(q, r),
{
    let p = r.push(c) + rest;
    lemma_satisfies_dotted(p, r);
    lemma_satisfies_dotted(q, r);
    assert(p.len() > r.len());
    assert(p[r.len() as int] == c);
}

/// Some key of `provides` meets the requirement `r`.
pub open spec fn requirement_satisfied(r: Seq<char>, provides: Seq<Seq<char>>) -> bool {
    exists|i: int| 0 <= i < provides.len() && satisfies(#[trigger] provides[i], r)
}

/// The requirements of `needed` that `provides` does not meet, in order.
pub open spec fn unmet_requirements(needed: Seq<Seq<char>>, provides: Seq<Seq<char>>) -> Seq<Seq<char>>
    decreases needed.len(),
{
    if needed.len() == 0 {
        Seq::<Seq<char>>::empty()
    } else {
        let u = unmet_requirements(needed.drop_last(), provides);
        if requirement_satisfied(needed.last(), provides) {
            u
        } else {
            u.push(needed.last())
        }
    }
}

/// Decides `satisfies` on character vectors.
fn satisfies_chars(p: &[char], r: &[char]) -> (res: bool)
    ensures
        res == satisfies(p@, r@),
{
    if chars_eq(p, r) {
        return true;
    }
    let mut rd = copy_chars(r);
    rd.push('.');
    starts_with(p, rd.as_slice())
}

/// Decides `requirement_satisfied` for a requirement given as characters.
fn satisfied_chars(r: &[char], provides: &[String]) -> (res: bool)
    ensures
        res == requirement_satisfied(r@, string_views(provides@)),
{
    let ghost ps = string_views(provides@);
    let mut i: usize = 0;
    while i < provides.len()
        invariant
            i <= provides.len(),
            ps == string_views(provides@),
            forall|j: int| 0 <= j < i ==> !satisfies(#[trigger] ps[j], r@),
        decreases provides.len() - i,
    {
        let p = chars_of(provides[i].as_str());
        if satisfies_chars(p.as_slice(), r) {
            assert(satisfies(ps[i as int], r@));
            return true;
        }
        i = i + 1;
    }
    false
}

/// Whether some provided key meets `requirement`: equals it, or starts with
/// `requirement` followed by a dot.
pub fn is_requirement_satisfied(requirement: &str, provides: &[String]) -> (res: bool)
    ensures
        res == requirement_satisfied(requirement@, string_views(provides@)),
{
    let r = chars_of(requirement);
    satisfied_chars(r.as_slice(), provides)
}

/// The requirements that `provides` does not meet, in order.
pub fn unmet_dependencies(provides: &[String], needed: &[String]) -> (res: Vec<String>)
    ensures
        string_views(res@) == unmet_requirements(string_views(needed@), string_views(provides@)),
{
    let ghost rs = string_views(needed@);
    let ghost ps = string_views(provides@);
    let mut unmet: Vec<String> = Vec::new();
    let mut i: usize = 0;
    while i < needed.len()
        invariant
            i <= needed.len(),
            rs == string_views(needed@),
            ps == string_views(provides@),
            string_views(unmet@) == unmet_requirements(rs.take(i as int), ps),
        decreases needed.len() - i,
    {
        assert(rs.take(i + 1).drop_last() == rs.take(i as int));
        assert(rs.take(i + 1).last() == needed@[i as int]@);
        if !is_requirement_satisfied(needed[i].as_str(), provides) {
            let ghost before = string_views(unmet@);
            unmet.push(needed[i].clone());
            assert(string_views(unmet@) == before.push(needed@[i as int]@));
        }
        i = i + 1;
    }
    assert(rs.take(needed.len() as int) == rs);
    unmet
}

/// Checks that every requirement is met by some provided key; otherwise
/// reports the unmet requirements, in order.
pub fn validate_dependencies(provides: &[String], needed: &[String]) -> (res: Result<(), VVError>)
    ensures
        match res {
            Ok(()) => unmet_requirements(string_views(needed@), string_views(provides@)).len() == 0,
            Err(VVError::UnmetDependencies(u)) => {
                &&& string_views(u@) == unmet_requirements(string_views(needed@), string_views(provides@))
                &&& u@.len() > 0
            },
            Err(_) => false,
        },
{
    let unmet = unmet_dependencies(provides, needed);
    if unmet.len() == 0 {
        Ok(())
    } else {
        Err(VVError::UnmetDependencies(unmet))
    }
}

// =============================================================================
// Names
// =============================================================================

/// The data name of a path: its file name when it is a directory, its file
/// stem otherwise, with every dot replaced by an underscore; `?` when the path
/// has no file name.
pub open spec fn spec_data_name(p: Seq<char>, is_dir: bool) -> Seq<char> {
    let raw = if is_dir { spec_file_name(p) } else { spec_file_stem(p) };
    match raw {
        Some(n) => replace_char_spec(n, '.', '_'),
        None => seq!['?'],
    }
}

/// The template name of a path: its file stem, or `?`.
pub open spec fn spec_template_name(p: Seq<char>) -> Seq<char> {
    match spec_file_stem(p) {
        Some(n) => n,
        None => seq!['?'],
    }
}

fn data_name_chars(p: &[char], is_dir: bool) -> (res: Vec<char>)
    ensures
        res@ == spec_data_name(p@, is_dir),
{
    let raw = match file_name_chars(p) {
        Some(n) => {
            if is_dir {
                Some(n)
            } else {
                let (stem, _) = stem_ext_chars(n.as_slice());
                Some(stem)
            }
        },
        None => None,
    };
    match raw {
        Some(n) => replace_char(n.as_slice(), '.', '_'),
        None => {
            let mut q: Vec<char> = Vec::new();
            q.push('?');
            q
        },
    }
}

/// Extracts a data-safe name from a path (dots replaced with underscores).
/// `is_dir` tells whether the path names a directory, whose whole file name
/// is then used rather than its stem.
pub fn data_name(path: &str, is_dir: bool) -> (res: String)
    ensures
        res@ == spec_data_name(path@, is_dir),
{
    let p = chars_of(path);
    let r = data_name_chars(p.as_slice(), is_dir);
    string_from_chars(r.as_slice())
}

/// Extracts the template name (file stem) from a path.
pub fn template_name(path: &str) -> (res: String)
    ensures
        res@ == spec_template_name(path@),
{
    match file_stem(path) {
        Some(s) => s,
        None => {
            proof {
                reveal_strlit("?");
            }
            String::from_str("?")
        },
    }
}

/// `s` with each `::` replaced by `/`, matches taken from the left.
pub open spec fn replace_colons(s: Seq<char>) -> Seq<char>
    decreases s.len(),
{
    if s.len() < 2 {
        s
    } else if s[0] == ':' && s[1] == ':' {
        seq!['/'] + replace_colons(s.skip(2))
    } else {
        seq![s[0]] + replace_colons(s.skip(1))
    }
}

fn replace_colons_chars(s: &[char]) -> (res: Vec<char>)
    ensures
        res@ == replace_colons(s@),
{
    let mut res: Vec<char> = Vec::new();
    let mut i: usize = 0;
    assert(s@.skip(0) == s@);
    while i < s.len()
        invariant
            i <= s.len(),
            replace_colons(s@) == res@ + replace_colons(s@.skip(i as int)),
        decreases s.len() - i,
    {
        let ghost rest = s@.skip(i as int);
        if i + 1 < s.len() && s[i] == ':' && s[i + 1] == ':' {
            res.push('/');
            assert(rest.skip(2) == s@.skip(i + 2));
            i = i + 2;
        } else {
            res.push(s[i]);
            proof {
                if rest.len() >= 2 {
                    assert(rest.skip(1) == s@.skip(i + 1));
                } else {
                    assert(rest == seq![s@[i as int]]);
                    assert(s@.skip(i + 1).len() == 0);
                }
            }
            i = i + 1;
        }
    }
    assert(s@.skip(s.len() as int) =~= Seq::<char>::empty());
    res
}

/// The key prefix a template's output provides: the template name with
/// `::` read as a directory separator, its directories and its data name
/// joined by dots (`sub::result.json` gives `sub.result`). The output is
/// named as a file, not a directory.
pub open spec fn spec_template_output_prefix(name: Seq<char>) -> Seq<char> {
    let p = replace_colons(name);
    let parts = path_parts(p);
    let key = spec_data_name(p, false);
    if parts.len() > 1 {
        join_spec(parts.drop_last(), seq!['.']) + seq!['.'] + key
    } else {
        key
    }
}

/// Computes the data key prefix that a template's output would provide.
pub fn template_output_prefix(template_name: &str) -> (res: String)
    ensures
        res@ == spec_template_output_prefix(template_name@),
{
    let n = chars_of(template_name);
    let p = replace_colons_chars(n.as_slice());
    let parts = parts_of(p.as_slice());
    let key = data_name_chars(p.as_slice(), false);
    if parts.len() > 1 {
        let dirs = take_parts(&parts, parts.len() - 1);
        assert(views(parts@).take(parts.len() - 1) == views(parts@).drop_last());
        let dot: [char; 1] = ['.'];
        assert(dot@ == seq!['.']);
        let mut res = join_chars(&dirs, &dot);
        res.push('.');
        extend(&mut res, key.as_slice());
        string_from_chars(res.as_slice())
    } else {
        string_from_chars(key.as_slice())
    }
}

/// A template whose output provides keys under `provides_prefix` could meet
/// `requirement`: equal, or one nested under the other.
pub open spec fn spec_could_satisfy(provides_prefix: Seq<char>, requirement: Seq<char>) -> bool {
    provides_prefix == requirement
        || is_prefix(provides_prefix.push('.'), requirement)
        || is_prefix(requirement.push('.'), provides_prefix)
}

/// A provider could meet a requirement exactly when the two keys are equal
/// or one is the other followed by a dot and more; a key that merely starts
/// with the letters of the other (`power` and `power_budget`) is no match.
/// The relation is symmetric, and every key that meets a requirement could
/// meet it.
pub proof fn lemma_could_satisfy_dotted(p: Seq<char>, r: Seq<char>)
    ensures
        spec_could_satisfy(p, r) <==> (p == r
            || (r.len() > p.len() && r.take(p.len() as int) == p && r[p.len() as int] == '.')
            || (p.len() > r.len() && p.take(r.len() as int) == r && p[r.len() as int] == '.')),
        spec_could_satisfy(p, r) == spec_could_satisfy(r, p),
        satisfies(p, r) ==> spec_could_satisfy(p, r),
{
    lemma_satisfies_dotted(p, r);
    lemma_satisfies_dotted(r, p);
    assert(is_prefix(r.push('.'), p) <==> satisfies(p, r) && p != r);
    assert(is_prefix(p.push('.'), r) <==> satisfies(r, p) && p != r);
}

fn could_satisfy_chars(provides_prefix: &[char], requirement: &[char]) -> (res: bool)
    ensures
        res == spec_could_satisfy(provides_prefix@, requirement@),
{
    if chars_eq(provides_prefix, requirement) {
        return true;
    }
    let mut pd = copy_chars(provides_prefix);
    pd.push('.');
    if starts_with(requirement, pd.as_slice()) {
        return true;
    }
    let mut rd = copy_chars(requirement);
    rd.push('.');
    starts_with(provides_prefix, rd.as_slice())
}

/// Checks if a template's provides prefix could satisfy a requirement.
pub fn could_satisfy(provides_prefix: &str, requirement: &str) -> (res: bool)
    ensures
        res == spec_could_satisfy(provides_prefix@, requirement@),
{
    let p = chars_of(provides_prefix);
    let r = chars_of(requirement);
    could_satisfy_chars(p.as_slice(), r.as_slice())
}

/// `a` is a prefix of `b`, part by part.
pub open spec fn parts_prefix(a: Seq<Seq<char>>, b: Seq<Seq<char>>) -> bool {
    a.len() <= b.len() && b.take(a.len() as int) == a
}

/// The path `p` is absolute.
pub open spec fn is_absolute(p: Seq<char>) -> bool {
    p.len() > 0 && p[0] == '/'
}

/// The parts of `p` after those of `base`, when `base` is a leading part of
/// `p` and both are absolute or both relative.
pub open spec fn spec_strip_prefix(p: Seq<char>, base: Seq<char>) -> Option<Seq<Seq<char>>> {
    if is_absolute(p) == is_absolute(base) && parts_prefix(path_parts(base), path_parts(p)) {
        Some(path_parts(p).skip(path_parts(base).len() as int))
    } else {
        None
    }
}

/// The dotted prefix of an output file relative to the output directory:
/// the directories between them joined by dots, or empty.
pub open spec fn spec_build_output_prefix(output_dir: Seq<char>, file_path: Seq<char>) -> Seq<char> {
    match spec_strip_prefix(file_path, output_dir) {
        Some(rel) => if rel.len() > 1 {
            join_spec(rel.drop_last(), seq!['.'])
        } else {
            Seq::<char>::empty()
        },
        None => Seq::<char>::empty(),
    }
}

/// Decides `parts_prefix`.
pub fn parts_starts_with(b: &Vec<Vec<char>>, a: &Vec<Vec<char>>) -> (res: bool)
    ensures
        res == parts_prefix(views(a@), views(b@)),
{
    if a.len() > b.len() {
        return false;
    }
    let mut i: usize = 0;
    while i < a.len()
        invariant
            i <= a.len() <= b.len(),
            views(b@).take(i as int) == views(a@).take(i as int),
        decreases a.len() - i,
    {
        if !chars_eq(b[i].as_slice(), a[i].as_slice()) {
            assert(views(b@).take(a.len() as int)[i as int] != views(a@)[i as int]);
            return false;
        }
        assert(views(b@).take(i + 1) == views(b@).take(i as int).push(views(b@)[i as int]));
        assert(views(a@).take(i + 1) == views(a@).take(i as int).push(views(a@)[i as int]));
        i = i + 1;
    }
    assert(views(a@).take(a.len() as int) == views(a@));
    true
}

/// Computes `spec_strip_prefix`.
pub fn strip_prefix_parts(p: &[char], base: &[char]) -> (res: Option<Vec<Vec<char>>>)
    ensures
        match res {
            Some(r) => spec_strip_prefix(p@, base@) == Some(views(r@)),
            None => spec_strip_prefix(p@, base@) is None,
        },
{
    let pa = p.len() > 0 && p[0] == '/';
    let ba = base.len() > 0 && base[0] == '/';
    if pa != ba {
        return None;
    }
    let pp = parts_of(p);
    let bp = parts_of(base);
    if !parts_starts_with(&pp, &bp) {
        return None;
    }
    let mut rest: Vec<Vec<char>> = Vec::new();
    let mut i: usize = bp.len();
    while i < pp.len()
        invariant
            bp.len() <= i <= pp.len(),
            views(rest@) == views(pp@).subrange(bp.len() as int, i as int),
        decreases pp.len() - i,
    {
        let ghost before = views(rest@);
        rest.push(copy_chars(pp[i].as_slice()));
        assert(views(rest@) == before.push(pp@[i as int]@));
        assert(views(pp@).subrange(bp.len() as int, i + 1) == views(pp@).subrange(bp.len() as int, i as int).push(views(pp@)[i as int]));
        i = i + 1;
    }
    assert(views(pp@).subrange(bp.len() as int, pp.len() as int) == views(pp@).skip(bp.len() as int));
    Some(rest)
}

/// The name a template is registered under: its template name, behind the
/// directories between the project root and the template, each followed by
/// `::` (`propulsion/thrust_report.md.j2` gives
/// `propulsion::thrust_report.md`), so that it renders to the matching
/// directory of the output. A template not below the root is named by its
/// template name alone.
pub open spec fn spec_template_key(root: Seq<char>, path: Seq<char>) -> Seq<char> {
    match spec_strip_prefix(path, root) {
        Some(rel) => if rel.len() > 1 {
            join_spec(rel.drop_last(), seq![':', ':']) + seq![':', ':'] + spec_template_name(path)
        } else {
            spec_template_name(path)
        },
        None => spec_template_name(path),
    }
}

/// Computes `spec_template_key`.
pub fn template_key(root: &str, path: &str) -> (res: String)
    ensures
        res@ == spec_template_key(root@, path@),
{
    let name = template_name(path);
    let r = chars_of(root);
    let f = chars_of(path);
    match strip_prefix_parts(f.as_slice(), r.as_slice()) {
        Some(rel) => {
            if rel.len() > 1 {
                let dirs = take_parts(&rel, rel.len() - 1);
                assert(views(rel@).take(rel.len() - 1) == views(rel@).drop_last());
                let sep: [char; 2] = [':', ':'];
                assert(sep@ == seq![':', ':']);
                let mut k = join_chars(&dirs, &sep);
                k.push(':');
                k.push(':');
                extend(&mut k, chars_of(name.as_str()).as_slice());
                string_from_chars(k.as_slice())
            } else {
                name
            }
        },
        None => name,
    }
}

/// What compiling the template `name` with source `src` in a fresh
/// minijinja environment (`Environment::template_from_named_str`) and then
/// `Template::undeclared_variables(false)` give: the top-level variables
/// the template reads without setting them, or none where the source does
/// not compile.
pub uninterp spec fn template_variables(name: Seq<char>, src: Seq<char>) -> Option<Set<Seq<char>>>;

/// `Environment::template_from_named_str` on a fresh environment, then
/// `Template::undeclared_variables(false)` on the template it gives: the
/// variables as a list (from a set: no name twice, in no stated order), or
/// the text of the compile error.
#[verifier::external_body]
fn undeclared_variables_of(name: &str, src: &str) -> (res: Result<Vec<String>, String>)
    ensures
        match template_variables(name@, src@) {
            Some(vs) => res matches Ok(v) && string_views(v@).to_set() == vs && string_views(v@).no_duplicates(),
            None => res is Err,
        },
{
    let env = minijinja::Environment::new();
    match env.template_from_named_str(name, src) {
        Ok(t) => Ok(t.undeclared_variables(false).into_iter().collect()),
        Err(e) => Err(e.to_string()),
    }
}

/// The requirements of a template: the variables it reads without setting
/// them, each once; a template error where its source does not compile.
pub fn template_requires(name: &str, src: &str) -> (res: Result<Vec<String>, VVError>)
    ensures
        match template_variables(name@, src@) {
            Some(vs) => res matches Ok(v) && string_views(v@).to_set() == vs && string_views(v@).no_duplicates(),
            None => res matches Err(e) && e is Template,
        },
{
    match undeclared_variables_of(name, src) {
        Ok(v) => Ok(v),
        Err(m) => Err(VVError::Template(m)),
    }
}

/// Builds the dotted prefix for an output file relative to `output_dir`.
pub fn build_output_prefix(output_dir: &str, file_path: &str) -> (res: String)
    ensures
        res@ == spec_build_output_prefix(output_dir@, file_path@),
{
    let o = chars_of(output_dir);
    let f = chars_of(file_path);
    match strip_prefix_parts(f.as_slice(), o.as_slice()) {
        Some(rel) => {
            if rel.len() > 1 {
                let dirs = take_parts(&rel, rel.len() - 1);
                assert(views(rel@).take(rel.len() - 1) == views(rel@).drop_last());
                let dot: [char; 1] = ['.'];
                assert(dot@ == seq!['.']);
                let r = join_chars(&dirs, &dot);
                string_from_chars(r.as_slice())
            } else {
                String::new()
            }
        },
        None => String::new(),
    }
}

} // verus!
