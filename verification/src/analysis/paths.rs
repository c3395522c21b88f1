//! Paths of analysis bundles: where a bundle's rendered copy goes, and the
//! check that a file named by a manifest stays inside its directory.

use vstd::prelude::*;
use crate::error::VVError;
use crate::node::{is_absolute, spec_strip_prefix, strip_prefix_parts};
use crate::path::{lemma_parts_of_join, lemma_parts_valid, normal_parts, parts_of, path_parts, push_path, spec_parent, spec_push, valid_part};
use crate::text::{chars_of, copy_chars, join_chars, join_spec, split_spec, string_from_chars, views};
use crate::config::{input_path, output_path, spec_output_path, VVConfig, InputType};

verus! {

/// The parent-directory part `..`.
pub open spec fn dotdot() -> Seq<char> {
    seq!['.', '.']
}

/// Resolves `..` against the parts before it: a `..` removes the part
/// before it unless there is none or that part is itself `..`.
pub open spec fn lexical_stack(parts: Seq<Seq<char>>) -> Seq<Seq<char>>
    decreases parts.len(),
{
    if parts.len() == 0 {
        Seq::<Seq<char>>::empty()
    } else {
        let s = lexical_stack(parts.drop_last());
        let c = parts.last();
        if c == dotdot() && s.len() > 0 && s.last() != dotdot() {
            s.drop_last()
        } else {
            s.push(c)
        }
    }
}

/// A path with its `.` parts dropped and each `..` resolved against the part
/// before it, without looking at the file system; an absolute path stays
/// absolute.
pub open spec fn spec_normalize_lexical(p: Seq<char>) -> Seq<char> {
    let body = join_spec(lexical_stack(path_parts(p)), seq!['/']);
    if is_absolute(p) {
        seq!['/'] + body
    } else {
        body
    }
}

/// Every `..` of `s` comes before every other part.
pub open spec fn leading_dotdots(s: Seq<Seq<char>>) -> bool {
    forall|i: int, j: int| 0 <= i < j < s.len() && s[j] == dotdot() ==> s[i] == dotdot()
}

proof fn lemma_stack_shape(parts: Seq<Seq<char>>)
    requires
        forall|i: int| 0 <= i < parts.len() ==> valid_part(#[trigger] parts[i]),
    ensures
        leading_dotdots(lexical_stack(parts)),
        forall|i: int| 0 <= i < lexical_stack(parts).len() ==> valid_part(#[trigger] lexical_stack(parts)[i]),
    decreases parts.len(),
{
    if parts.len() > 0 {
        let pre = parts.drop_last();
        assert forall|i: int| 0 <= i < pre.len() implies valid_part(#[trigger] pre[i]) by {
            assert(pre[i] == parts[i]);
        }
        lemma_stack_shape(pre);
        let s = lexical_stack(pre);
        let c = parts.last();
        assert(valid_part(parts[parts.len() - 1]));
        if c == dotdot() && s.len() > 0 && s.last() != dotdot() {
            let r = s.drop_last();
            assert forall|i: int| 0 <= i < r.len() implies valid_part(#[trigger] r[i]) by {
                assert(r[i] == s[i]);
            }
            assert forall|i: int, j: int| 0 <= i < j < r.len() && r[j] == dotdot() implies r[i] == dotdot() by {
                assert(r[i] == s[i] && r[j] == s[j]);
            }
        } else {
            let r = s.push(c);
            assert forall|i: int| 0 <= i < r.len() implies valid_part(#[trigger] r[i]) by {
                if i < s.len() {
                    assert(r[i] == s[i]);
                }
            }
            assert forall|i: int, j: int| 0 <= i < j < r.len() && r[j] == dotdot() implies r[i] == dotdot() by {
                assert(r[i] == s[i]);
                if j < s.len() {
                    assert(r[j] == s[j]);
                } else {
                    assert(c == dotdot());
                    assert(s.len() > 0);
                    assert(s[s.len() - 1] == dotdot());
                }
            }
        }
    }
}

proof fn lemma_stack_fixed(s: Seq<Seq<char>>)
    requires
        leading_dotdots(s),
    ensures
        lexical_stack(s) == s,
    decreases s.len(),
{
    if s.len() > 0 {
        let pre = s.drop_last();
        assert forall|i: int, j: int| 0 <= i < j < pre.len() && pre[j] == dotdot() implies pre[i] == dotdot() by {
            assert(pre[i] == s[i] && pre[j] == s[j]);
        }
        lemma_stack_fixed(pre);
        if s.last() == dotdot() && pre.len() > 0 {
            assert(s[s.len() - 1] == dotdot());
            assert(s[pre.len() - 1] == dotdot());
            assert(pre.last() == dotdot());
        }
        assert(pre.push(s.last()) == s);
    }
}

proof fn lemma_split_after_sep(x: Seq<char>, sep: char)
    ensures
        split_spec(seq![sep] + x, sep) == seq![Seq::<char>::empty()] + split_spec(x, sep),
    decreases x.len(),
{
    let s = seq![sep] + x;
    if x.len() == 0 {
        assert(s == seq![sep]);
        assert(s.drop_last() =~= Seq::<char>::empty());
        assert(s.last() == sep);
        assert(split_spec(Seq::<char>::empty(), sep) == seq![Seq::<char>::empty()]);
        assert(split_spec(s, sep) =~= seq![Seq::<char>::empty(), Seq::<char>::empty()]);
        assert(seq![Seq::<char>::empty()] + split_spec(x, sep) =~= seq![Seq::<char>::empty(), Seq::<char>::empty()]);
    } else {
        assert(s.drop_last() == seq![sep] + x.drop_last());
        assert(s.last() == x.last());
        lemma_split_after_sep(x.drop_last(), sep);
        crate::text::lemma_split_nonempty(x.drop_last(), sep);
        let r = split_spec(x.drop_last(), sep);
        let e = seq![Seq::<char>::empty()];
        if x.last() == sep {
            assert((e + r).push(Seq::<char>::empty()) == e + r.push(Seq::<char>::empty()));
        } else {
            assert((e + r).last() == r.last());
            assert((e + r).update((e + r).len() - 1, r.last().push(x.last())) == e + r.update(r.len() - 1, r.last().push(x.last())));
        }
    }
}

proof fn lemma_normal_parts_skip_empty(k: Seq<Seq<char>>)
    ensures
        normal_parts(seq![Seq::<char>::empty()] + k) == normal_parts(k),
    decreases k.len(),
{
    let e = seq![Seq::<char>::empty()];
    if k.len() == 0 {
        assert(e + k =~= e);
        assert(e.drop_last() =~= Seq::<Seq<char>>::empty());
        assert(e.last().len() == 0);
        assert(normal_parts(Seq::<Seq<char>>::empty()) == Seq::<Seq<char>>::empty());
    } else {
        lemma_normal_parts_skip_empty(k.drop_last());
        assert((e + k).drop_last() == e + k.drop_last());
        assert((e + k).last() == k.last());
    }
}

/// The parts of a path are unchanged by a leading separator.
proof fn lemma_parts_after_root(x: Seq<char>)
    ensures
        path_parts(seq!['/'] + x) == path_parts(x),
{
    lemma_split_after_sep(x, '/');
    lemma_normal_parts_skip_empty(split_spec(x, '/'));
}

/// Normalizing a path lexically a second time changes nothing.
pub proof fn lemma_normalize_lexical_idempotent(p: Seq<char>)
    ensures
        spec_normalize_lexical(spec_normalize_lexical(p)) == spec_normalize_lexical(p),
{
    let s = lexical_stack(path_parts(p));
    lemma_parts_valid(p);
    lemma_stack_shape(path_parts(p));
    let body = join_spec(s, seq!['/']);
    lemma_parts_of_join(s);
    lemma_stack_fixed(s);
    let n = spec_normalize_lexical(p);
    if is_absolute(p) {
        assert(n == seq!['/'] + body);
        lemma_parts_after_root(body);
        assert(is_absolute(n));
    } else {
        assert(n == body);
        if body.len() > 0 {
            assert(s.len() > 0);
            lemma_join_first_char(s);
            assert(body[0] != '/');
        }
        assert(!is_absolute(n));
    }
}

proof fn lemma_join_first_char(s: Seq<Seq<char>>)
    requires
        s.len() > 0,
        forall|i: int| 0 <= i < s.len() ==> valid_part(#[trigger] s[i]),
    ensures
        join_spec(s, seq!['/']).len() > 0,
        join_spec(s, seq!['/'])[0] == s[0][0],
    decreases s.len(),
{
    assert(valid_part(s[0]));
    if s.len() > 1 {
        let pre = s.drop_last();
        assert forall|i: int| 0 <= i < pre.len() implies valid_part(#[trigger] pre[i]) by {
            assert(pre[i] == s[i]);
        }
        lemma_join_first_char(pre);
        assert(pre[0] == s[0]);
    }
    assert(s[0].len() > 0);
}

fn is_dotdot(c: &Vec<char>) -> (r: bool)
    ensures
        r == (c@ == dotdot()),
{
    if c.len() == 2 && c[0] == '.' && c[1] == '.' {
        assert(c@ =~= dotdot());
        true
    } else {
        proof {
            if c@ == dotdot() {
                assert(c@.len() == 2 && c@[0] == '.' && c@[1] == '.');
            }
        }
        false
    }
}

/// Computes `spec_normalize_lexical`.
pub fn normalize_lexical(path: &str) -> (res: String)
    ensures
        res@ == spec_normalize_lexical(path@),
{
    let p = chars_of(path);
    let parts = parts_of(p.as_slice());
    let ghost ps = path_parts(path@);
    let mut stack: Vec<Vec<char>> = Vec::new();
    let mut i: usize = 0;
    while i < parts.len()
        invariant
            i <= parts.len(),
            views(parts@) == ps,
            views(stack@) == lexical_stack(ps.take(i as int)),
        decreases parts.len() - i,
    {
        let c = &parts[i];
        let is_up = is_dotdot(c);
        let last_up = stack.len() > 0 && is_dotdot(&stack[stack.len() - 1]);
        proof {
            if stack.len() > 0 {
                assert(views(stack@).last() == stack@[stack.len() - 1]@);
                assert(last_up == (views(stack@).last() == dotdot()));
            }
        }
        assert(ps.take(i + 1).drop_last() == ps.take(i as int));
        assert(ps.take(i + 1).last() == c@);
        if is_up && stack.len() > 0 && !last_up {
            let ghost before = views(stack@);
            stack.pop();
            assert(views(stack@) == before.drop_last());
        } else {
            let ghost before = views(stack@);
            stack.push(copy_chars(c.as_slice()));
            assert(views(stack@) == before.push(c@));
        }
        i = i + 1;
    }
    assert(ps.take(parts.len() as int) == ps);
    let sep: [char; 1] = ['/'];
    assert(sep@ == seq!['/']);
    assert(stack@.map_values(|v: Vec<char>| v@) == views(stack@));
    let body = join_chars(&stack, &sep);
    if p.len() > 0 && p[0] == '/' {
        let mut out: Vec<char> = Vec::new();
        out.push('/');
        crate::text::extend(&mut out, body.as_slice());
        assert(out@ == seq!['/'] + body@);
        string_from_chars(out.as_slice())
    } else {
        string_from_chars(body.as_slice())
    }
}

/// Whether the path `p` starts with the path `base`, part by part (both
/// absolute or both relative).
pub open spec fn path_starts_with(p: Seq<char>, base: Seq<char>) -> bool {
    spec_strip_prefix(p, base) is Some
}

/// Checks that `requested`, joined to `base`, stays inside `base`.
///
/// `canonical_base` and `canonical_joined` are the two paths as the file
/// system resolves them (`base` and the joined path, each canonicalized as
/// far as they exist). The joined path is returned when the resolved joined
/// path starts with the resolved base; otherwise the request is refused as a
/// traversal out of `base`.
pub fn validate_path_within(base: &str, requested: &str, canonical_base: &str, canonical_joined: &str) -> (res: Result<String, VVError>)
    ensures
        path_starts_with(canonical_joined@, canonical_base@) ==> (res matches Ok(j) && j@ == spec_push(base@, requested@)),
        !path_starts_with(canonical_joined@, canonical_base@) ==> (res matches Err(VVError::PathTraversal(j)) && j@ == spec_push(base@, requested@)),
{
    let joined = push_path(base, requested);
    let cj = chars_of(canonical_joined);
    let cb = chars_of(canonical_base);
    match strip_prefix_parts(cj.as_slice(), cb.as_slice()) {
        Some(_) => Ok(joined),
        None => Err(VVError::PathTraversal(joined)),
    }
}

/// Where a path below `input_root` goes below `output_root`: its parts after
/// those of the input root joined onto the output root, or the whole path
/// joined onto it when it is not below the input root.
pub open spec fn spec_mirror_path(path: Seq<char>, output_root: Seq<char>, input_root: Seq<char>) -> Seq<char> {
    match spec_strip_prefix(path, input_root) {
        Some(rel) => spec_push(output_root, join_spec(rel, seq!['/'])),
        None => spec_push(output_root, path),
    }
}

/// Computes `spec_mirror_path`.
fn mirror_path(path: &str, output_root: &str, input_root: &str) -> (res: String)
    ensures
        res@ == spec_mirror_path(path@, output_root@, input_root@),
{
    let p = chars_of(path);
    let ir = chars_of(input_root);
    match strip_prefix_parts(p.as_slice(), ir.as_slice()) {
        Some(rel) => {
            let sep: [char; 1] = ['/'];
            assert(sep@ == seq!['/']);
            assert(rel@.map_values(|v: Vec<char>| v@) == views(rel@));
            let r = join_chars(&rel, &sep);
            let rs = string_from_chars(r.as_slice());
            push_path(output_root, rs.as_str())
        },
        None => push_path(output_root, path),
    }
}

/// The directory an analysis bundle is rendered into: the bundle's place
/// below the input root, mirrored below the output root.
pub fn analysis_output_path(bundle_path: &str, output_root: &str, input_root: &str) -> (res: String)
    ensures
        res@ == spec_mirror_path(bundle_path@, output_root@, input_root@),
{
    mirror_path(bundle_path, output_root, input_root)
}

/// The input root of a configuration.
pub open spec fn spec_input_root(c: VVConfig) -> Seq<char> {
    match c.input_type {
        InputType::Directory(p) => p@,
        InputType::ZipArchive(p) => p@,
    }
}

/// The directory where an analysis writes its outputs: the parent of the
/// bundle's mirrored place in the output directory.
pub open spec fn spec_calculate_output_dir(bundle_source_path: Seq<char>, c: VVConfig) -> Seq<char> {
    spec_parent(spec_mirror_path(bundle_source_path, spec_output_path(c), spec_input_root(c)))
}

/// Computes `spec_calculate_output_dir`.
pub fn calculate_output_dir(bundle_source_path: &str, config: &VVConfig) -> (res: String)
    ensures
        res@ == spec_calculate_output_dir(bundle_source_path@, *config),
{
    let input_root = input_path(config);
    let out = output_path(config);
    let mirrored = mirror_path(bundle_source_path, out.as_str(), input_root.as_str());
    crate::path::parent_path(mirrored.as_str())
}


/// The kind of a file a bundle names.
#[derive(Debug, Clone, Copy, PartialEq, Eq)]
pub enum BundleFileKind {
    /// Copied as it is.
    Static,
    /// Rendered with the project data.
    Template,
}

/// The paths involved in copying or rendering one bundle file, as the file
/// system resolves them.
pub struct ResolvedPaths {
    /// The bundle directory.
    pub bundle: String,
    /// The source file joined to the bundle directory.
    pub source: String,
    /// The output directory.
    pub output: String,
    /// The destination file joined to the output directory.
    pub destination: String,
}

/// Checks one file a bundle names before it is copied or rendered: the
/// source must stay inside the bundle directory, then the destination inside
/// the output directory, then the source file must exist (`source_exists`).
/// Gives the joined source and destination paths, or the first failed
/// check's error: a traversal naming the joined path, or the missing static
/// or template file naming the bundle and the source name.
pub fn bundle_file_paths(
    kind: BundleFileKind,
    bundle_path: &str,
    output_path: &str,
    source_name: &str,
    destination_name: &str,
    resolved: &ResolvedPaths,
    source_exists: bool,
) -> (res: Result<(String, String), VVError>)
    ensures
        ({
            let src = spec_push(bundle_path@, source_name@);
            let dst = spec_push(output_path@, destination_name@);
            let src_ok = path_starts_with(resolved.source@, resolved.bundle@);
            let dst_ok = path_starts_with(resolved.destination@, resolved.output@);
            &&& !src_ok ==> (res matches Err(VVError::PathTraversal(j)) && j@ == src)
            &&& src_ok && !dst_ok ==> (res matches Err(VVError::PathTraversal(j)) && j@ == dst)
            &&& src_ok && dst_ok && !source_exists && kind == BundleFileKind::Static ==>
                (res matches Err(VVError::MissingStaticFile { bundle, file }) && bundle@ == bundle_path@ && file@ == source_name@)
            &&& src_ok && dst_ok && !source_exists && kind == BundleFileKind::Template ==>
                (res matches Err(VVError::MissingTemplateFile { bundle, file }) && bundle@ == bundle_path@ && file@ == source_name@)
            &&& src_ok && dst_ok && source_exists ==> (res matches Ok((s, d)) && s@ == src && d@ == dst)
        }),
{
    let src = validate_path_within(bundle_path, source_name, resolved.bundle.as_str(), resolved.source.as_str());
    let src = match src {
        Ok(s) => s,
        Err(e) => return Err(e),
    };
    let dst = validate_path_within(output_path, destination_name, resolved.output.as_str(), resolved.destination.as_str());
    let dst = match dst {
        Ok(d) => d,
        Err(e) => return Err(e),
    };
    if !source_exists {
        let bundle = string_from_chars(chars_of(bundle_path).as_slice());
        let file = string_from_chars(chars_of(source_name).as_slice());
        return match kind {
            BundleFileKind::Static => Err(VVError::MissingStaticFile { bundle, file }),
            BundleFileKind::Template => Err(VVError::MissingTemplateFile { bundle, file }),
        };
    }
    Ok((src, dst))
}

} // verus!
