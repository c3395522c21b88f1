//! Checking that an analysis produced the outputs its manifest declares.
//!
//! Whether a file exists is a fact of the file system; the caller looks
//! and hands the answers in, one per declared output.

use vstd::prelude::*;
use crate::analysis::manifest::OutputSpec;
use crate::error::VVError;
use crate::path::{push_path, spec_push};
use crate::text::{chars_of, extend, string_from_chars, string_views};

verus! {

/// The keys of the declared outputs.
pub open spec fn output_keys(outputs: Seq<OutputSpec>) -> Seq<Seq<char>> {
    outputs.map_values(|o: OutputSpec| o.key@)
}

/// The paths, below `dir`, of the keys whose file exists, in order.
pub open spec fn verified_paths(keys: Seq<Seq<char>>, exists: Seq<bool>, dir: Seq<char>) -> Seq<Seq<char>>
    decreases keys.len(),
{
    if keys.len() == 0 {
        Seq::<Seq<char>>::empty()
    } else {
        let r = verified_paths(keys.drop_last(), exists.take(keys.len() - 1), dir);
        if exists[keys.len() - 1] {
            r.push(spec_push(dir, keys.last()))
        } else {
            r
        }
    }
}

/// The keys whose file does not exist, in order.
pub open spec fn missing_keys(keys: Seq<Seq<char>>, exists: Seq<bool>) -> Seq<Seq<char>>
    decreases keys.len(),
{
    if keys.len() == 0 {
        Seq::<Seq<char>>::empty()
    } else {
        let r = missing_keys(keys.drop_last(), exists.take(keys.len() - 1));
        if exists[keys.len() - 1] {
            r
        } else {
            r.push(keys.last())
        }
    }
}

/// Checks the declared outputs of an analysis against the files found in
/// `output_dir`: `exists[i]` tells whether the file of `outputs[i]` exists.
///
/// Every output found gives its path; every output missing gives its key.
/// The result is the found paths when nothing is missing, and otherwise the
/// missing keys together with the found paths.
pub fn validate_analysis_outputs(outputs: &Vec<OutputSpec>, output_dir: &str, exists: &Vec<bool>) -> (res: Result<Vec<String>, (Vec<String>, Vec<String>)>)
    requires
        exists@.len() == outputs@.len(),
    ensures
        ({
            let keys = output_keys(outputs@);
            let found = verified_paths(keys, exists@, output_dir@);
            let missing = missing_keys(keys, exists@);
            &&& missing.len() == 0 ==> (res matches Ok(v) && string_views(v@) == found)
            &&& missing.len() > 0 ==> (res matches Err((m, v)) && string_views(m@) == missing && string_views(v@) == found)
        }),
{
    let ghost keys = output_keys(outputs@);
    let mut verified: Vec<String> = Vec::new();
    let mut missing: Vec<String> = Vec::new();
    let mut i: usize = 0;
    while i < outputs.len()
        invariant
            i <= outputs@.len(),
            exists@.len() == outputs@.len(),
            keys == output_keys(outputs@),
            string_views(verified@) == verified_paths(keys.take(i as int), exists@.take(i as int), output_dir@),
            string_views(missing@) == missing_keys(keys.take(i as int), exists@.take(i as int)),
        decreases outputs.len() - i,
    {
        let ghost ki = keys.take(i + 1);
        let ghost ei = exists@.take(i + 1);
        assert(ki.drop_last() == keys.take(i as int));
        assert(ei.take(i as int) == exists@.take(i as int));
        assert(ki.last() == outputs@[i as int].key@);
        assert(ei[i as int] == exists@[i as int]);
        if exists[i] {
            let ghost before = string_views(verified@);
            let p = push_path(output_dir, outputs[i].key.as_str());
            verified.push(p);
            assert(string_views(verified@) == before.push(p@));
        } else {
            let ghost before = string_views(missing@);
            let k = string_from_chars(chars_of(outputs[i].key.as_str()).as_slice());
            missing.push(k);
            assert(string_views(missing@) == before.push(k@));
        }
        i = i + 1;
    }
    assert(keys.take(outputs.len() as int) == keys);
    assert(exists@.take(outputs.len() as int) == exists@);
    if missing.len() == 0 {
        Ok(verified)
    } else {
        Err((missing, verified))
    }
}

/// Checks one expected output: its path below `output_dir` when the file
/// exists (`exists`), and otherwise the missing-output error naming the
/// directory and the file.
pub fn validate_output_file(output_dir: &str, filename: &str, exists: bool) -> (res: Result<String, VVError>)
    ensures
        exists ==> (res matches Ok(p) && p@ == spec_push(output_dir@, filename@)),
        !exists ==> (res matches Err(VVError::MissingOutput { analysis_output_dir, expected_file })
            && analysis_output_dir@ == output_dir@ && expected_file@ == filename@),
{
    if exists {
        Ok(push_path(output_dir, filename))
    } else {
        Err(VVError::MissingOutput {
            analysis_output_dir: string_from_chars(chars_of(output_dir).as_slice()),
            expected_file: string_from_chars(chars_of(filename).as_slice()),
        })
    }
}

/// The logs attached to a failed validation: the standard output after a
/// `stdout:` line, then the standard error after a `stderr:` line.
pub open spec fn spec_execution_logs(stdout: Seq<char>, stderr: Seq<char>) -> Seq<char> {
    seq!['s', 't', 'd', 'o', 'u', 't', ':', '\n'] + stdout + seq!['\n', 's', 't', 'd', 'e', 'r', 'r', ':', '\n'] + stderr
}

/// Computes `spec_execution_logs`.
pub fn execution_logs(stdout: &str, stderr: &str) -> (res: String)
    ensures
        res@ == spec_execution_logs(stdout@, stderr@),
{
    let head: [char; 8] = ['s', 't', 'd', 'o', 'u', 't', ':', '\n'];
    let mid: [char; 9] = ['\n', 's', 't', 'd', 'e', 'r', 'r', ':', '\n'];
    let mut out: Vec<char> = Vec::new();
    extend(&mut out, &head);
    extend(&mut out, chars_of(stdout).as_slice());
    extend(&mut out, &mid);
    extend(&mut out, chars_of(stderr).as_slice());
    assert(head@ == seq!['s', 't', 'd', 'o', 'u', 't', ':', '\n']);
    assert(mid@ == seq!['\n', 's', 't', 'd', 'e', 'r', 'r', ':', '\n']);
    string_from_chars(out.as_slice())
}

/// How a failed output validation is reported: the missing-output error for
/// the first missing key (under the analysis id), and the other missing
/// keys; nothing when no key is missing.
pub fn missing_output_report(analysis_id: &str, missing: &Vec<String>) -> (res: Option<(VVError, Vec<String>)>)
    ensures
        missing@.len() == 0 ==> res is None,
        missing@.len() > 0 ==> (res matches Some((VVError::MissingOutput { analysis_output_dir, expected_file }, rest))
            && analysis_output_dir@ == analysis_id@
            && expected_file@ == missing@[0]@
            && string_views(rest@) == string_views(missing@).skip(1)),
{
    if missing.len() == 0 {
        return None;
    }
    let mut rest: Vec<String> = Vec::new();
    let mut i: usize = 1;
    while i < missing.len()
        invariant
            1 <= i <= missing@.len(),
            string_views(rest@) == string_views(missing@).subrange(1, i as int),
        decreases missing.len() - i,
    {
        let ghost before = string_views(rest@);
        let s = string_from_chars(chars_of(missing[i].as_str()).as_slice());
        rest.push(s);
        assert(string_views(rest@) == before.push(s@));
        assert(string_views(missing@).subrange(1, i + 1) == string_views(missing@).subrange(1, i as int).push(string_views(missing@)[i as int]));
        i = i + 1;
    }
    assert(string_views(missing@).subrange(1, missing@.len() as int) == string_views(missing@).skip(1));
    let first = string_from_chars(chars_of(missing[0].as_str()).as_slice());
    Some((VVError::MissingOutput {
        analysis_output_dir: string_from_chars(chars_of(analysis_id).as_slice()),
        expected_file: first,
    }, rest))
}

} // verus!
