//! Decisions around running an analysis in a container: what counts as
//! success, which error a failed run reports, and which errors stop the
//! processing. The container runtime itself is driven from outside.

use vstd::prelude::*;
use crate::error::VVError;
use crate::node::is_absolute;
use crate::path::{push_path, spec_push};
use crate::text::{chars_of, extend, find_chars, find_spec, string_from_chars, string_views};

verus! {

/// What a finished container run reports.
#[derive(Debug, Clone)]
pub struct ExecutionStatus {
    /// Exit code of the container (0 for success, -1 after a timeout).
    pub exit_code: i64,
    pub stdout: String,
    pub stderr: String,
    /// Whether the container was stopped because it ran too long.
    pub timed_out: bool,
}

/// A run succeeded: exit code 0 and no timeout.
pub open spec fn spec_is_success(s: ExecutionStatus) -> bool {
    s.exit_code == 0 && !s.timed_out
}

/// Whether a run succeeded.
pub fn is_execution_success(status: &ExecutionStatus) -> (res: bool)
    ensures
        res == spec_is_success(*status),
{
    status.exit_code == 0 && !status.timed_out
}

/// The error a finished run reports: none for a success; a timeout (with
/// the configured limit in seconds) for a run that was stopped; otherwise
/// the failure with the exit code and standard error.
pub fn execution_error(status: &ExecutionStatus, timeout_seconds: u64) -> (res: Option<VVError>)
    ensures
        spec_is_success(*status) ==> res is None,
        !spec_is_success(*status) && status.timed_out ==> (res matches Some(VVError::ContainerTimeout(t)) && t == timeout_seconds),
        !spec_is_success(*status) && !status.timed_out ==> (res matches Some(VVError::ContainerFailed { exit_code, stderr })
            && exit_code == status.exit_code && stderr@ == status.stderr@),
{
    if is_execution_success(status) {
        None
    } else if status.timed_out {
        Some(VVError::ContainerTimeout(timeout_seconds))
    } else {
        Some(VVError::ContainerFailed {
            exit_code: status.exit_code,
            stderr: string_from_chars(chars_of(status.stderr.as_str()).as_slice()),
        })
    }
}

/// What an analysis run leaves behind: the status to keep (a finished run
/// is kept, failed or not) and the error to report (a run that could not
/// finish, or a finished run that failed).
pub fn record_execution(result: Result<ExecutionStatus, VVError>, timeout_seconds: u64) -> (res: (Option<ExecutionStatus>, Option<VVError>))
    ensures
        match result {
            Ok(s) => res.0 == Some(s) && (spec_is_success(s) <==> res.1 is None)
                && (!spec_is_success(s) && s.timed_out ==> (res.1 matches Some(VVError::ContainerTimeout(t)) && t == timeout_seconds))
                && (!spec_is_success(s) && !s.timed_out ==> (res.1 matches Some(VVError::ContainerFailed { exit_code, stderr })
                    && exit_code == s.exit_code && stderr@ == s.stderr@)),
            Err(e) => res.0 is None && res.1 == Some(e),
        },
{
    match result {
        Ok(s) => {
            let err = execution_error(&s, timeout_seconds);
            (Some(s), err)
        },
        Err(e) => (None, Some(e)),
    }
}

/// The status of a run from the outcome of waiting for its container: the
/// exit code when the wait ended; exit code -1 and the timeout flag when
/// the wait timed out; any other error is passed on.
pub fn status_from_wait(wait: Result<i64, VVError>, stdout: String, stderr: String) -> (res: Result<ExecutionStatus, VVError>)
    ensures
        match wait {
            Ok(code) => res == Ok::<ExecutionStatus, VVError>(ExecutionStatus { exit_code: code, stdout, stderr, timed_out: false }),
            Err(VVError::ContainerTimeout(_)) => res == Ok::<ExecutionStatus, VVError>(ExecutionStatus { exit_code: -1i64, stdout, stderr, timed_out: true }),
            Err(e) => res == Err::<ExecutionStatus, VVError>(e),
        },
{
    match wait {
        Ok(code) => Ok(ExecutionStatus { exit_code: code, stdout, stderr, timed_out: false }),
        Err(VVError::ContainerTimeout(_)) => Ok(ExecutionStatus { exit_code: -1, stdout, stderr, timed_out: true }),
        Err(e) => Err(e),
    }
}

/// The text a container runtime gives when the image is missing.
pub open spec fn no_such_image() -> Seq<char> {
    seq!['N', 'o', ' ', 's', 'u', 'c', 'h', ' ', 'i', 'm', 'a', 'g', 'e']
}

/// The error for a container that could not be created: the image is
/// missing when the runtime's message says so, otherwise creation failed
/// with that message.
pub fn create_error(message: &str, image: &str) -> (res: VVError)
    ensures
        find_spec(message@, no_such_image()) is Some ==> (res matches VVError::DockerImageNotFound(i) && i@ == image@),
        find_spec(message@, no_such_image()) is None ==> (res matches VVError::ContainerCreateFailed(m) && m@ == message@),
{
    let pat: [char; 13] = ['N', 'o', ' ', 's', 'u', 'c', 'h', ' ', 'i', 'm', 'a', 'g', 'e'];
    assert(pat@ == no_such_image());
    let m = chars_of(message);
    match find_chars(m.as_slice(), &pat) {
        Some(_) => VVError::DockerImageNotFound(string_from_chars(chars_of(image).as_slice())),
        None => VVError::ContainerCreateFailed(string_from_chars(m.as_slice())),
    }
}

/// The memory limit in bytes for a limit in mebibytes, as the container
/// runtime takes it (a signed 64-bit number).
pub fn memory_limit_bytes(memory_mb: u64) -> (res: i64)
    requires
        memory_mb * 1048576 <= u64::MAX,
    ensures
        res == (memory_mb * 1048576) as i64,
{
    let b: u64 = memory_mb * 1024 * 1024;
    #[verifier::truncate] (b as i64)
}

/// The prefix of container names.
pub open spec fn container_prefix() -> Seq<char> {
    seq!['v', 'v', 'e', 'r', 'd', 'a', 'd', '-']
}

/// The name of a container for the run identifier `id`.
pub fn container_name(id: &str) -> (res: String)
    ensures
        res@ == container_prefix() + id@,
{
    let pre: [char; 8] = ['v', 'v', 'e', 'r', 'd', 'a', 'd', '-'];
    assert(pre@ == container_prefix());
    let mut out: Vec<char> = Vec::new();
    extend(&mut out, &pre);
    extend(&mut out, chars_of(id).as_slice());
    string_from_chars(out.as_slice())
}

/// The directory a container runs in, where the bundle is mounted.
pub open spec fn spec_working_dir() -> Seq<char> {
    seq!['/', 'a', 'n', 'a', 'l', 'y', 's', 'i', 's']
}

/// What a container is started with.
pub struct ContainerSpec {
    pub image: String,
    /// Command run in the container.
    pub entrypoint: String,
    /// Directory inside the container where the bundle is mounted.
    pub working_dir: String,
    /// Host directory mounted there.
    pub host_path: String,
}

/// The host directory to mount for a rendered bundle: the path itself when
/// absolute, else its resolved form when the file system could resolve it
/// (`resolved`), else the path joined onto the working directory `cwd`.
pub fn host_mount_path(bundle_output_path: &str, resolved: Option<String>, cwd: &str) -> (res: String)
    ensures
        is_absolute(bundle_output_path@) ==> res@ == bundle_output_path@,
        !is_absolute(bundle_output_path@) ==> match resolved {
            Some(r) => res@ == r@,
            None => res@ == spec_push(cwd@, bundle_output_path@),
        },
{
    let p = chars_of(bundle_output_path);
    if p.len() > 0 && p[0] == '/' {
        string_from_chars(p.as_slice())
    } else {
        match resolved {
            Some(r) => r,
            None => push_path(cwd, bundle_output_path),
        }
    }
}

/// The container for an analysis: its image and entrypoint, the bundle
/// mounted at the working directory.
pub fn container_spec(image: &str, entrypoint: &str, host_path: String) -> (res: ContainerSpec)
    ensures
        res.image@ == image@,
        res.entrypoint@ == entrypoint@,
        res.working_dir@ == spec_working_dir(),
        res.host_path == host_path,
{
    let wd: [char; 9] = ['/', 'a', 'n', 'a', 'l', 'y', 's', 'i', 's'];
    assert(wd@ == spec_working_dir());
    ContainerSpec {
        image: string_from_chars(chars_of(image).as_slice()),
        entrypoint: string_from_chars(chars_of(entrypoint).as_slice()),
        working_dir: string_from_chars(&wd),
        host_path,
    }
}

/// Whether an execution error stops the processing: every error does but
/// an unavailable container runtime, which only skips execution.
pub fn is_fatal_execution_error(error: &VVError) -> (res: bool)
    ensures
        res == !(error is DockerNotAvailable),
{
    match error {
        VVError::DockerNotAvailable(_) => false,
        _ => true,
    }
}

/// The message for an unavailable runtime: the error met when connecting,
/// or a generic one when there is none.
pub fn unavailable_message(init_error: &Option<String>) -> (res: String)
    ensures
        match init_error {
            Some(m) => res@ == m@,
            None => res@ == seq!['U', 'n', 'k', 'n', 'o', 'w', 'n', ' ', 'e', 'r', 'r', 'o', 'r'],
        },
{
    match init_error {
        Some(m) => string_from_chars(chars_of(m.as_str()).as_slice()),
        None => {
            let u: [char; 13] = ['U', 'n', 'k', 'n', 'o', 'w', 'n', ' ', 'e', 'r', 'r', 'o', 'r'];
            assert(u@ == seq!['U', 'n', 'k', 'n', 'o', 'w', 'n', ' ', 'e', 'r', 'r', 'o', 'r']);
            string_from_chars(&u)
        },
    }
}

/// With no runtime available, every rendered analysis reports the runtime
/// as unavailable, with the same message.
pub fn unavailable_errors(analysis_ids: &Vec<String>, message: &str) -> (res: Vec<(String, VVError)>)
    ensures
        res@.len() == analysis_ids@.len(),
        forall|i: int| 0 <= i < res@.len() ==> (#[trigger] res@[i]).0@ == analysis_ids@[i]@
            && (res@[i].1 matches VVError::DockerNotAvailable(m) && m@ == message@),
{
    let mut res: Vec<(String, VVError)> = Vec::new();
    let mut i: usize = 0;
    while i < analysis_ids.len()
        invariant
            i <= analysis_ids@.len(),
            res@.len() == i,
            forall|k: int| 0 <= k < i ==> (#[trigger] res@[k]).0@ == analysis_ids@[k]@
                && (res@[k].1 matches VVError::DockerNotAvailable(m) && m@ == message@),
        decreases analysis_ids.len() - i,
    {
        let id = string_from_chars(chars_of(analysis_ids[i].as_str()).as_slice());
        let m = string_from_chars(chars_of(message).as_slice());
        res.push((id, VVError::DockerNotAvailable(m)));
        i = i + 1;
    }
    res
}

} // verus!
