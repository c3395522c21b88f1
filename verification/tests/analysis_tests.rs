use vverdad::analysis::execution::{
    container_name, container_spec, create_error, execution_error, host_mount_path, is_execution_success,
    is_fatal_execution_error, memory_limit_bytes, record_execution, status_from_wait, unavailable_errors,
    unavailable_message, ExecutionStatus,
};
use vverdad::analysis::manifest::{bundle_search_step, manifest_location, BundleSearch, OutputSpec};
use vverdad::analysis::outputs::{execution_logs, missing_output_report, validate_analysis_outputs, validate_output_file};
use vverdad::analysis::paths::{
    analysis_output_path, bundle_file_paths, calculate_output_dir, normalize_lexical, validate_path_within,
    BundleFileKind, ResolvedPaths,
};
use vverdad::config::{config_with_input_and_output, InputType, OutputType};
use vverdad::error::VVError;

fn outputs(keys: &[&str]) -> Vec<OutputSpec> {
    keys.iter().map(|k| OutputSpec { key: k.to_string() }).collect()
}

fn status(exit_code: i64, stderr: &str, timed_out: bool) -> ExecutionStatus {
    ExecutionStatus { exit_code, stdout: String::new(), stderr: stderr.to_string(), timed_out }
}

#[test]
fn test_validate_all_outputs_present() {
    let manifest_outputs = outputs(&["result.json", "report.pdf"]);
    let result = validate_analysis_outputs(&manifest_outputs, "/out", &vec![true, true]);
    assert!(result.is_ok());
    let verified = result.unwrap();
    assert_eq!(verified.len(), 2);
}

#[test]
fn test_validate_missing_output() {
    let manifest_outputs = outputs(&["result.json", "report.pdf"]);
    let result = validate_analysis_outputs(&manifest_outputs, "/out", &vec![true, false]);
    assert!(result.is_err());
    let (missing, _verified) = result.unwrap_err();
    assert_eq!(missing.len(), 1);
    assert!(missing.contains(&"report.pdf".to_string()));
}

#[test]
fn test_validate_no_outputs_expected() {
    let manifest_outputs = outputs(&[]);
    let result = validate_analysis_outputs(&manifest_outputs, "/out", &vec![]);
    assert!(result.is_ok());
    assert!(result.unwrap().is_empty());
}

#[test]
fn test_validate_output_file() {
    let result = validate_output_file("/out", "data.json", true);
    assert!(result.is_ok());
    assert!(result.unwrap().ends_with("data.json"));
}

#[test]
fn test_validate_output_file_missing() {
    let result = validate_output_file("/out", "missing.json", false);
    assert!(matches!(result, Err(VVError::MissingOutput { .. })));
}

#[test]
fn found_and_missing_outputs_are_listed_in_order() {
    let manifest_outputs = outputs(&["a.json", "b.json", "c.json"]);
    let result = validate_analysis_outputs(&manifest_outputs, "/out", &vec![false, true, false]);
    assert_eq!(
        result,
        Err((vec!["a.json".to_string(), "c.json".to_string()], vec!["/out/b.json".to_string()]))
    );
    assert_eq!(
        validate_analysis_outputs(&outputs(&["x"]), "/o/", &vec![true]),
        Ok(vec!["/o/x".to_string()])
    );
}

#[test]
fn missing_outputs_report_the_first_and_the_rest() {
    assert!(missing_output_report("thermal", &vec![]).is_none());
    let (err, rest) = missing_output_report("thermal", &vec!["a".to_string(), "b".to_string(), "c".to_string()]).unwrap();
    assert_eq!(
        err,
        VVError::MissingOutput { analysis_output_dir: "thermal".to_string(), expected_file: "a".to_string() }
    );
    assert_eq!(rest, vec!["b".to_string(), "c".to_string()]);
    assert_eq!(execution_logs("out", "err"), "stdout:\nout\nstderr:\nerr");
}

#[test]
fn test_execution_result_success() {
    let result = ExecutionStatus { exit_code: 0, stdout: "output".to_string(), stderr: "".to_string(), timed_out: false };
    assert!(is_execution_success(&result));
}

#[test]
fn test_execution_result_failure_exit_code() {
    let result = ExecutionStatus { exit_code: 1, stdout: "".to_string(), stderr: "error".to_string(), timed_out: false };
    assert!(!is_execution_success(&result));
}

#[test]
fn test_execution_result_timeout() {
    let result = ExecutionStatus { exit_code: -1, stdout: "".to_string(), stderr: "".to_string(), timed_out: true };
    assert!(!is_execution_success(&result));
}

#[test]
fn failed_runs_report_their_error() {
    assert!(execution_error(&status(0, "", false), 60).is_none());
    assert_eq!(execution_error(&status(-1, "", true), 60), Some(VVError::ContainerTimeout(60)));
    assert_eq!(
        execution_error(&status(2, "boom", false), 60),
        Some(VVError::ContainerFailed { exit_code: 2, stderr: "boom".to_string() })
    );
    let (kept, err) = record_execution(Ok(status(3, "bad", false)), 10);
    assert_eq!(kept.unwrap().exit_code, 3);
    assert_eq!(err, Some(VVError::ContainerFailed { exit_code: 3, stderr: "bad".to_string() }));
    let (kept, err) = record_execution(Err(VVError::ContainerStartFailed("x".to_string())), 10);
    assert!(kept.is_none());
    assert_eq!(err, Some(VVError::ContainerStartFailed("x".to_string())));
    let (kept, err) = record_execution(Ok(status(0, "", false)), 10);
    assert!(kept.is_some() && err.is_none());
}

#[test]
fn waiting_gives_the_status() {
    let s = status_from_wait(Ok(7), "o".to_string(), "e".to_string()).unwrap();
    assert_eq!((s.exit_code, s.timed_out, s.stdout.as_str(), s.stderr.as_str()), (7, false, "o", "e"));
    let t = status_from_wait(Err(VVError::ContainerTimeout(30)), String::new(), String::new()).unwrap();
    assert_eq!((t.exit_code, t.timed_out), (-1, true));
    let e = status_from_wait(Err(VVError::ContainerWaitFailed("gone".to_string())), String::new(), String::new());
    assert!(matches!(e, Err(VVError::ContainerWaitFailed(m)) if m == "gone"));
}

#[test]
fn container_creation_errors() {
    assert_eq!(
        create_error("Error: No such image: foo:1", "foo:1"),
        VVError::DockerImageNotFound("foo:1".to_string())
    );
    assert_eq!(create_error("conflict", "foo:1"), VVError::ContainerCreateFailed("conflict".to_string()));
    assert_eq!(memory_limit_bytes(512), 536870912);
    assert_eq!(memory_limit_bytes(0), 0);
    assert_eq!(container_name("abc1"), "vverdad-abc1");
}

#[test]
fn container_spec_mounts_the_bundle() {
    let spec = container_spec("python:3.11", "python script.py", host_mount_path("/tmp/analysis", None, "/cwd"));
    assert_eq!(spec.image, "python:3.11");
    assert_eq!(spec.entrypoint, "python script.py");
    assert_eq!(spec.working_dir, "/analysis");
    assert_eq!(spec.host_path, "/tmp/analysis");
    assert_eq!(host_mount_path("rel/dir", None, "/home/u"), "/home/u/rel/dir");
    assert_eq!(host_mount_path("rel/dir", Some("/real/rel/dir".to_string()), "/home/u"), "/real/rel/dir");
}

#[test]
fn only_an_unavailable_runtime_is_not_fatal() {
    assert!(!is_fatal_execution_error(&VVError::DockerNotAvailable("down".to_string())));
    assert!(is_fatal_execution_error(&VVError::ContainerTimeout(5)));
    assert_eq!(unavailable_message(&None), "Unknown error");
    assert_eq!(unavailable_message(&Some("no socket".to_string())), "no socket");
    let errs = unavailable_errors(&vec!["a".to_string(), "b".to_string()], "no socket");
    assert_eq!(errs.len(), 2);
    assert_eq!(errs[1], ("b".to_string(), VVError::DockerNotAvailable("no socket".to_string())));
}

#[test]
fn lexical_normalization() {
    assert_eq!(normalize_lexical("a/b/../c"), "a/c");
    assert_eq!(normalize_lexical("/a/./b/../../.."), "/..");
    assert_eq!(normalize_lexical("a/../../b"), "../b");
    assert_eq!(normalize_lexical("./x//y/"), "x/y");
    assert_eq!(normalize_lexical(""), "");
    assert_eq!(normalize_lexical("/"), "/");
    for p in ["a/../../b/./c/..", "/x/../../y", "../../a/b/../.."] {
        let once = normalize_lexical(p);
        assert_eq!(normalize_lexical(&once), once);
    }
}

#[test]
fn paths_must_stay_inside_their_base() {
    assert_eq!(
        validate_path_within("/tmp/b", "data.json", "/tmp/b", "/tmp/b/data.json"),
        Ok("/tmp/b/data.json".to_string())
    );
    assert_eq!(
        validate_path_within("/tmp/b", "../../../etc/passwd", "/tmp/b", "/etc/passwd"),
        Err(VVError::PathTraversal("/tmp/b/../../../etc/passwd".to_string()))
    );
    let resolved = ResolvedPaths {
        bundle: "/p/t.analysis".to_string(),
        source: "/p/t.analysis/s.j2".to_string(),
        output: "/o/t.analysis".to_string(),
        destination: "/tmp/evil.txt".to_string(),
    };
    assert_eq!(
        bundle_file_paths(BundleFileKind::Template, "/p/t.analysis", "/o/t.analysis", "s.j2", "../../tmp/evil.txt", &resolved, true),
        Err(VVError::PathTraversal("/o/t.analysis/../../tmp/evil.txt".to_string()))
    );
    let ok = ResolvedPaths { destination: "/o/t.analysis/s.py".to_string(), ..resolved };
    assert_eq!(
        bundle_file_paths(BundleFileKind::Template, "/p/t.analysis", "/o/t.analysis", "s.j2", "s.py", &ok, false),
        Err(VVError::MissingTemplateFile { bundle: "/p/t.analysis".to_string(), file: "s.j2".to_string() })
    );
    assert_eq!(
        bundle_file_paths(BundleFileKind::Static, "/p/t.analysis", "/o/t.analysis", "s.j2", "s.py", &ok, false),
        Err(VVError::MissingStaticFile { bundle: "/p/t.analysis".to_string(), file: "s.j2".to_string() })
    );
    assert_eq!(
        bundle_file_paths(BundleFileKind::Template, "/p/t.analysis", "/o/t.analysis", "s.j2", "s.py", &ok, true),
        Ok(("/p/t.analysis/s.j2".to_string(), "/o/t.analysis/s.py".to_string()))
    );
}

#[test]
fn bundles_mirror_into_the_output() {
    assert_eq!(
        analysis_output_path("/project/subsystem/test.analysis", "/out", "/project"),
        "/out/subsystem/test.analysis"
    );
    assert_eq!(analysis_output_path("/elsewhere/x.analysis", "out", "/project"), "/elsewhere/x.analysis");
    let config = config_with_input_and_output(InputType::Directory("/project".to_string()), OutputType::InPlace);
    assert_eq!(calculate_output_dir("/project/sub/thermal.analysis", &config), "/project/_output/sub");
}

#[test]
fn test_load_analysis_bundle_missing_manifest() {
    let result = manifest_location("/p/test.analysis", false);
    assert!(matches!(result, Err(VVError::MissingManifest(_))));
    assert_eq!(manifest_location("/p/test.analysis", true), Ok("/p/test.analysis/manifest.ron".to_string()));
}

#[test]
fn bundle_search_steps() {
    assert_eq!(bundle_search_step("subsystem/thermal.analysis", true), BundleSearch::Bundle);
    assert_eq!(bundle_search_step("subsystem/data", true), BundleSearch::Descend);
    assert_eq!(bundle_search_step("subsystem/x.analysis", false), BundleSearch::Skip);
}
