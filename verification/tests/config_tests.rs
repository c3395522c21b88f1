use vverdad::cli::{archive_output_path, confirm_answer, determine_output_type, paths_conflict, set_extension, OutputDecision, OutputFacts};
use vverdad::config::{
    copy_root_path, detect_input_type, input_path, is_data_extension, is_template_extension, is_zip_archive, new_config,
    config_with_input_and_output, output_path, validate_run_args, InputType, OutputType,
};
use vverdad::error::VVError;

#[test]
fn output_paths_follow_input_and_output_types() {
    let c = new_config("/proj".to_string());
    assert_eq!(output_path(&c), "/proj/_output");
    assert_eq!(input_path(&c), "/proj");
    assert!(copy_root_path(&c).is_none());
    assert!(!is_zip_archive(&c));
    let z = config_with_input_and_output(InputType::ZipArchive("/d/p.vv".to_string()), OutputType::InPlace);
    assert_eq!(output_path(&z), "/d/_output");
    assert!(is_zip_archive(&z));
    let bare = config_with_input_and_output(InputType::ZipArchive("p.vv".to_string()), OutputType::InPlace);
    assert_eq!(output_path(&bare), "_output");
    let d = config_with_input_and_output(InputType::Directory("/p".to_string()), OutputType::Directory("/rel".to_string()));
    assert_eq!(output_path(&d), "/rel/_output");
    assert_eq!(copy_root_path(&d), Some("/rel".to_string()));
    let a = config_with_input_and_output(InputType::Directory("/p".to_string()), OutputType::Archive("o.vv".to_string()));
    assert_eq!(output_path(&a), "_output");
}

#[test]
fn extensions_of_the_default_config() {
    let c = new_config(".".to_string());
    assert!(is_template_extension(&c, "j2"));
    assert!(is_template_extension(&c, "tmpl"));
    assert!(!is_template_extension(&c, "json"));
    assert!(is_data_extension(&c, "xlsx"));
    assert!(!is_data_extension(&c, "j2"));
}

#[test]
fn input_types() {
    assert_eq!(detect_input_type("x.vv", true, false), Some(InputType::ZipArchive("x.vv".to_string())));
    assert_eq!(detect_input_type("x.vv", false, true), None);
    assert_eq!(detect_input_type("proj", false, true), Some(InputType::Directory("proj".to_string())));
    assert_eq!(detect_input_type("proj", true, false), None);
}

#[test]
fn run_arguments() {
    assert_eq!(validate_run_args(&None, &None, &None, false, false), Err(VVError::MissingProjectInput));
    let p = Some("proj".to_string());
    assert_eq!(
        validate_run_args(&p, &Some("d".to_string()), &Some("f".to_string()), false, true),
        Err(VVError::ConflictingOutputFlags)
    );
    assert_eq!(validate_run_args(&p, &None, &None, false, true), Ok("proj".to_string()));
    assert_eq!(
        validate_run_args(&p, &None, &None, false, false),
        Err(VVError::InputNotFound { kind: "Directory".to_string(), path: "proj".to_string() })
    );
    assert_eq!(
        validate_run_args(&Some("a.vv".to_string()), &None, &None, false, true),
        Err(VVError::InputNotFound { kind: "Archive".to_string(), path: "a.vv".to_string() })
    );
}

#[test]
fn output_choices() {
    let facts = OutputFacts { dir_conflicts: false, dir_not_empty: false, file_exists: false };
    let p = Some("/proj".to_string());
    match determine_output_type(&p, &None, &Some("out".to_string()), false, &facts) {
        OutputDecision::Proceed(OutputType::Archive(f)) => assert_eq!(f, "out.vv"),
        _ => panic!("expected an archive"),
    }
    let busy = OutputFacts { dir_conflicts: false, dir_not_empty: true, file_exists: false };
    match determine_output_type(&p, &Some("/rel".to_string()), &None, false, &busy) {
        OutputDecision::Ask { question, output } => {
            assert_eq!(question, "Directory /rel exists and is not empty. Overwrite?");
            assert_eq!(output, OutputType::Directory("/rel".to_string()));
        },
        _ => panic!("expected a question"),
    }
    assert!(matches!(determine_output_type(&p, &Some("/rel".to_string()), &None, true, &busy), OutputDecision::Proceed(_)));
    let clash = OutputFacts { dir_conflicts: true, dir_not_empty: false, file_exists: false };
    assert!(matches!(determine_output_type(&p, &Some("/proj/x".to_string()), &None, true, &clash), OutputDecision::Fail(_)));
    assert!(matches!(determine_output_type(&Some("a.vv".to_string()), &None, &Some("./a.vv".to_string()), true, &facts), OutputDecision::Fail(_)));
    assert!(matches!(determine_output_type(&p, &None, &None, false, &facts), OutputDecision::Proceed(OutputType::InPlace)));
}

#[test]
fn conflicts_and_extensions() {
    assert!(paths_conflict("/a/b", "/a/b"));
    assert!(paths_conflict("/a/b", "/a/b/c"));
    assert!(!paths_conflict("/a/b", "/a/bc"));
    assert!(paths_conflict("/a/b/c", "/a/b"));
    assert!(paths_conflict("/nx/a/b", "/nx/a"));
    assert_eq!(set_extension("out/release.zip", "vv"), "out/release.vv");
    assert_eq!(set_extension("out/rel/", "vv"), "out/rel.vv");
    assert_eq!(set_extension("out/.hidden", "vv"), "out/.hidden.vv");
    assert_eq!(set_extension("a.tar.gz", ""), "a.tar");
    assert_eq!(archive_output_path("x.vv"), ("x.vv".to_string(), false));
    assert_eq!(archive_output_path("x"), ("x.vv".to_string(), true));
}

#[test]
fn answers() {
    assert!(confirm_answer("y\n"));
    assert!(confirm_answer("  YES "));
    assert!(!confirm_answer("no"));
    assert!(!confirm_answer(""));
}

#[test]
fn test_default_config() {
    let config = vverdad::config::VVConfig::default();

    assert_eq!(config.output_subdir, "_output");
    assert!(is_template_extension(&config, "j2"));
    assert!(is_template_extension(&config, "jinja"));
    assert!(is_data_extension(&config, "json"));
    assert!(is_data_extension(&config, "yaml"));
}

#[test]
fn test_config_paths() {
    let config = new_config("/project".to_string());

    assert_eq!(input_path(&config), "/project");
    assert_eq!(output_path(&config), "/project/_output");
}

#[test]
fn test_config_with_zip_archive() {
    let config = vverdad::config::config_with_input_type(InputType::ZipArchive("/data/project.vv".to_string()));

    assert!(is_zip_archive(&config));
    assert_eq!(input_path(&config), "/data/project.vv");
}

#[test]
fn test_extension_checks() {
    let config = vverdad::config::VVConfig::default();

    assert!(is_template_extension(&config, "j2"));
    assert!(is_template_extension(&config, "jinja2"));
    assert!(!is_template_extension(&config, "json"));

    assert!(is_data_extension(&config, "json"));
    assert!(is_data_extension(&config, "toml"));
    assert!(is_data_extension(&config, "yaml"));
    assert!(is_data_extension(&config, "ron"));

    assert!(is_data_extension(&config, "msgpack"));
    assert!(is_data_extension(&config, "mp"));
    assert!(is_data_extension(&config, "pickle"));
    assert!(is_data_extension(&config, "pkl"));
    assert!(is_data_extension(&config, "cbor"));
    assert!(is_data_extension(&config, "bson"));

    assert!(is_data_extension(&config, "csv"));
    assert!(is_data_extension(&config, "xlsx"));

    assert!(!is_data_extension(&config, "j2"));
    assert!(!is_data_extension(&config, "txt"));
}

#[test]
fn test_output_type_directory() {
    let config = config_with_input_and_output(
        InputType::Directory("/input".to_string()),
        OutputType::Directory("/output".to_string()),
    );

    assert_eq!(output_path(&config), "/output/_output");
    assert_eq!(copy_root_path(&config), Some("/output".to_string()));
}

#[test]
fn test_output_type_archive() {
    let config = config_with_input_and_output(
        InputType::Directory("/input".to_string()),
        OutputType::Archive("/output.vv".to_string()),
    );

    assert_eq!(output_path(&config), "_output");
    assert_eq!(copy_root_path(&config), Some("/output.vv".to_string()));
}

#[test]
fn test_output_type_in_place() {
    let config = config_with_input_and_output(InputType::Directory("/project".to_string()), OutputType::InPlace);

    assert_eq!(output_path(&config), "/project/_output");
    assert_eq!(copy_root_path(&config), None);
}

#[test]
fn test_validate_run_args_missing_input() {
    let result = validate_run_args(&None, &None, &None, false, false);
    assert!(result.is_err());
    let err = result.unwrap_err();
    assert!(matches!(err, VVError::MissingProjectInput), "Expected MissingProjectInput, got: {:?}", err);
}

#[test]
fn test_validate_run_args_conflicting_flags() {
    let result = validate_run_args(
        &Some("/tmp".to_string()),
        &Some("/out".to_string()),
        &Some("/out.vv".to_string()),
        false,
        true,
    );
    assert!(result.is_err());
    let err = result.unwrap_err();
    assert!(matches!(err, VVError::ConflictingOutputFlags), "Expected ConflictingOutputFlags, got: {:?}", err);
}

#[test]
fn test_validate_run_args_nonexistent_directory() {
    // The path does not exist: it is neither a file nor a directory.
    let result = validate_run_args(&Some("/nonexistent_path_that_does_not_exist".to_string()), &None, &None, false, false);
    assert!(result.is_err());
    let err = result.unwrap_err();
    assert!(matches!(err, VVError::InputNotFound { .. }), "Expected InputNotFound, got: {:?}", err);
}

#[test]
fn test_validate_run_args_nonexistent_archive() {
    let result = validate_run_args(&Some("/nonexistent_path.vv".to_string()), &None, &None, false, false);
    assert!(result.is_err());
    let err = result.unwrap_err();
    assert!(matches!(err, VVError::InputNotFound { .. }), "Expected InputNotFound, got: {:?}", err);
}
