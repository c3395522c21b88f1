use vverdad::error::VVError;
use vverdad::graph::{detect_cycles, DependencyGraph};
use vverdad::node::{
    build_output_prefix, could_satisfy, data_name, is_requirement_satisfied, template_name,
    template_output_prefix, validate_dependencies,
};

#[test]
fn test_data_name_sanitizes_dots() {
    // Dots should be replaced with underscores
    assert_eq!(data_name("file.test.json", false), "file_test");
    assert_eq!(data_name("my.data.yaml", false), "my_data");
    assert_eq!(data_name("simple.json", false), "simple");
}

#[test]
fn test_template_name() {
    // Should extract the stem without extension
    assert_eq!(template_name("report.md.j2"), "report.md");
    assert_eq!(template_name("output.txt.jinja"), "output.txt");
}

#[test]
fn test_is_requirement_satisfied() {
    let provides = vec![
        "propulsion.thrust".to_string(),
        "propulsion.isp".to_string(),
        "config".to_string(),
    ];

    // Prefix matching
    assert!(is_requirement_satisfied("propulsion", &provides));

    // Exact matching
    assert!(is_requirement_satisfied("config", &provides));

    // Not satisfied
    assert!(!is_requirement_satisfied("power", &provides));
}

#[test]
fn test_is_requirement_satisfied_nested_directories() {
    let provides = vec![
        "thermal.radiators.mass_kg".to_string(),
        "thermal.radiators.area_m2".to_string(),
        "thermal.heat_pipes.capacity".to_string(),
        "propulsion.main_engine.thrust".to_string(),
    ];

    assert!(is_requirement_satisfied("thermal", &provides));
    assert!(is_requirement_satisfied("thermal.radiators", &provides));
    assert!(is_requirement_satisfied("thermal.heat_pipes", &provides));
    assert!(is_requirement_satisfied("propulsion", &provides));
    assert!(is_requirement_satisfied("propulsion.main_engine", &provides));

    assert!(!is_requirement_satisfied("power", &provides));
    assert!(!is_requirement_satisfied("thermal.sensors", &provides));
}

#[test]
fn test_template_output_prefix() {
    assert_eq!(template_output_prefix("step_a.json"), "step_a");
    assert_eq!(template_output_prefix("report.md"), "report");
    assert_eq!(template_output_prefix("sub::result.json"), "sub.result");
    assert_eq!(template_output_prefix("a::b::c.json"), "a.b.c");
}

#[test]
fn test_could_satisfy() {
    assert!(could_satisfy("step_a", "step_a"));
    assert!(could_satisfy("step_a", "step_a.computed"));
    assert!(could_satisfy("sub.deep.result", "sub"));
    assert!(!could_satisfy("step_a", "step_b"));
    assert!(!could_satisfy("step_a", "other"));
}

#[test]
fn test_detect_cycles_simple() {
    // A requires B, B requires A: a cycle
    let a = 1u64;
    let b = 2u64;
    let graph = DependencyGraph {
        edges: vec![(a, vec![b]), (b, vec![a])],
        names: vec![(a, "a.json".to_string()), (b, "b.json".to_string())],
    };
    let cycles = detect_cycles(&graph);

    assert!(!cycles.is_empty(), "Should detect a cycle");
    let cycle = &cycles[0];
    assert!(cycle.contains(&"a.json".to_string()));
    assert!(cycle.contains(&"b.json".to_string()));
}

#[test]
fn test_detect_cycles_linear_no_cycle() {
    // A, B requires A, C requires B: no cycle
    let a = 1u64;
    let b = 2u64;
    let c = 3u64;
    let graph = DependencyGraph {
        edges: vec![(a, vec![]), (b, vec![a]), (c, vec![b])],
        names: vec![
            (a, "a.json".to_string()),
            (b, "b.json".to_string()),
            (c, "c.json".to_string()),
        ],
    };
    let cycles = detect_cycles(&graph);

    assert!(cycles.is_empty(), "Linear chain should have no cycles");
}

#[test]
fn test_validation_passes_when_all_deps_met() {
    let provides = vec![
        "propulsion.thrust".to_string(),
        "propulsion.isp".to_string(),
        "power.P0".to_string(),
    ];
    let requires = vec!["propulsion".to_string(), "power".to_string()];

    let result = validate_dependencies(&provides, &requires);
    assert!(result.is_ok(), "Validation should pass when all deps are met");
}

#[test]
fn test_validation_fails_with_missing_deps() {
    let provides = vec!["propulsion.thrust".to_string()];
    let requires = vec!["propulsion".to_string(), "power".to_string()];

    let result = validate_dependencies(&provides, &requires);
    assert!(result.is_err(), "Validation should fail when deps are missing");

    if let Err(VVError::UnmetDependencies(unmet)) = result {
        assert!(unmet.contains(&"power".to_string()), "power should be in unmet deps");
    } else {
        panic!("Expected UnmetDependencies error");
    }
}

#[test]
fn test_validation_handles_exact_matches() {
    let provides = vec!["config".to_string()];
    let requires = vec!["config".to_string()];

    let result = validate_dependencies(&provides, &requires);
    assert!(result.is_ok(), "Validation should pass for exact matches");
}

#[test]
fn data_name_of_directory_keeps_whole_name() {
    assert_eq!(data_name("project/thermal.v2", true), "thermal_v2");
    assert_eq!(data_name("project/thermal.v2", false), "thermal");
    assert_eq!(data_name("..", false), "?");
}

#[test]
fn output_prefix_of_nested_output_file() {
    assert_eq!(build_output_prefix("/p/_output", "/p/_output/sub/deep/r.json"), "sub.deep");
    assert_eq!(build_output_prefix("/p/_output", "/p/_output/r.json"), "");
    assert_eq!(build_output_prefix("/p/_output", "/elsewhere/r.json"), "");
}

#[test]
fn test_is_template_detects_extensions() {
    let config = vverdad::config::VVConfig::default();

    assert!(vverdad::tree::is_template("test.j2", &config));
    assert!(vverdad::tree::is_template("test.jinja", &config));
    assert!(vverdad::tree::is_template("test.jinja2", &config));
    assert!(vverdad::tree::is_template("test.tmpl", &config));

    assert!(!vverdad::tree::is_template("test.json", &config));
    assert!(!vverdad::tree::is_template("test.yaml", &config));
    assert!(!vverdad::tree::is_template("test.txt", &config));
    assert!(!vverdad::tree::is_template("noextension", &config));
}

#[test]
fn test_is_data_file_detects_extensions() {
    let config = vverdad::config::VVConfig::default();

    assert!(vverdad::tree::is_data_file("test.json", &config));
    assert!(vverdad::tree::is_data_file("test.yaml", &config));
    assert!(vverdad::tree::is_data_file("test.yml", &config));
    assert!(vverdad::tree::is_data_file("test.toml", &config));
    assert!(vverdad::tree::is_data_file("test.ron", &config));

    assert!(vverdad::tree::is_data_file("test.msgpack", &config));
    assert!(vverdad::tree::is_data_file("test.mp", &config));
    assert!(vverdad::tree::is_data_file("test.pickle", &config));
    assert!(vverdad::tree::is_data_file("test.pkl", &config));
    assert!(vverdad::tree::is_data_file("test.cbor", &config));

    assert!(!vverdad::tree::is_data_file("test.j2", &config));
    assert!(!vverdad::tree::is_data_file("test.txt", &config));
    assert!(!vverdad::tree::is_data_file("noextension", &config));
}

#[test]
fn templates_in_subdirectories_render_to_matching_output_directories() {
    let key = vverdad::node::template_key("/proj", "/proj/propulsion/thrust_report.md.j2");
    assert_eq!(key, "propulsion::thrust_report.md");
    assert_eq!(vverdad::value::build_output_path("/proj/_output", &key), "/proj/_output/propulsion/thrust_report.md");
    assert_eq!(template_output_prefix(&key), "propulsion.thrust_report");
    let top = vverdad::node::template_key("/proj", "/proj/summary.txt.j2");
    assert_eq!(top, "summary.txt");
    assert_eq!(vverdad::value::build_output_path("/proj/_output", &top), "/proj/_output/summary.txt");
}

#[test]
fn template_requirements_are_the_undeclared_variables() {
    let mut req = vverdad::node::template_requires("report.md", "{{ mission.name }} {% set x = propulsion %}{{ x.isp }} {{ mission.date }}").unwrap();
    req.sort();
    assert_eq!(req, vec!["mission".to_string(), "propulsion".to_string()]);
    assert!(matches!(vverdad::node::template_requires("bad", "{{ unclosed"), Err(VVError::Template(_))));
}
