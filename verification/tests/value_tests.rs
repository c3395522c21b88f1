use vverdad::value::{
    annotation_sidecar_path, build_output_path, extract_front_matter, extract_front_matter_and_body,
    get_extension, is_annotation_sidecar, is_supported_data_file_type, parse_cell_ref, parse_cell_ref_checked,
    sanitize_column_name,
};

#[test]
fn test_is_supported_data_file_type() {
    // Text formats
    assert!(is_supported_data_file_type("test.json"));
    assert!(is_supported_data_file_type("test.yaml"));
    assert!(is_supported_data_file_type("test.yml"));
    assert!(is_supported_data_file_type("test.toml"));
    assert!(is_supported_data_file_type("test.ron"));

    // Binary formats
    assert!(is_supported_data_file_type("test.msgpack"));
    assert!(is_supported_data_file_type("test.mp"));
    assert!(is_supported_data_file_type("test.pickle"));
    assert!(is_supported_data_file_type("test.pkl"));
    assert!(is_supported_data_file_type("test.cbor"));
    assert!(is_supported_data_file_type("test.bson"));

    // Tabular formats
    assert!(is_supported_data_file_type("test.csv"));
    assert!(is_supported_data_file_type("test.xlsx"));

    // Markdown
    assert!(is_supported_data_file_type("test.md"));

    // Unsupported
    assert!(!is_supported_data_file_type("test.txt"));
    assert!(!is_supported_data_file_type("test.j2"));
    assert!(!is_supported_data_file_type("noextension"));
}

#[test]
fn test_build_output_path() {
    let output_dir = "/output";

    assert_eq!(build_output_path(output_dir, "template.md"), "/output/template.md");

    assert_eq!(build_output_path(output_dir, "reports::summary.md"), "/output/reports/summary.md");
}

#[test]
fn test_extract_front_matter() {
    let content = r#"---
name: "Test Component"
mass_kg: 10.5
---
# Documentation

This is markdown documentation that should be ignored.
"#;
    let result = extract_front_matter(content);
    assert!(result.is_some());
    let yaml_content = result.unwrap();
    assert!(yaml_content.contains("name:"));
    assert!(yaml_content.contains("mass_kg:"));
    assert!(!yaml_content.contains("Documentation"));
}

#[test]
fn test_extract_front_matter_no_leading_delimiter() {
    let content = r#"name: "Test Component"
mass_kg: 10.5
"#;
    let result = extract_front_matter(content);
    assert!(result.is_none());
}

#[test]
fn test_extract_front_matter_single_delimiter() {
    let content = r#"---
name: "Test Component"
mass_kg: 10.5
"#;
    let result = extract_front_matter(content);
    assert!(result.is_none());
}

#[test]
fn test_sanitize_column_name() {
    assert_eq!(sanitize_column_name("name"), "name");
    assert_eq!(sanitize_column_name("First Name"), "first_name");
    assert_eq!(sanitize_column_name("value-1"), "value_1");
    assert_eq!(sanitize_column_name("UPPERCASE"), "uppercase");
    assert_eq!(sanitize_column_name("1st"), "_1st");
    assert_eq!(sanitize_column_name("123abc"), "_123abc");
}

#[test]
fn test_xlsx_extension_supported() {
    assert!(is_supported_data_file_type("test.xlsx"));
}

#[test]
fn test_parse_cell_ref() {
    assert_eq!(parse_cell_ref("A1"), (1, 1));
    assert_eq!(parse_cell_ref("B3"), (3, 2));
    assert_eq!(parse_cell_ref("Z1"), (1, 26));
    assert_eq!(parse_cell_ref("AA1"), (1, 27));
    assert_eq!(parse_cell_ref("AB10"), (10, 28));
}

#[test]
fn test_extract_front_matter_and_body() {
    let content = "---\ntitle: \"Test\"\n---\n# Hello\n\nWorld.";
    let result = extract_front_matter_and_body(content);
    assert!(result.is_some());
    let (yaml, body) = result.unwrap();
    assert!(yaml.contains("title:"));
    assert_eq!(body, "# Hello\n\nWorld.");
}

#[test]
fn test_extract_front_matter_and_body_no_front_matter() {
    let content = "# Just Markdown\n\nNo front matter here.";
    assert!(extract_front_matter_and_body(content).is_none());
}

#[test]
fn test_md_extension_supported() {
    assert!(is_supported_data_file_type("readme.md"));
    assert!(is_supported_data_file_type("docs/notes.md"));
}

#[test]
fn test_annotation_sidecar_path_for_data_file() {
    let sidecar = annotation_sidecar_path("/project/propulsion.yaml");
    assert_eq!(sidecar, "/project/propulsion.annotations.ron");
}

#[test]
fn test_annotation_sidecar_path_for_markdown() {
    let sidecar = annotation_sidecar_path("/project/readme.md");
    assert_eq!(sidecar, "/project/readme.md.annotations.ron");
}

#[test]
fn test_is_annotation_sidecar() {
    assert!(is_annotation_sidecar("propulsion.annotations.ron"));
    assert!(is_annotation_sidecar("/project/readme.md.annotations.ron"));
    assert!(!is_annotation_sidecar("propulsion.yaml"));
    assert!(!is_annotation_sidecar("propulsion.ron"));
    assert!(!is_annotation_sidecar("annotations.ron"));
}

#[test]
fn front_matter_with_crlf_line_breaks() {
    let content = "  \r\n---\r\nname: x\r\n---  \r\nbody\r\n";
    let (yaml, body) = extract_front_matter_and_body(content).unwrap();
    assert_eq!(yaml, "name: x\r");
    assert_eq!(body, "body\r\n");
}

#[test]
fn front_matter_needs_a_colon() {
    assert!(extract_front_matter_and_body("---\njust text\n---\nbody").is_none());
    assert!(extract_front_matter_and_body("--- trailing\nname: x\n---\n").is_none());
}

#[test]
fn sidecar_of_file_without_directory() {
    assert_eq!(annotation_sidecar_path("data.yaml"), "data.annotations.ron");
    assert_eq!(annotation_sidecar_path("dir/.hidden"), "dir/.hidden.annotations.ron");
}

#[test]
fn cell_refs_ignore_other_characters_and_case() {
    assert_eq!(parse_cell_ref("$b$7"), (7, 2));
    assert_eq!(parse_cell_ref(""), (0, 0));
    assert_eq!(parse_cell_ref_checked("ZZZZZZZZZZZZZZZZZZZZ1"), None);
}

#[test]
fn sanitize_keeps_non_ascii_letters() {
    assert_eq!(sanitize_column_name("Ünïcode Näme"), "Ünïcode_näme");
    assert_eq!(sanitize_column_name(""), "");
}

#[test]
fn output_path_with_absolute_piece() {
    assert_eq!(build_output_path("/out", "a::/b"), "/b");
    assert_eq!(build_output_path("/out/", "x"), "/out/x");
    assert_eq!(build_output_path("", "a::b"), "a/b");
}

#[test]
fn extension_of_paths() {
    assert_eq!(get_extension("a/b.tar.gz"), Some("gz".to_string()));
    assert_eq!(get_extension(".bashrc"), None);
    assert_eq!(get_extension("a/b."), Some(String::new()));
}

#[test]
fn csv_tables_sanitize_headers_and_keep_text_cells() {
    let t = vverdad::value::parse_csv_table(b"Part Name,Mass (kg)\nbus,12.5\nframe,3\n").unwrap();
    assert_eq!(t.headers, vec!["part_name".to_string(), "mass__kg_".to_string()]);
    assert_eq!(t.rows, vec![vec!["bus".to_string(), "12.5".to_string()], vec!["frame".to_string(), "3".to_string()]]);
    let bad = vverdad::value::parse_csv_table(b"a,b\n1,2,3\n");
    assert!(matches!(bad, Err(vverdad::error::VVError::Parse { .. })));
}

#[test]
fn sidecars_lie_beside_their_data_files() {
    for p in ["/project/propulsion.yaml", "/project/readme.md", "data.json", "/a//b.yaml/"] {
        let s = vverdad::value::annotation_sidecar_path(p);
        assert!(vverdad::value::is_annotation_sidecar(&s), "{}", s);
        assert_eq!(vverdad::path::parent_path(&s), vverdad::path::parent_path(p));
    }
    assert_eq!(vverdad::value::annotation_sidecar_path("/project/readme.md"), "/project/readme.md.annotations.ron");
}
