use vverdad::path::{extension, file_name, file_stem, parent_path, push_path, with_file_name};
use vverdad::text::{join_chars, split_chars, trim_chars};

#[test]
fn file_names_stems_and_extensions() {
    assert_eq!(file_name("/proj/data/mass.yaml"), Some("mass.yaml".to_string()));
    assert_eq!(file_name("/proj/data/"), Some("data".to_string()));
    assert_eq!(file_name("/proj/.."), None);
    assert_eq!(file_name("/"), None);
    assert_eq!(file_stem("report.md.j2"), Some("report.md".to_string()));
    assert_eq!(extension("report.md.j2"), Some("j2".to_string()));
    assert_eq!(file_stem(".bashrc"), Some(".bashrc".to_string()));
    assert_eq!(extension(".bashrc"), None);
    assert_eq!(extension("noext"), None);
}

#[test]
fn pushing_and_parents() {
    assert_eq!(push_path("/proj", "data.json"), "/proj/data.json");
    assert_eq!(push_path("/proj/", "data.json"), "/proj/data.json");
    assert_eq!(push_path("", "data.json"), "data.json");
    assert_eq!(push_path("/proj", "/abs/x"), "/abs/x");
    assert_eq!(parent_path("/proj/data/mass.yaml"), "/proj/data");
    assert_eq!(parent_path("/mass.yaml"), "/");
    assert_eq!(parent_path("mass.yaml"), "");
    assert_eq!(with_file_name("/proj/a.vv", "a_output.vv"), "/proj/a_output.vv");
}

#[test]
fn character_helpers() {
    let parts = split_chars(&['a', '/', 'b', '/', '/', 'c'], '/');
    assert_eq!(parts, vec![vec!['a'], vec!['b'], vec![], vec!['c']]);
    assert_eq!(join_chars(&parts, &['.']), vec!['a', '.', 'b', '.', '.', 'c']);
    assert_eq!(trim_chars(&[' ', '\t', 'x', ' ', 'y', '\n']), vec!['x', ' ', 'y']);
}
