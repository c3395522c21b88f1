use vverdad::config::new_config;
use vverdad::node::{NodeInfo, SeenOutputFiles};
use vverdad::tree::{
    classify_entry, collect_all_provides, collect_all_requires, collect_templates_of, insert_below_dirs, mark_seen,
    output_dirs, output_provides, put_child, seen_contains, DataNode, EntryKind,
};

fn info(path: &str, name: &str) -> NodeInfo {
    NodeInfo { path: path.to_string(), name: name.to_string() }
}

fn data(path: &str, name: &str, keys: &[&str]) -> DataNode<u32> {
    DataNode::Datafile {
        info: info(path, name),
        value: 0,
        provides: Some(keys.iter().map(|k| k.to_string()).collect()),
    }
}

fn dir(path: &str, name: &str, children: Vec<(String, DataNode<u32>)>) -> DataNode<u32> {
    DataNode::Directory { info: info(path, name), children }
}

fn template(path: &str, name: &str, reqs: &[&str]) -> DataNode<u32> {
    DataNode::Template {
        info: info(path, name),
        template_name: name.to_string(),
        required: reqs.iter().map(|r| r.to_string()).collect(),
    }
}

fn child_names(n: &DataNode<u32>) -> Vec<String> {
    match n {
        DataNode::Directory { children, .. } => children.iter().map(|(k, _)| k.clone()).collect(),
        _ => Vec::new(),
    }
}

fn child<'a>(n: &'a DataNode<u32>, name: &str) -> Option<&'a DataNode<u32>> {
    match n {
        DataNode::Directory { children, .. } => children.iter().find(|(k, _)| k == name).map(|(_, c)| c),
        _ => None,
    }
}

#[test]
fn put_child_replaces_in_place_or_appends() {
    let mut cs: Vec<(String, DataNode<u32>)> = Vec::new();
    put_child(&mut cs, "a".to_string(), data("/p/a.json", "a", &["a.x"]));
    put_child(&mut cs, "b".to_string(), data("/p/b.json", "b", &["b.y"]));
    put_child(&mut cs, "a".to_string(), data("/p/a.yaml", "a", &["a.z"]));
    assert_eq!(cs.iter().map(|(k, _)| k.as_str()).collect::<Vec<_>>(), vec!["a", "b"]);
    match &cs[0].1 {
        DataNode::Datafile { info, .. } => assert_eq!(info.path, "/p/a.yaml"),
        _ => panic!("expected a data file"),
    }
}

#[test]
fn provides_are_prefixed_by_directories() {
    let root = dir(
        "/p",
        "p",
        vec![
            ("mission".to_string(), data("/p/mission.yaml", "mission", &["mission.name"])),
            (
                "propulsion".to_string(),
                dir("/p/propulsion", "propulsion", vec![("engine".to_string(), data("/p/propulsion/engine.json", "engine", &["engine.isp"]))]),
            ),
            ("report".to_string(), template("/p/report.md.j2", "report.md.j2", &["mission.name", "propulsion.engine.isp"])),
        ],
    );
    assert_eq!(collect_all_provides(&root), vec!["mission.name".to_string(), "propulsion.engine.isp".to_string()]);
    assert_eq!(collect_all_requires(&root), vec!["mission.name".to_string(), "propulsion.engine.isp".to_string()]);
    let ts = collect_templates_of(&root);
    assert_eq!(ts.len(), 1);
    assert_eq!(ts[0].template_name, "report.md.j2");
}

#[test]
fn output_files_go_below_their_directories() {
    assert_eq!(output_dirs("/p/_output", "/p/_output/sub/deep/result.json"), vec!["sub".to_string(), "deep".to_string()]);
    assert!(output_dirs("/p/_output", "/p/_output/result.json").is_empty());
    assert!(output_dirs("/p/_output", "/elsewhere/result.json").is_empty());
    let keys = vec!["result.mass".to_string()];
    assert_eq!(output_provides("/p/_output", "/p/_output/sub/result.json", &keys), vec!["sub.result.mass".to_string()]);
    assert_eq!(output_provides("/p/_output", "/p/_output/result.json", &keys), keys);
}

#[test]
fn insert_below_dirs_makes_missing_directories() {
    let root = dir("/p", "p", vec![("sub".to_string(), dir("/p/sub", "sub", Vec::new()))]);
    let dirs = vec!["sub".to_string(), "deep".to_string()];
    let root = insert_below_dirs(root, "/p/_output", &dirs, Some(("result".to_string(), data("/p/_output/sub/deep/result.json", "result", &["result.m"]))));
    let sub = child(&root, "sub").expect("sub stays");
    let deep = child(sub, "deep").expect("deep is made");
    assert_eq!(child_names(deep), vec!["result".to_string()]);
    match deep {
        DataNode::Directory { info, .. } => assert_eq!(info.path, "/p/_output/sub/deep"),
        _ => panic!("expected a directory"),
    }
    assert_eq!(collect_all_provides(&root), vec!["sub.deep.result.m".to_string()]);
}

#[test]
fn output_data_overwrites_source_data_of_the_same_name() {
    let root = dir("/p", "p", vec![("data".to_string(), data("/p/data.json", "data", &["data.x"]))]);
    let root = insert_below_dirs(root, "/p/_output", &Vec::new(), Some(("data".to_string(), data("/p/_output/data.json", "data", &["data.y"]))));
    assert_eq!(child_names(&root), vec!["data".to_string()]);
    assert_eq!(collect_all_provides(&root), vec!["data.y".to_string()]);
}

#[test]
fn entries_are_classified_by_kind_and_extension() {
    let c = new_config("/p".to_string());
    assert_eq!(classify_entry("/p/a.yaml.annotations.ron", false, "a", true, &c), EntryKind::Skip);
    assert_eq!(classify_entry("/p/_output", true, "_output", false, &c), EntryKind::Skip);
    assert_eq!(classify_entry("/p/sub", true, "sub", false, &c), EntryKind::Directory);
    assert_eq!(classify_entry("/p/a.yaml", false, "a", true, &c), EntryKind::DataFile);
    assert_eq!(classify_entry("/p/r.md.j2", false, "r", true, &c), EntryKind::Template);
    assert_eq!(classify_entry("/p/notes.txt", false, "notes", true, &c), EntryKind::Other);
    assert_eq!(classify_entry("/p/a.yaml", false, "a", false, &c), EntryKind::Other);
}

#[test]
fn seen_output_files_compare_as_paths() {
    let mut seen = SeenOutputFiles(Vec::new());
    assert!(!seen_contains(&seen, "/p/_output/a.json"));
    mark_seen(&mut seen, "/p/_output/a.json".to_string());
    assert!(seen_contains(&seen, "/p/_output/a.json"));
    assert!(seen_contains(&seen, "/p/_output//./a.json"));
    assert!(!seen_contains(&seen, "/p/_output/b.json"));
}
