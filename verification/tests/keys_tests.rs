use vverdad::keys::{provides, KeyTree};

fn leaf_map(entries: Vec<(&str, KeyTree)>) -> KeyTree {
    KeyTree::Entries(entries.into_iter().map(|(k, v)| (k.to_string(), v)).collect())
}

#[test]
fn test_provides_skips_underscore_keys() {
    let map = leaf_map(vec![("thrust", KeyTree::Leaf), ("_source", KeyTree::Leaf), ("isp", KeyTree::Leaf)]);
    let prov = provides(&map, "propulsion").unwrap();
    assert!(prov.contains(&"propulsion.thrust".to_string()));
    assert!(prov.contains(&"propulsion.isp".to_string()));
    assert!(!prov.iter().any(|k| k.contains("_source")));
}

#[test]
fn test_table_provides_keys() {
    let table = KeyTree::Table(vec!["name".into(), "value".into()]);
    let prov = provides(&table, "data").unwrap();
    assert!(prov.contains(&"data.row".to_string()));
    assert!(prov.contains(&"data.headers".to_string()));
    assert!(prov.contains(&"data.col.name".to_string()));
    assert!(prov.contains(&"data.col.value".to_string()));
}

#[test]
fn test_markdown_provides_keys() {
    let val = KeyTree::Markdown(None);
    let prov = provides(&val, "readme").unwrap();
    assert!(prov.contains(&"readme.content".to_string()));
}

#[test]
fn test_markdown_provides_keys_with_front_matter() {
    let fm = leaf_map(vec![("title", KeyTree::Leaf), ("version", KeyTree::Leaf)]);
    let val = KeyTree::Markdown(Some(Box::new(fm)));
    let prov = provides(&val, "readme").unwrap();
    assert!(prov.contains(&"readme.content".to_string()));
    assert!(prov.contains(&"readme.front_matter.title".to_string()));
    assert!(prov.contains(&"readme.front_matter.version".to_string()));
}

#[test]
fn test_source_filtered_from_provides() {
    let map = leaf_map(vec![("thrust", KeyTree::Leaf), ("_source", KeyTree::Leaf)]);
    let prov = provides(&map, "propulsion").unwrap();
    assert!(prov.contains(&"propulsion.thrust".to_string()));
    assert!(!prov.iter().any(|k| k.contains("_source")));
}

#[test]
fn test_annotations_filtered_from_provides() {
    let annotations = leaf_map(vec![("thrust", KeyTree::Leaf)]);
    let value = leaf_map(vec![("thrust", KeyTree::Leaf), ("_annotations", annotations)]);
    let keys = provides(&value, "propulsion").expect("Should provide keys");
    assert!(keys.contains(&"propulsion.thrust".to_string()));
    assert!(!keys.iter().any(|k| k.contains("_annotations")));
}
