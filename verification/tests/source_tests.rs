use std::io::Write;
use vverdad::source::{
    copy_steps, normalize_zip_path, output_entry_name, path_to_zip_path, raw_directory_name, read_dir_zip,
    read_file_zip, is_dir_zip, is_file_zip, DirEntry, ZipSource,
};
use vverdad::error::VVError;

#[test]
fn test_normalize_zip_path() {
    assert_eq!(normalize_zip_path("foo/bar.txt"), "foo/bar.txt");
    assert_eq!(normalize_zip_path("foo/bar/"), "foo/bar");
    assert_eq!(normalize_zip_path("simple.txt"), "simple.txt");
}

#[test]
fn test_path_to_zip_path() {
    assert_eq!(path_to_zip_path("foo/bar.txt"), "foo/bar.txt");
    assert_eq!(path_to_zip_path("simple.txt"), "simple.txt");
}

fn sample() -> ZipSource {
    ZipSource::from_entries(
        "/tmp/p.vv".to_string(),
        vec![
            ("b/c.json".to_string(), false, b"{}".to_vec()),
            ("a.yaml".to_string(), false, b"x: 1".to_vec()),
            ("b/".to_string(), true, Vec::new()),
            ("d/e/f.txt".to_string(), false, b"f".to_vec()),
        ],
    )
}

fn names(v: &[DirEntry]) -> Vec<String> {
    v.iter().map(|e| e.name.clone()).collect()
}

#[test]
fn zip_root_listing_is_sorted_and_includes_implicit_dirs() {
    let z = sample();
    let root = read_dir_zip(&z, "/tmp/p.vv").unwrap();
    assert_eq!(names(&root), vec!["a.yaml", "b", "d"]);
    assert!(!root[0].is_dir);
    assert!(root[1].is_dir);
    assert!(root[2].is_dir);
    assert_eq!(root[0].path, "/tmp/p.vv/a.yaml");
    let d = read_dir_zip(&z, "/tmp/p.vv/d").unwrap();
    assert_eq!(names(&d), vec!["e"]);
    let e = read_dir_zip(&z, "d/e").unwrap();
    assert_eq!(names(&e), vec!["f.txt"]);
}

#[test]
fn zip_file_lookups() {
    let z = sample();
    assert_eq!(read_file_zip(&z, "/tmp/p.vv/b/c.json").unwrap(), b"{}".to_vec());
    assert_eq!(read_file_zip(&z, "a.yaml").unwrap(), b"x: 1".to_vec());
    assert!(matches!(read_file_zip(&z, "/tmp/p.vv/b"), Err(VVError::NotAFile(_))));
    assert!(matches!(read_file_zip(&z, "/tmp/p.vv/zzz"), Err(VVError::FileNotFound(_))));
    assert!(matches!(read_file_zip(&z, "/elsewhere/a.yaml"), Err(VVError::FileNotFound(_))));
    assert!(is_dir_zip(&z, "/tmp/p.vv/d/e"));
    assert!(!is_dir_zip(&z, "/tmp/p.vv/a.yaml"));
    assert!(is_file_zip(&z, "/tmp/p.vv/d/e/f.txt"));
    assert!(!is_file_zip(&z, "/tmp/p.vv/d"));
}

#[test]
fn later_entry_of_same_path_wins() {
    let z = ZipSource::from_entries(
        "x.vv".to_string(),
        vec![("a.txt".to_string(), false, b"1".to_vec()), ("a.txt".to_string(), false, b"2".to_vec())],
    );
    assert_eq!(read_file_zip(&z, "a.txt").unwrap(), b"2".to_vec());
    assert_eq!(read_dir_zip(&z, "x.vv").unwrap().len(), 1);
}

#[test]
fn zip_source_from_archive_bytes() {
    let mut buf = std::io::Cursor::new(Vec::new());
    {
        let mut w = zip::ZipWriter::new(&mut buf);
        let opts = zip::write::SimpleFileOptions::default();
        w.start_file("dir/data.json", opts).unwrap();
        w.write_all(b"{\"k\": 1}").unwrap();
        w.finish().unwrap();
    }
    let z = ZipSource::new("proj.vv".to_string(), buf.into_inner()).unwrap();
    assert_eq!(read_file_zip(&z, "proj.vv/dir/data.json").unwrap(), b"{\"k\": 1}".to_vec());
    assert!(is_dir_zip(&z, "proj.vv/dir"));
    assert!(ZipSource::new("bad.vv".to_string(), b"not a zip".to_vec()).is_err());
}

#[test]
fn output_entry_names() {
    assert_eq!(output_entry_name("/tmp/out", "/tmp/out/report.md"), "_output/report.md");
    assert_eq!(output_entry_name("/tmp/out", "/tmp/out/sub/r.md"), "_output/sub/r.md");
    assert_eq!(output_entry_name("_output", "x/y.md"), "_output/x/y.md");
    assert_eq!(raw_directory_name("a/b"), "a/b/");
    assert_eq!(raw_directory_name("a/b/"), "a/b/");
}

#[test]
fn copy_steps_skip_output_dirs() {
    let entries = vec![
        DirEntry { path: "/p/_output".to_string(), name: "_output".to_string(), is_dir: true },
        DirEntry { path: "/p/data".to_string(), name: "data".to_string(), is_dir: true },
        DirEntry { path: "/p/x.json".to_string(), name: "x.json".to_string(), is_dir: false },
    ];
    let top = copy_steps(&entries, "", "/dest");
    assert_eq!(top.len(), 2);
    assert_eq!(top[0].relative, "data");
    assert_eq!(top[0].dest, "/dest/data");
    assert!(top[0].is_dir);
    assert_eq!(top[1].relative, "x.json");
    let nested = copy_steps(&entries[2..].to_vec(), "data", "/dest");
    assert_eq!(nested[0].relative, "data/x.json");
    assert_eq!(nested[0].dest, "/dest/data/x.json");
    assert_eq!(nested[0].source, "/p/x.json");
}

#[test]
fn archive_entries_read_in_order() {
    let mut buf = std::io::Cursor::new(Vec::new());
    {
        let mut w = zip::ZipWriter::new(&mut buf);
        let opts = zip::write::SimpleFileOptions::default();
        w.add_directory("docs/", opts).unwrap();
        w.start_file("docs/a.txt", opts).unwrap();
        w.write_all(b"alpha").unwrap();
        w.start_file("b.txt", opts).unwrap();
        w.write_all(b"beta").unwrap();
        w.finish().unwrap();
    }
    let entries = vverdad::archive::read_entries(buf.into_inner()).unwrap();
    assert_eq!(
        entries,
        vec![
            ("docs/".to_string(), true, Vec::new()),
            ("docs/a.txt".to_string(), false, b"alpha".to_vec()),
            ("b.txt".to_string(), false, b"beta".to_vec()),
        ]
    );
    assert!(matches!(vverdad::archive::read_entries(b"PK broken".to_vec()), Err(VVError::Zip(_))));
}
