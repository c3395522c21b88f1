use vverdad::analysis::manifest::{default_memory_mb, default_timeout_seconds, default_true, is_analysis_bundle, manifest_path};

#[test]
fn test_is_analysis_bundle() {
    assert!(is_analysis_bundle("/path/to/thermal.analysis"));
    assert!(!is_analysis_bundle("/path/to/thermal"));
    assert!(!is_analysis_bundle("/path/to/thermal.json"));
}

#[test]
fn manifest_lives_in_the_bundle() {
    assert_eq!(manifest_path("/p/thermal.analysis"), "/p/thermal.analysis/manifest.ron");
    assert_eq!(manifest_path("b.analysis/"), "b.analysis/manifest.ron");
}

#[test]
fn manifest_defaults() {
    assert!(default_true());
    assert_eq!(default_memory_mb(), 512);
    assert_eq!(default_timeout_seconds(), 300);
}
