use vverdad::init::{generate_files, InitConfig, GITHUB_ACTIONS, PRE_PUSH_HOOK};

fn config_with(github: bool, gitlab: bool, hooks: bool) -> InitConfig {
    InitConfig { project_dir: ".".to_string(), github, gitlab, hooks, all: false, force: false }
}

#[test]
fn test_generate_github_only() {
    let files = generate_files(&config_with(true, false, false));
    assert_eq!(files.len(), 1);
    assert_eq!(files[0].relative_path, ".github/workflows/vverdad.yml");
    assert!(!files[0].executable);
}

#[test]
fn test_generate_gitlab_only() {
    let files = generate_files(&config_with(false, true, false));
    assert_eq!(files.len(), 1);
    assert_eq!(files[0].relative_path, ".gitlab-ci.yml");
    assert!(!files[0].executable);
}

#[test]
fn test_generate_hooks_only() {
    let files = generate_files(&config_with(false, false, true));
    assert_eq!(files.len(), 2);
    assert_eq!(files[0].relative_path, ".githooks/pre-commit");
    assert_eq!(files[1].relative_path, ".githooks/pre-push");
    assert!(files[0].executable);
    assert!(files[1].executable);
}

#[test]
fn test_generate_all() {
    let config = InitConfig { project_dir: ".".to_string(), github: false, gitlab: false, hooks: false, all: true, force: false };
    let files = generate_files(&config);
    assert_eq!(files.len(), 4);
}

#[test]
fn test_default_all_when_no_flags() {
    let files = generate_files(&config_with(false, false, false));
    assert_eq!(files.len(), 4);
}

#[test]
fn generated_contents_are_the_templates() {
    let files = generate_files(&config_with(true, false, true));
    assert_eq!(files.len(), 3);
    assert_eq!(files[0].content, GITHUB_ACTIONS);
    assert_eq!(files[2].content, PRE_PUSH_HOOK);
    assert!(files[0].content.starts_with("# .github/workflows/vverdad.yml"));
}
