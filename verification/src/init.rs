//! Generates CI/CD configuration files for a project: GitHub Actions,
//! GitLab CI and git hooks that render the project.

use vstd::prelude::*;

verus! {

/// What to generate, and where.
pub struct InitConfig {
    pub project_dir: String,
    pub github: bool,
    pub gitlab: bool,
    pub hooks: bool,
    pub all: bool,
    pub force: bool,
}

/// A file to write: its path relative to the project, its text, and
/// whether it is to be executable.
pub struct GeneratedFile {
    pub relative_path: String,
    pub content: String,
    pub executable: bool,
}

/// The GitHub Actions workflow.
pub const GITHUB_ACTIONS: &'static str = r#"# .github/workflows/vverdad.yml
name: VVERDAD Render

on:
  push:
    branches: [main]
  pull_request:
    branches: [main]

permissions:
  contents: write

jobs:
  render:
    runs-on: ubuntu-latest
    steps:
      - name: Checkout repository
        uses: actions/checkout@v4

      - name: Install Rust
        uses: dtolnay/rust-toolchain@stable

      - name: Cache vv binary
        id: cache-vv
        uses: actions/cache@v4
        with:
          path: ~/.cargo/bin/vv
          key: ${{ runner.os }}-vv-${{ hashFiles('.github/workflows/vverdad.yml') }}

      - name: Install vv
        if: steps.cache-vv.outputs.cache-hit != 'true'
        run: cargo install --git https://github.com/VisVivaSpace/vverdad-prototype.git

      - name: Render project
        run: vv . -d artifacts/ -y

      - name: Upload outputs
        uses: actions/upload-artifact@v4
        with:
          name: vverdad-output
          path: artifacts/_output/

      - name: Commit outputs
        if: github.event_name == 'push'
        run: |
          git config user.name "VVERDAD CI"
          git config user.email "vverdad@ci"
          cp -r artifacts/_output/ _output/
          git add -f _output/
          git diff --cached --quiet || git commit -m "Update rendered outputs"
          git push
"#;

/// The GitLab CI configuration.
pub const GITLAB_CI: &'static str = r#"# .gitlab-ci.yml
image: rust:latest

variables:
  CARGO_HOME: $CI_PROJECT_DIR/.cargo

cache:
  paths:
    - $CARGO_HOME/bin/
    - $CARGO_HOME/registry/
    - $CARGO_HOME/git/

stages:
  - install
  - render

install:
  stage: install
  script:
    - cargo install --git https://github.com/VisVivaSpace/vverdad-prototype.git
  artifacts:
    paths:
      - $CARGO_HOME/bin/vv

render:
  stage: render
  script:
    - $CARGO_HOME/bin/vv . -d output/ -y
  artifacts:
    paths:
      - output/_output/
  after_script:
    - git config user.name "VVERDAD CI"
    - git config user.email "vverdad@ci"
    - cp -r output/_output/ _output/
    - git add -f _output/
    - git diff --cached --quiet || git commit -m "Update rendered outputs"
    - git push
"#;

/// The pre-commit hook.
pub const PRE_COMMIT_HOOK: &'static str = r#"#!/bin/sh
# .githooks/pre-commit
# Render to a temporary directory to catch template errors before committing.

TMPDIR=$(mktemp -d)
trap 'rm -rf "$TMPDIR"' EXIT

if ! vv . -d "$TMPDIR" -y 2>&1; then
    echo "VVERDAD: Template rendering failed. Fix errors before committing."
    exit 1
fi

echo "VVERDAD: Templates render successfully."
"#;

/// The pre-push hook.
pub const PRE_PUSH_HOOK: &'static str = r#"#!/bin/sh
# .githooks/pre-push
# Full render and validation before pushing.

TMPDIR=$(mktemp -d)
trap 'rm -rf "$TMPDIR"' EXIT

if ! vv . -d "$TMPDIR" -y 2>&1; then
    echo "VVERDAD: Render failed. Fix errors before pushing."
    exit 1
fi

echo "VVERDAD: All checks passed."
"#;

/// A generated file as plain values.
pub open spec fn file_view(f: GeneratedFile) -> (Seq<char>, Seq<char>, bool) {
    (f.relative_path@, f.content@, f.executable)
}

/// Everything is generated when `all` is set or no kind is asked for.
pub open spec fn generate_all(c: InitConfig) -> bool {
    c.all || (!c.github && !c.gitlab && !c.hooks)
}

/// The files to write, in this order: the GitHub workflow, the GitLab
/// configuration, then the two hooks (executable), each when asked for or
/// when everything is.
pub open spec fn spec_generated(c: InitConfig) -> Seq<(Seq<char>, Seq<char>, bool)> {
    let all = generate_all(c);
    let gh = if c.github || all { seq![(github_path(), GITHUB_ACTIONS@, false)] } else { Seq::empty() };
    let gl = if c.gitlab || all { seq![(gitlab_path(), GITLAB_CI@, false)] } else { Seq::empty() };
    let hk = if c.hooks || all {
        seq![(pre_commit_path(), PRE_COMMIT_HOOK@, true), (pre_push_path(), PRE_PUSH_HOOK@, true)]
    } else {
        Seq::empty()
    };
    gh + gl + hk
}

/// `.github/workflows/vverdad.yml`
pub open spec fn github_path() -> Seq<char> {
    seq!['.', 'g', 'i', 't', 'h', 'u', 'b', '/', 'w', 'o', 'r', 'k', 'f', 'l', 'o', 'w', 's', '/', 'v', 'v', 'e', 'r', 'd', 'a', 'd', '.', 'y', 'm', 'l']
}

/// `.gitlab-ci.yml`
pub open spec fn gitlab_path() -> Seq<char> {
    seq!['.', 'g', 'i', 't', 'l', 'a', 'b', '-', 'c', 'i', '.', 'y', 'm', 'l']
}

/// `.githooks/pre-commit`
pub open spec fn pre_commit_path() -> Seq<char> {
    seq!['.', 'g', 'i', 't', 'h', 'o', 'o', 'k', 's', '/', 'p', 'r', 'e', '-', 'c', 'o', 'm', 'm', 'i', 't']
}

/// `.githooks/pre-push`
pub open spec fn pre_push_path() -> Seq<char> {
    seq!['.', 'g', 'i', 't', 'h', 'o', 'o', 'k', 's', '/', 'p', 'r', 'e', '-', 'p', 'u', 's', 'h']
}

fn text(v: Vec<char>) -> (res: String)
    ensures
        res@ == v@,
{
    crate::text::string_from_chars(v.as_slice())
}

/// Produces the files to write for the configuration. No I/O.
pub fn generate_files(config: &InitConfig) -> (res: Vec<GeneratedFile>)
    ensures
        res@.map_values(|f: GeneratedFile| file_view(f)) == spec_generated(*config),
{
    let all = config.all || (!config.github && !config.gitlab && !config.hooks);
    let mut files: Vec<GeneratedFile> = Vec::new();
    let ghost mut expect: Seq<(Seq<char>, Seq<char>, bool)> = Seq::empty();
    if config.github || all {
        let p: Vec<char> = vec!['.', 'g', 'i', 't', 'h', 'u', 'b', '/', 'w', 'o', 'r', 'k', 'f', 'l', 'o', 'w', 's', '/', 'v', 'v', 'e', 'r', 'd', 'a', 'd', '.', 'y', 'm', 'l'];
        assert(p@ == github_path());
        let f = GeneratedFile { relative_path: text(p), content: GITHUB_ACTIONS.to_owned(), executable: false };
        proof { expect = expect.push(file_view(f)); }
        files.push(f);
    }
    if config.gitlab || all {
        let p: Vec<char> = vec!['.', 'g', 'i', 't', 'l', 'a', 'b', '-', 'c', 'i', '.', 'y', 'm', 'l'];
        assert(p@ == gitlab_path());
        let f = GeneratedFile { relative_path: text(p), content: GITLAB_CI.to_owned(), executable: false };
        proof { expect = expect.push(file_view(f)); }
        files.push(f);
    }
    if config.hooks || all {
        let p: Vec<char> = vec!['.', 'g', 'i', 't', 'h', 'o', 'o', 'k', 's', '/', 'p', 'r', 'e', '-', 'c', 'o', 'm', 'm', 'i', 't'];
        assert(p@ == pre_commit_path());
        let f = GeneratedFile { relative_path: text(p), content: PRE_COMMIT_HOOK.to_owned(), executable: true };
        proof { expect = expect.push(file_view(f)); }
        files.push(f);
        let q: Vec<char> = vec!['.', 'g', 'i', 't', 'h', 'o', 'o', 'k', 's', '/', 'p', 'r', 'e', '-', 'p', 'u', 's', 'h'];
        assert(q@ == pre_push_path());
        let g = GeneratedFile { relative_path: text(q), content: PRE_PUSH_HOOK.to_owned(), executable: true };
        proof { expect = expect.push(file_view(g)); }
        files.push(g);
    }
    assert(files@.map_values(|f: GeneratedFile| file_view(f)) =~= expect);
    assert(expect =~= spec_generated(*config));
    files
}

} // verus!
