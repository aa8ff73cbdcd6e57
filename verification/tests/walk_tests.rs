use multilint::config::{GlobalConfig, LinterConfig};
use multilint::linter::Linter;
use tempfile::{tempdir, Builder};

fn linter(includes: &[&str], excludes: &[&str]) -> Linter {
    let config = LinterConfig {
        command: "echo".to_string(),
        includes: includes.iter().map(|s| s.to_string()).collect(),
        excludes: excludes.iter().map(|s| s.to_string()).collect(),
        ..Default::default()
    };
    Linter::from_config(config, &GlobalConfig::default())
}

#[test]
fn walk_yields_only_matching_files() {
    let root = tempdir().unwrap();
    let kept = Builder::new().suffix(".rs").tempfile_in(root.path()).unwrap();
    let _skipped = Builder::new().suffix(".txt").tempfile_in(root.path()).unwrap();
    let files = linter(&["*.rs"], &[]).paths(root.path().to_str().unwrap()).unwrap();
    assert_eq!(files, vec![kept.path().to_str().unwrap().to_string()]);
}

#[test]
fn no_files() {
    let root = tempdir().unwrap();
    let l = linter(&["*.rs"], &[]);
    let files = l.paths(root.path().to_str().unwrap()).unwrap();
    assert!(files.is_empty());
    assert!(l.should_skip(&files));
}

#[test]
fn no_includes_selects_nothing_but_still_runs() {
    let root = tempdir().unwrap();
    let _present = Builder::new().suffix(".rs").tempfile_in(root.path()).unwrap();
    let l = linter(&[], &[]);
    let files = l.paths(root.path().to_str().unwrap()).unwrap();
    assert!(files.is_empty());
    assert!(!l.should_skip(&files));
}

#[test]
fn excluded_files_are_never_yielded() {
    let root = tempdir().unwrap();
    let kept = Builder::new().suffix(".keep.rs").tempfile_in(root.path()).unwrap();
    let _vetoed = Builder::new().suffix(".veto.rs").tempfile_in(root.path()).unwrap();
    let files = linter(&["*.rs"], &["*.veto.rs"]).paths(root.path().to_str().unwrap()).unwrap();
    assert_eq!(files, vec![kept.path().to_str().unwrap().to_string()]);
}

#[test]
fn bad_include_is_a_configuration_error() {
    let root = tempdir().unwrap();
    let l = linter(&["["], &[]);
    assert!(l.paths(root.path().to_str().unwrap()).is_err());
}
