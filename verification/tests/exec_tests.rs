use multilint::config::{GlobalConfig, LinterConfig};
use multilint::exec::{fold_results, ExecResult, Xargs};
use multilint::linter::{Linter, Output};

#[test]
fn no_arg() {
    let mut cmd = Xargs::new("echo", Some(2));
    cmd.common_arg("c");
    let output = cmd.output().unwrap();
    assert!(output.success);
    let stdout = std::str::from_utf8(output.stdout.as_slice()).unwrap();
    assert!(stdout.contains("c"));
}

#[test]
fn max_args() {
    let mut cmd = Xargs::new("echo", Some(2));
    cmd.common_arg("c");
    cmd.args(&vec!["1".to_string(), "2".to_string(), "3".to_string()]);
    let output = cmd.output().unwrap();
    assert!(output.success);
    let stdout = std::str::from_utf8(output.stdout.as_slice()).unwrap();
    assert!(stdout.contains("c 1 2"));
    assert!(stdout.contains("c 3"));
}

#[test]
fn batches_concatenate_in_order() {
    let mut cmd = Xargs::new("echo", Some(2));
    cmd.common_arg("c");
    cmd.args(&vec!["1".to_string(), "2".to_string(), "3".to_string()]);
    let output = cmd.output().unwrap();
    assert_eq!(std::str::from_utf8(output.stdout.as_slice()).unwrap(), "c 1 2\nc 3\n");
}

#[test]
fn fold_combines_streams_and_status() {
    let parts = vec![
        ExecResult { success: true, stdout: b"one".to_vec(), stderr: b"A".to_vec() },
        ExecResult { success: false, stdout: b"two".to_vec(), stderr: b"B".to_vec() },
        ExecResult { success: true, stdout: b"three".to_vec(), stderr: Vec::new() },
    ];
    let folded = fold_results(&parts);
    assert!(!folded.success);
    assert_eq!(folded.stdout, b"onetwothree".to_vec());
    assert_eq!(folded.stderr, b"AB".to_vec());

    let ok = fold_results(&vec![ExecResult {
        success: true,
        stdout: Vec::new(),
        stderr: Vec::new(),
    }]);
    assert!(ok.success);
}

fn linter_for(command: &str) -> Linter {
    let config = LinterConfig {
        command: command.to_string(),
        includes: vec!["*".to_string()],
        ..Default::default()
    };
    Linter::from_config(config, &GlobalConfig::default())
}

#[test]
fn failing_command_means_failed_outcome() {
    let linter = linter_for("false");
    let result = linter.execute(".", &vec!["some-file".to_string()]).unwrap();
    assert!(!result.success);
    let output = Output { result, modified: Vec::new() };
    assert!(!output.success());
}

#[test]
fn succeeding_command_means_clean_outcome() {
    let linter = linter_for("true");
    let result = linter.execute(".", &vec!["some-file".to_string()]).unwrap();
    assert!(result.success);
    let output = Output { result, modified: Vec::new() };
    assert!(output.success());
}

#[test]
fn modified_files_spoil_a_clean_exit() {
    let linter = linter_for("true");
    let result = linter.execute(".", &vec!["some-file".to_string()]).unwrap();
    assert!(result.success);
    let output = Output { result, modified: vec!["some-file".to_string()] };
    assert!(!output.success());
    assert_eq!(output.modified(), &vec!["some-file".to_string()]);
}

#[test]
fn no_includes_runs_once_with_no_files() {
    let config = LinterConfig { command: "echo".to_string(), ..Default::default() };
    let linter = Linter::from_config(config, &GlobalConfig::default());
    assert!(!linter.should_skip(&Vec::new()));
    let no_files: Vec<String> = Vec::new();
    let result = linter.execute(".", &no_files).unwrap();
    assert!(result.success);
}

#[test]
fn work_dir() {
    let root = tempfile::tempdir().unwrap();
    let sub = tempfile::tempdir_in(root.path()).unwrap();
    let file = tempfile::Builder::new().prefix("entry").suffix(".rs").tempfile_in(
        sub.path(),
    ).unwrap();
    let config = LinterConfig {
        command: "ls".to_string(),
        work_dir: sub.path().to_str().unwrap().to_string(),
        ..Default::default()
    };
    let linter = Linter::from_config(config, &GlobalConfig::default());
    let result = linter.execute(root.path().to_str().unwrap(), &Vec::new()).unwrap();
    assert!(result.success);
    let stdout = String::from_utf8_lossy(result.stdout.as_slice()).into_owned();
    let name = file.path().file_name().unwrap().to_str().unwrap().to_string();
    assert!(stdout.contains(&name));
}

#[test]
fn missing_work_dir_fails_fast() {
    let config = LinterConfig {
        command: "ls".to_string(),
        work_dir: "no-such-directory-anywhere".to_string(),
        ..Default::default()
    };
    let linter = Linter::from_config(config, &GlobalConfig::default());
    assert!(linter.execute(".", &Vec::new()).is_err());
}

#[test]
fn unresolvable_command_is_an_error() {
    let linter = linter_for("no-such-command-anywhere");
    assert!(!linter.is_executable());
    assert!(linter.execute(".", &vec!["x".to_string()]).is_err());
}

#[test]
fn includes_but_no_match_is_skipped() {
    let linter = linter_for("echo");
    assert!(linter.should_skip(&Vec::new()));
    assert!(!linter.should_skip(&vec!["a".to_string()]));
}
