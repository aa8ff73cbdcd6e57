use multilint::patterns::{build_matcher, escape_pattern};
use multilint::walker::{marked_dirs, select_files, EntryKind, WalkEntry};

fn entry(path: &str, kind: EntryKind) -> WalkEntry {
    WalkEntry { path: path.to_string(), kind }
}

fn strings(items: &[&str]) -> Vec<String> {
    items.iter().map(|s| s.to_string()).collect()
}

#[test]
fn escape_protects_leading_negation() {
    assert_eq!(escape_pattern("!x"), "\\!x");
    assert_eq!(escape_pattern("x!y"), "x!y");
    assert_eq!(escape_pattern(""), "");
}

#[test]
fn exclude_vetoes_include() {
    let ov = build_matcher(".", &strings(&["*.rs"]), &strings(&["lib.rs"])).unwrap();
    let entries = vec![
        entry(".", EntryKind::Dir),
        entry("./main.rs", EntryKind::File),
        entry("./lib.rs", EntryKind::File),
    ];
    let files = select_files(&entries, ".", &Vec::new(), &ov, false);
    assert_eq!(files, strings(&["main.rs"]));
}

#[test]
fn nothing_under_git_dir_is_yielded() {
    let ov = build_matcher(".", &strings(&["*"]), &Vec::new()).unwrap();
    let entries = vec![
        entry(".", EntryKind::Dir),
        entry("./.git", EntryKind::Dir),
        entry("./.git/config", EntryKind::File),
        entry("./.git/objects/pack", EntryKind::File),
        entry("./x.rs", EntryKind::File),
    ];
    let files = select_files(&entries, ".", &Vec::new(), &ov, false);
    assert_eq!(files, strings(&["x.rs"]));
}

#[test]
fn submodule() {
    let ov = build_matcher(".", &strings(&["*.rs"]), &Vec::new()).unwrap();
    let entries = vec![
        entry(".", EntryKind::Dir),
        entry("./main.rs", EntryKind::File),
        entry("./sub", EntryKind::Dir),
        entry("./sub/main.rs", EntryKind::File),
    ];
    let marked = strings(&["./sub"]);
    let both = select_files(&entries, ".", &marked, &ov, false);
    assert_eq!(both.len(), 2);
    assert_eq!(both, strings(&["main.rs", "sub/main.rs"]));
    let pruned = select_files(&entries, ".", &marked, &ov, true);
    assert_eq!(pruned.len(), 1);
    assert_eq!(pruned, strings(&["main.rs"]));
}

#[test]
fn directories_and_symlinks_are_never_yielded() {
    let ov = build_matcher(".", &strings(&["*"]), &Vec::new()).unwrap();
    let entries = vec![
        entry("./dir", EntryKind::Dir),
        entry("./link", EntryKind::Symlink),
        entry("./odd", EntryKind::Unknown),
        entry("./plain", EntryKind::File),
    ];
    let files = select_files(&entries, ".", &Vec::new(), &ov, true);
    assert_eq!(files, strings(&["plain"]));
}

#[test]
fn marked_dirs_keeps_exactly_the_flagged_directories() {
    let entries = vec![
        entry(".", EntryKind::Dir),
        entry("./a", EntryKind::Dir),
        entry("./a/f.rs", EntryKind::File),
        entry("./b", EntryKind::Dir),
    ];
    let flags = vec![false, true, true, true];
    assert_eq!(marked_dirs(&entries, &flags), strings(&["./a", "./b"]));
    let none = vec![false, false, false, false];
    assert_eq!(marked_dirs(&entries, &none), Vec::<String>::new());
}

#[test]
fn bad_pattern_fails_the_build() {
    let err = build_matcher(".", &strings(&["["]), &Vec::new());
    assert!(err.is_err());
}

#[test]
fn escaped_negation_is_not_a_veto() {
    let ov = build_matcher(".", &strings(&["!important"]), &Vec::new()).unwrap();
    let entries = vec![entry("./!important", EntryKind::File)];
    let files = select_files(&entries, ".", &Vec::new(), &ov, false);
    assert_eq!(files, strings(&["!important"]));
}
