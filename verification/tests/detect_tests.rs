use multilint::detect::{detect_modified, is_same, snapshot_new, FileProbe, Snapshot};

fn probe(mtime: Option<u128>, content: Option<&[u8]>) -> FileProbe {
    FileProbe { mtime_nanos: mtime, content: content.map(|c| c.to_vec()) }
}

fn snap(path: &str, p: &FileProbe, use_hash: bool) -> Snapshot {
    snapshot_new(path.to_string(), p, use_hash).unwrap()
}

#[test]
fn timestamp_mode_compares_timestamps_only() {
    let before = probe(Some(100), None);
    let s = snap("a.rs", &before, false);
    assert!(is_same(&s, &probe(Some(100), None)));
    assert!(!is_same(&s, &probe(Some(101), None)));
    assert!(is_same(&s, &probe(Some(100), Some(b"rewritten"))));
}

#[test]
fn hash_mode_compares_content_only() {
    let before = probe(Some(100), Some(b"fn main() {}"));
    let s = snap("a.rs", &before, true);
    assert!(is_same(&s, &probe(Some(999), Some(b"fn main() {}"))));
    assert!(!is_same(&s, &probe(Some(100), Some(b"fn main() { }"))));
}

#[test]
fn missing_file_counts_as_changed() {
    let s = snap("a.rs", &probe(Some(100), None), false);
    assert!(!is_same(&s, &probe(None, None)));
    let h = snap("a.rs", &probe(Some(100), Some(b"x")), true);
    assert!(!is_same(&h, &probe(Some(100), None)));
}

#[test]
fn snapshot_needs_what_its_mode_reads() {
    assert!(snapshot_new("a".to_string(), &probe(None, None), false).is_err());
    assert!(snapshot_new("a".to_string(), &probe(Some(1), None), true).is_err());
    assert!(snapshot_new("a".to_string(), &probe(Some(1), None), false).is_ok());
    assert!(snapshot_new("a".to_string(), &probe(Some(1), Some(b"x")), true).is_ok());
}

#[test]
fn digest_is_real_sha256() {
    let s = snap("a", &probe(Some(1), Some(b"abc")), true);
    let expected: Vec<u8> = vec![
        0xba, 0x78, 0x16, 0xbf, 0x8f, 0x01, 0xcf, 0xea, 0x41, 0x41, 0x40, 0xde, 0x5d, 0xae, 0x22,
        0x23, 0xb0, 0x03, 0x61, 0xa3, 0x96, 0x17, 0x7a, 0x9c, 0xb4, 0x10, 0xff, 0x61, 0xf2, 0x00,
        0x15, 0xad,
    ];
    assert_eq!(s.digest.unwrap(), expected);
}

#[test]
fn reports_exactly_the_changed_files_in_order() {
    let p1 = probe(Some(1), None);
    let p2 = probe(Some(2), None);
    let p3 = probe(Some(3), None);
    let snaps = vec![snap("a", &p1, false), snap("b", &p2, false), snap("c", &p3, false)];
    let after = vec![probe(Some(1), None), probe(Some(9), None), probe(None, None)];
    let modified = detect_modified(&snaps, &after);
    assert_eq!(modified, vec!["b".to_string(), "c".to_string()]);
}

#[test]
fn a_no_op_reports_nothing() {
    let p1 = probe(Some(1), Some(b"a"));
    let p2 = probe(Some(2), Some(b"b"));
    let snaps = vec![snap("a", &p1, true), snap("b", &p2, true)];
    let after = vec![probe(Some(1), Some(b"a")), probe(Some(2), Some(b"b"))];
    assert_eq!(detect_modified(&snaps, &after), Vec::<String>::new());
}
