use multilint::config::{
    bool_true, config_candidates, merge, parent_dir, ConfValue, GlobalConfig, LinterConfig,
};
use multilint::linter::Linter;

fn table(pairs: Vec<(&str, ConfValue)>) -> ConfValue {
    ConfValue::Table(pairs.into_iter().map(|(k, v)| (k.to_string(), v)).collect())
}

#[test]
fn update_overrides_leaves_and_merges_tables() {
    let base = table(vec![
        ("a", ConfValue::Leaf(0)),
        ("t", table(vec![("x", ConfValue::Leaf(1))])),
    ]);
    let update = table(vec![
        ("t", table(vec![("y", ConfValue::Leaf(2)), ("x", ConfValue::Leaf(4))])),
        ("b", ConfValue::Leaf(3)),
    ]);
    let merged = merge(&base, &update);
    let expected = table(vec![
        ("a", ConfValue::Leaf(0)),
        ("t", table(vec![("x", ConfValue::Leaf(4)), ("y", ConfValue::Leaf(2))])),
        ("b", ConfValue::Leaf(3)),
    ]);
    assert_eq!(merged, expected);
}

#[test]
fn a_leaf_update_replaces_a_table() {
    let base = table(vec![("t", table(vec![("x", ConfValue::Leaf(1))]))]);
    let update = table(vec![("t", ConfValue::Leaf(9))]);
    assert_eq!(merge(&base, &update), table(vec![("t", ConfValue::Leaf(9))]));
}

#[test]
fn candidates_run_from_the_root_down() {
    assert_eq!(
        config_candidates("/a/b"),
        vec![
            "/multilint.toml".to_string(),
            "/a/multilint.toml".to_string(),
            "/a/b/multilint.toml".to_string(),
        ]
    );
    assert_eq!(
        config_candidates("rel"),
        vec!["multilint.toml".to_string(), "rel/multilint.toml".to_string()]
    );
}

#[test]
fn parents_walk_up_to_the_root() {
    assert_eq!(parent_dir("/a/b"), Some("/a".to_string()));
    assert_eq!(parent_dir("/a"), Some("/".to_string()));
    assert_eq!(parent_dir("/"), None);
    assert_eq!(parent_dir("a/b"), Some("a".to_string()));
    assert_eq!(parent_dir("a"), Some("".to_string()));
    assert_eq!(parent_dir(""), None);
}

#[test]
fn global_excludes_come_before_the_linters_own() {
    let config = LinterConfig {
        command: "echo".to_string(),
        excludes: vec!["own".to_string()],
        ..Default::default()
    };
    let global = GlobalConfig { excludes: vec!["shared".to_string()] };
    let linter = Linter::from_config(config, &global);
    assert_eq!(linter.excludes, vec!["shared".to_string(), "own".to_string()]);
    assert_eq!(linter.command, "echo");
}

#[test]
fn flag_defaults() {
    assert!(bool_true());
    let d = LinterConfig::default();
    assert!(!d.exclude_submodules && !d.single_file && !d.check_hash);
    assert_eq!(d.command, "");
}
