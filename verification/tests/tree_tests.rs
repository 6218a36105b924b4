use ashpk::errs::AshError;
use ashpk::tree::SnapshotTree;

fn sample_tree() -> SnapshotTree {
    let mut t = SnapshotTree::new();
    t.append_base_tree("0").unwrap();
    t.add_node_to_parent("0", "1").unwrap();
    t.add_node_to_parent("0", "10").unwrap();
    t.add_node_to_parent("1", "2").unwrap();
    t
}

#[test]
fn exact_id_lookup_children() {
    let t = sample_tree();
    // "10" must never be taken for a child or relative of "1".
    assert_eq!(t.children_of("1"), vec!["2".to_string()]);
    assert_eq!(t.children_of("0"), vec!["1".to_string(), "10".to_string()]);
    assert_eq!(t.parent_of("10"), Some("0".to_string()));
    assert_eq!(t.parent_of("1"), Some("0".to_string()));
}

#[test]
fn exact_id_lookup_reversed_insertion() {
    let mut t = SnapshotTree::new();
    t.append_base_tree("10").unwrap();
    t.append_base_tree("1").unwrap();
    assert_eq!(t.children_of("1"), Vec::<String>::new());
    assert_eq!(t.parent_of("1"), Some("root".to_string()));
    assert_eq!(t.parent_of("10"), Some("root".to_string()));
}

#[test]
fn base_snapshot_removal_protected() {
    let mut empty = SnapshotTree::new();
    assert_eq!(empty.remove("0"), Err(AshError::Protected));
    let mut t = sample_tree();
    assert_eq!(t.remove("0"), Err(AshError::Protected));
    assert_eq!(t.remove("root"), Err(AshError::Protected));
    // Shape is irrelevant: still protected after removing everything else.
    t.remove("2").unwrap();
    t.remove("10").unwrap();
    t.remove("1").unwrap();
    assert_eq!(t.remove("0"), Err(AshError::Protected));
}

#[test]
fn insert_errors() {
    let mut t = sample_tree();
    assert_eq!(t.insert("1", "0"), Err(AshError::DuplicateId));
    assert_eq!(t.insert("root", "0"), Err(AshError::DuplicateId));
    assert_eq!(t.insert("7", "missing"), Err(AshError::UnknownParent));
    assert_eq!(t.insert("a;b", "0"), Err(AshError::InvalidId));
    assert_eq!(t.insert("a:b", "0"), Err(AshError::InvalidId));
    assert_eq!(t.insert("", "0"), Err(AshError::InvalidId));
}

#[test]
fn remove_errors_and_success() {
    let mut t = sample_tree();
    assert_eq!(t.remove("missing"), Err(AshError::UnknownId));
    assert_eq!(t.remove("1"), Err(AshError::HasChildren));
    assert_eq!(t.remove("2"), Ok(()));
    assert_eq!(t.remove("1"), Ok(()));
    assert!(!t.contains("1"));
    assert!(t.contains("10"));
}

#[test]
fn save_load_round_trip() {
    let t = sample_tree();
    let text = t.save();
    assert_eq!(text, "0:root;1:0;10:0;2:1");
    let loaded = SnapshotTree::load(&text).unwrap();
    assert_eq!(loaded.save(), text);
    assert_eq!(loaded.len(), t.len());
    assert_eq!(loaded.parent_of("2"), Some("1".to_string()));
    assert_eq!(loaded.children_of("0"), t.children_of("0"));
}

#[test]
fn save_load_round_trip_empty() {
    let t = SnapshotTree::new();
    let text = t.save();
    assert_eq!(text, "");
    let loaded = SnapshotTree::load(&text).unwrap();
    assert_eq!(loaded.len(), 0);
}

#[test]
fn load_rejects_corrupt_input() {
    assert!(matches!(SnapshotTree::load("garbage"), Err(AshError::Corrupt)));
    // Parent never declared.
    assert!(matches!(SnapshotTree::load("1:9"), Err(AshError::Corrupt)));
    // Duplicate id.
    assert!(matches!(SnapshotTree::load("1:root;1:root"), Err(AshError::Corrupt)));
    // Too many fields in one record.
    assert!(matches!(SnapshotTree::load("1:root:extra"), Err(AshError::Corrupt)));
    // Fine input for contrast.
    assert!(SnapshotTree::load("1:root").is_ok());
}

#[test]
fn write_tree_matches_save() {
    let t = sample_tree();
    assert_eq!(t.write_tree(), t.save());
}

#[test]
fn ancestors_walk() {
    let t = sample_tree();
    assert_eq!(
        t.ancestors_of("2"),
        Some(vec!["2".to_string(), "1".to_string(), "0".to_string(), "root".to_string()])
    );
    assert_eq!(t.ancestors_of("root"), Some(vec!["root".to_string()]));
    assert_eq!(t.ancestors_of("99"), None);
}

#[test]
fn preorder_and_children() {
    let t = sample_tree();
    // Depth-first preorder: each subtree contiguous, so "2" (child of "1")
    // comes before the later sibling "10".
    assert_eq!(
        t.preorder_from("0"),
        vec!["0".to_string(), "1".to_string(), "2".to_string(), "10".to_string()]
    );
    assert_eq!(
        t.preorder_from("root"),
        vec!["0".to_string(), "1".to_string(), "2".to_string(), "10".to_string()]
    );
    assert_eq!(
        t.return_children("0"),
        vec!["1".to_string(), "2".to_string(), "10".to_string()]
    );
    assert_eq!(t.return_children("1"), vec!["2".to_string()]);
    assert_eq!(t.return_children("2"), Vec::<String>::new());
}

#[test]
fn preorder_keeps_subtrees_contiguous() {
    let mut t = SnapshotTree::new();
    t.append_base_tree("0").unwrap();
    t.add_node_to_parent("0", "1").unwrap();
    t.add_node_to_parent("0", "10").unwrap();
    t.add_node_to_parent("1", "2").unwrap();
    t.add_node_to_parent("10", "3").unwrap();
    t.add_node_to_parent("2", "4").unwrap();
    assert_eq!(
        t.preorder_from("0"),
        vec![
            "0".to_string(),
            "1".to_string(),
            "2".to_string(),
            "4".to_string(),
            "10".to_string(),
            "3".to_string(),
        ]
    );
}

#[test]
fn recurse_tree_pairs() {
    let t = sample_tree();
    assert_eq!(
        t.recurse_tree("0"),
        vec![
            "0".to_string(),
            "1".to_string(),
            "1".to_string(),
            "2".to_string(),
            "0".to_string(),
            "10".to_string(),
        ]
    );
}

#[test]
fn add_node_to_level_inserts_sibling() {
    let mut t = sample_tree();
    t.add_node_to_level("1", "11").unwrap();
    assert_eq!(t.parent_of("11"), Some("0".to_string()));
    assert_eq!(t.add_node_to_level("99", "12"), Err(AshError::UnknownId));
}

#[test]
fn print_tree_rows() {
    let t = sample_tree();
    let descs = vec![("2".to_string(), "test branch".to_string())];
    let rows = t.print_tree("1", &descs);
    // Rows follow depth-first preorder: "2" nests under its parent "1",
    // before the later sibling "10".
    assert_eq!(
        rows,
        vec![
            "0 is base snapshot".to_string(),
            "  *1 is ".to_string(),
            "    2 is test branch".to_string(),
            "  10 is ".to_string(),
        ]
    );
}
