use cultist::clean_scope::{
    build_clean_tree, node_file_path, overlay_applies, scope_fingerprint_exec,
    scope_material_exec, selection_text, ScopeChild, ScopeFile, ScopeNode,
};
use cultist::rust_facts::{RustFileFacts, RustInput};
use cultist::test_module_aggregate::TestModulePrecedent;

const SELECTION: &str = ".git\u{1f}target";

fn file(name: &str, oid: &str) -> ScopeFile {
    ScopeFile { name: name.to_string(), content_id: oid.to_string() }
}

fn scope(files: &[(&str, &str)], children: &[(&str, &str)]) -> ScopeNode {
    ScopeNode {
        relative: String::new(),
        files: files.iter().map(|(name, oid)| file(name, oid)).collect(),
        children: children
            .iter()
            .map(|(name, oid)| ScopeChild {
                name: name.to_string(),
                node: ScopeNode {
                    relative: name.to_string(),
                    files: vec![file("inner.rs", oid)],
                    children: Vec::new(),
                },
            })
            .collect(),
    }
}

fn row(path: &str, content_id: Option<&str>) -> RustInput {
    RustInput { path: path.to_string(), content_id: content_id.map(|id| id.to_string()) }
}

#[test]
fn fingerprint_binds_child_identity_config_and_coordinate() {
    let root_a = "/repo-a";
    let root_b = "/repo-b";
    let baseline = scope(&[("lib.rs", "aaa")], &[("sub", "bbb")]);
    let changed_file_oid = scope(&[("lib.rs", "ccc")], &[("sub", "bbb")]);
    let changed_child_oid = scope(&[("lib.rs", "aaa")], &[("sub", "ddd")]);

    assert_eq!(
        scope_fingerprint_exec(&baseline, root_a, SELECTION),
        scope_fingerprint_exec(&baseline, root_a, SELECTION)
    );
    assert_ne!(
        scope_fingerprint_exec(&baseline, root_a, SELECTION),
        scope_fingerprint_exec(&changed_file_oid, root_a, SELECTION)
    );
    assert_ne!(
        scope_fingerprint_exec(&baseline, root_a, SELECTION),
        scope_fingerprint_exec(&changed_child_oid, root_a, SELECTION)
    );
    assert_ne!(
        scope_fingerprint_exec(&baseline, root_a, SELECTION),
        scope_fingerprint_exec(&baseline, root_b, SELECTION)
    );

    let mut relocated = scope(&[("lib.rs", "aaa")], &[("sub", "bbb")]);
    relocated.relative = "elsewhere".to_string();
    assert_ne!(
        scope_fingerprint_exec(&baseline, root_a, SELECTION),
        scope_fingerprint_exec(&relocated, root_a, SELECTION)
    );
}

#[test]
fn fingerprint_binds_the_file_selection() {
    let baseline = scope(&[("lib.rs", "aaa")], &[]);
    assert_ne!(
        scope_fingerprint_exec(&baseline, "/repo", SELECTION),
        scope_fingerprint_exec(&baseline, "/repo", ".git")
    );
    let id = scope_fingerprint_exec(&baseline, "/repo", SELECTION);
    assert_eq!(id.len(), 64);
    assert!(id.chars().all(|c| c.is_ascii_hexdigit() && !c.is_ascii_uppercase()));
}

#[test]
fn scope_material_frames_each_part_with_its_length() {
    let node = scope(&[("a", "b")], &[]);
    let material = scope_material_exec(&node, "/repo", "x");
    let mut expected = Vec::new();
    for part in ["", "x", "a", "b"] {
        expected.extend_from_slice(&(part.len() as u64).to_le_bytes());
        expected.extend_from_slice(part.as_bytes());
    }
    assert_eq!(material, expected);
}

#[test]
fn clean_tree_groups_rows_by_directory_and_ignores_volatile_rows() {
    let rows = vec![
        row("/repo/root.rs", Some("aaaa")),
        row("/repo/src/lib.rs", Some("bbbb")),
        row("/repo/src/deep/util.rs", None),
    ];

    let tree = build_clean_tree("/repo", &rows);

    let names: Vec<&str> = tree.files.iter().map(|f| f.name.as_str()).collect();
    assert_eq!(names, ["root.rs"]);
    let src = &tree.children.iter().find(|c| c.name == "src").unwrap().node;
    let src_names: Vec<&str> = src.files.iter().map(|f| f.name.as_str()).collect();
    assert_eq!(src_names, ["lib.rs"]);
    assert!(!src.children.iter().any(|c| c.name == "deep"));
    assert_eq!(src.relative, "src");
}

#[test]
fn clean_tree_orders_names_and_keeps_the_last_row_of_a_path() {
    let rows = vec![
        row("/repo/src/z.rs", Some("1111")),
        row("/repo/src/a.rs", Some("2222")),
        row("/repo/src/z.rs", Some("3333")),
        row("/repo/tests/t.rs", Some("4444")),
        row("/elsewhere/x.rs", Some("5555")),
    ];
    let tree = build_clean_tree("/repo", &rows);
    assert!(tree.files.is_empty());
    let children: Vec<&str> = tree.children.iter().map(|c| c.name.as_str()).collect();
    assert_eq!(children, ["src", "tests"]);
    let src = &tree.children[0].node;
    let files: Vec<(&str, &str)> =
        src.files.iter().map(|f| (f.name.as_str(), f.content_id.as_str())).collect();
    assert_eq!(files, [("a.rs", "2222"), ("z.rs", "3333")]);
    assert_eq!(tree.children[1].node.relative, "tests");
}

#[test]
fn overlay_needs_every_volatile_row_changed_and_every_change_listed() {
    let rows = vec![row("/repo/a.rs", Some("1111")), row("/repo/b.rs", None)];
    assert!(overlay_applies(&rows, &vec!["/repo/b.rs".to_string()]));
    assert!(!overlay_applies(&rows, &Vec::new()));
    assert!(!overlay_applies(&rows, &vec!["/repo/b.rs".to_string(), "/repo/c.rs".to_string()]));
    assert!(overlay_applies(&vec![row("/repo/a.rs", Some("1111"))], &Vec::new()));
}

#[test]
fn scope_files_live_under_their_directory() {
    assert_eq!(node_file_path("/repo", "", "lib.rs"), "/repo/lib.rs");
    assert_eq!(node_file_path("/repo", "src/deep", "util.rs"), "/repo/src/deep/util.rs");
}

#[test]
fn selection_joins_skipped_directories_with_the_unit_separator() {
    assert_eq!(selection_text(&vec![".git".to_string(), "target".to_string()]), SELECTION);
    assert_eq!(selection_text(&vec!["target".to_string()]), "target");
    assert_eq!(selection_text(&Vec::new()), "");
}

#[test]
fn scope_precedent_adds_file_modules_and_child_counts() {
    let mut facts = RustFileFacts::new();
    facts.record_module("tests", 1, &vec![cultist::rust_facts::CfgMeta::List {
        ident: Some("cfg".to_string()),
        nested: Some(vec![cultist::rust_facts::CfgMeta::Path { ident: Some("test".to_string()) }]),
    }]);
    let mut parent = TestModulePrecedent::empty();
    parent.add_test_modules(&facts);
    assert_eq!(parent.total, 1);

    let mut child = TestModulePrecedent::empty();
    child.add("tests");
    child.add("unit_tests");
    child.add("tests");
    parent.merge(&child);
    assert_eq!(parent.total, 4);
    assert_eq!(parent.name_counts.get("tests"), Some(3));
    assert_eq!(parent.name_counts.get("unit_tests"), Some(1));
}
