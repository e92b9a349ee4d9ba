use cultist::rust_facts::{
    cache_entry_path, has_rust_extension, has_test_attr, is_test_module, join_path,
    lookup_index_id, meta_mentions_test, parse_dirty_paths, parse_index_ids, parse_nul_paths,
    path_before, path_has_skipped_dir, same_path_exec, select_git_inputs, should_visit,
    parse_rust_source, split_words, valid_content_id, CfgMeta, RustFactScan, RustFileFacts,
};

fn word(name: &str) -> CfgMeta {
    CfgMeta::Path { ident: Some(name.to_string()) }
}

fn list(name: &str, items: Vec<CfgMeta>) -> CfgMeta {
    CfgMeta::List { ident: Some(name.to_string()), nested: Some(items) }
}

fn strings(values: &[&str]) -> Vec<String> {
    values.iter().map(|value| value.to_string()).collect()
}

const OID: &str = "0123456789abcdef0123456789abcdef01234567";

#[test]
fn cfg_test_gates_a_module_and_not_test_does_not() {
    assert!(is_test_module(&vec![list("cfg", vec![word("test")])]));
    assert!(is_test_module(&vec![list("cfg", vec![list("all", vec![word("test"), word("unix")])])]));
    assert!(!is_test_module(&vec![list("cfg", vec![list("not", vec![word("test")])])]));
    assert!(is_test_module(&vec![list(
        "cfg",
        vec![list("not", vec![list("not", vec![word("test")])])]
    )]));
    assert!(!is_test_module(&vec![list("allow", vec![word("test")])]));
    assert!(!is_test_module(&vec![CfgMeta::NameValue { ident: Some("cfg".to_string()) }]));
    assert!(!is_test_module(&vec![CfgMeta::List { ident: Some("cfg".to_string()), nested: None }]));
    assert!(!is_test_module(&vec![list("cfg", vec![word("testing")])]));
}

#[test]
fn meta_mentions_test_flips_under_not() {
    assert!(meta_mentions_test(&word("test"), false));
    assert!(!meta_mentions_test(&word("test"), true));
    assert!(meta_mentions_test(&list("not", vec![word("test")]), true));
    assert!(!meta_mentions_test(&CfgMeta::Path { ident: None }, false));
}

#[test]
fn test_attribute_is_found_by_name() {
    assert!(has_test_attr(&vec![word("inline"), word("test")]));
    assert!(!has_test_attr(&vec![word("inline")]));
    assert!(!has_test_attr(&Vec::new()));
}

#[test]
fn recorded_items_build_the_file_facts() {
    let mut facts = RustFileFacts::new();
    facts.record_module("support", 2, &Vec::new());
    facts.record_module("tests", 4, &vec![list("cfg", vec![word("test")])]);
    facts.record_function("works", 6, &vec![word("test")]);
    facts.record_function("helper", 8, &Vec::new());

    assert_eq!(facts.test_modules.len(), 1);
    assert_eq!(facts.test_modules[0].name, "tests");
    assert_eq!(facts.test_modules[0].line, 4);
    assert_eq!(facts.explicit_tests.len(), 1);
    assert_eq!(facts.explicit_tests[0].name, "works");
    assert!(facts.module_names.contains(&"support".to_string()));
    assert!(facts.module_names.contains(&"tests".to_string()));
    assert_eq!(facts.parse_error, None);

    let broken = RustFileFacts::unparsed("expected item");
    assert_eq!(broken.parse_error.as_deref(), Some("expected item"));
    assert!(broken.module_names.is_empty());
}

#[test]
fn content_ids_are_long_hexadecimal_names() {
    assert!(valid_content_id(OID));
    assert!(valid_content_id(&"a".repeat(32)));
    assert!(valid_content_id(&"F".repeat(128)));
    assert!(!valid_content_id(&"a".repeat(31)));
    assert!(!valid_content_id(&"a".repeat(129)));
    assert!(!valid_content_id(&format!("{}g", "a".repeat(40))));
    assert!(!valid_content_id(""));
}

#[test]
fn cache_entries_are_named_by_content_id() {
    assert_eq!(cache_entry_path("/cache", OID), Some(format!("/cache/{OID}.json")));
    assert_eq!(cache_entry_path("/cache/", OID), Some(format!("/cache/{OID}.json")));
    assert_eq!(cache_entry_path("/cache", "../escape"), None);
}

#[test]
fn join_path_adds_one_separator() {
    assert_eq!(join_path("/repo", "src/lib.rs"), "/repo/src/lib.rs");
    assert_eq!(join_path("/repo/", "src/lib.rs"), "/repo/src/lib.rs");
    assert_eq!(join_path("/repo", "/abs.rs"), "/abs.rs");
    assert_eq!(join_path("", "a.rs"), "a.rs");
}

#[test]
fn nul_paths_drop_empty_records_and_refuse_invalid_utf8() {
    assert_eq!(parse_nul_paths(b"src/a.rs\0src/b.rs\0"), Some(strings(&["src/a.rs", "src/b.rs"])));
    assert_eq!(parse_nul_paths(b"\0\0x.rs"), Some(strings(&["x.rs"])));
    assert_eq!(parse_nul_paths(b""), Some(Vec::new()));
    assert_eq!(parse_nul_paths(b"ok.rs\0\xff.rs\0"), None);
}

#[test]
fn index_ids_keep_stage_zero_entries_with_valid_names() {
    let output = format!(
        "100644 {OID} 0\tsrc/a.rs\0100644 {OID} 1\tsrc/conflict.rs\0100644 short 0\tsrc/short.rs\0"
    );
    let entries = parse_index_ids(output.as_bytes()).unwrap();
    assert_eq!(entries, vec![("src/a.rs".to_string(), OID.to_string())]);
    assert_eq!(lookup_index_id(&entries, "src/a.rs"), Some(OID.to_string()));
    assert_eq!(lookup_index_id(&entries, "src/b.rs"), None);

    assert_eq!(parse_index_ids(b"no tab here\0"), None);
    assert_eq!(parse_index_ids(b"100644 only\tsrc/a.rs\0"), None);
    assert_eq!(parse_index_ids(b""), Some(Vec::new()));
}

#[test]
fn index_lookup_takes_the_last_entry_for_a_path() {
    let later = "f".repeat(40);
    let output = format!("100644 {OID} 0\tsrc/a.rs\0100644 {later} 0\tsrc/a.rs\0");
    let entries = parse_index_ids(output.as_bytes()).unwrap();
    assert_eq!(lookup_index_id(&entries, "src/a.rs"), Some(later));
    assert_eq!(lookup_index_id(&entries, "src//a.rs"), lookup_index_id(&entries, "src/a.rs"));
}

#[test]
fn dirty_paths_include_both_sides_of_a_rename() {
    let dirty = parse_dirty_paths(b" M src/a.rs\0R  src/new.rs\0src/old.rs\0?? src/c.rs\0").unwrap();
    assert_eq!(dirty, strings(&["src/a.rs", "src/new.rs", "src/old.rs", "src/c.rs"]));
    assert_eq!(parse_dirty_paths(b"XY\0"), None);
    assert_eq!(parse_dirty_paths(b"R  src/new.rs\0"), None);
    assert_eq!(parse_dirty_paths(b"M-src/a.rs\0"), None);
    assert_eq!(parse_dirty_paths(b""), Some(Vec::new()));
}

#[test]
fn skipped_directories_match_whole_components() {
    let skipped = strings(&[".git", "target"]);
    assert!(path_has_skipped_dir("target/debug/build.rs", &skipped));
    assert!(path_has_skipped_dir("crates/x/target/a.rs", &skipped));
    assert!(!path_has_skipped_dir("src/targets.rs", &skipped));
    assert!(!path_has_skipped_dir("src/lib.rs", &skipped));
    assert!(should_visit(false, Some("target"), &skipped));
    assert!(!should_visit(true, Some("target"), &skipped));
    assert!(should_visit(true, Some("src"), &skipped));
    assert!(should_visit(true, None, &skipped));
}

#[test]
fn rust_sources_are_recognised_by_extension() {
    assert!(has_rust_extension("src/lib.rs"));
    assert!(has_rust_extension("/repo/a.b.rs"));
    assert!(!has_rust_extension("src/.rs"));
    assert!(!has_rust_extension("src/lib.rs.orig"));
    assert!(!has_rust_extension("src/rs"));
    assert!(!has_rust_extension("/"));
    assert!(has_rust_extension("src/lib.rs/"));
}

#[test]
fn paths_compare_component_by_component() {
    assert!(path_before("/r/src/foo/x.rs", "/r/src/foo-bar.rs"));
    assert!(!path_before("/r/src/foo-bar.rs", "/r/src/foo/x.rs"));
    assert!(path_before("/r/a.rs", "/r/b.rs"));
    assert!(same_path_exec("/r//src/./a.rs", "/r/src/a.rs"));
    assert!(!same_path_exec("/r/src/a.rs", "r/src/a.rs"));
    assert!(!same_path_exec("./a.rs", "a.rs"));
}

#[test]
fn git_inputs_skip_excluded_and_irregular_files_and_key_clean_ones() {
    let index = vec![
        ("src/a.rs".to_string(), OID.to_string()),
        ("src/b.rs".to_string(), OID.to_string()),
    ];
    let inputs = select_git_inputs(
        "/repo",
        &strings(&["src/a.rs", "src/b.rs", "target/x.rs", "src/link.rs", "src/new.rs", "src/gone.rs"]),
        &vec![true, true, true, false, true, true],
        &strings(&["/repo/src/gone.rs"]),
        &strings(&["target"]),
        &index,
        &strings(&["src/b.rs", "src/new.rs"]),
    );
    assert_eq!(inputs.len(), 3);
    assert_eq!(inputs[0].path, "/repo/src/a.rs");
    assert_eq!(inputs[0].content_id.as_deref(), Some(OID));
    assert_eq!(inputs[1].path, "/repo/src/b.rs");
    assert_eq!(inputs[1].content_id, None);
    assert_eq!(inputs[2].path, "/repo/src/new.rs");
    assert_eq!(inputs[2].content_id, None);
}

#[test]
fn scan_counts_sources_and_sorts_files_by_path() {
    let mut scan = RustFactScan::new();
    scan.record("/r/src/foo-bar.rs", RustFileFacts::new(), true);
    scan.record("/r/src/foo/x.rs", RustFileFacts::new(), false);
    scan.record("/r/a.rs", RustFileFacts::unparsed("bad"), false);
    scan.sort_files();
    assert_eq!(scan.cache_hits, 1);
    assert_eq!(scan.parsed_files, 2);
    let paths: Vec<&str> = scan.files.iter().map(|file| file.path.as_str()).collect();
    assert_eq!(paths, vec!["/r/a.rs", "/r/src/foo/x.rs", "/r/src/foo-bar.rs"]);
    assert_eq!(scan.files[0].facts.parse_error.as_deref(), Some("bad"));
}

#[test]
fn words_split_on_any_whitespace() {
    let chars: Vec<char> = "  100644 \t abc  0 ".chars().collect();
    let words: Vec<String> =
        split_words(&chars).into_iter().map(|w| w.into_iter().collect()).collect();
    assert_eq!(words, strings(&["100644", "abc", "0"]));
}

#[test]
fn parse_rust_source_accepts_a_file_and_reports_a_refusal() {
    let file = parse_rust_source("mod tests { #[test] fn t() {} }").unwrap();
    assert_eq!(file.items.len(), 1);
    let unparsed = parse_rust_source("fn broken(").unwrap_err();
    assert!(unparsed.test_modules.is_empty());
    assert!(unparsed.explicit_tests.is_empty());
    assert!(unparsed.module_names.is_empty());
    assert!(!unparsed.parse_error.unwrap().is_empty());
}
