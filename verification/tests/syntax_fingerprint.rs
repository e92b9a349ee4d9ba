use cultist::generated_diff::SourceChangeClass;
use cultist::syntax_fingerprint::{
    classify_source_versions, rust_syntax_fingerprint, same_tokens, source_syntax_changed,
    strip_doc_attributes, Delim, TokenModel,
};

#[test]
fn comments_and_docs_do_not_change_syntax_fingerprint() {
    let before = "// old\n/// old docs\nfn answer() -> usize { 42 }";
    let after = "// new\n/// new docs\nfn answer() -> usize { 42 }";
    assert_eq!(
        rust_syntax_fingerprint(before),
        rust_syntax_fingerprint(after)
    );
}

#[test]
fn code_change_changes_syntax_fingerprint() {
    assert_ne!(
        rust_syntax_fingerprint("fn answer() -> usize { 41 }"),
        rust_syntax_fingerprint("fn answer() -> usize { 42 }")
    );
}

#[test]
fn fingerprint_keeps_tokens_and_drops_doc_attributes() {
    let tokens = rust_syntax_fingerprint("#[doc = \"x\"] fn f() {}").unwrap();
    assert_eq!(
        tokens,
        vec![
            TokenModel::Ident("fn".to_string()),
            TokenModel::Ident("f".to_string()),
            TokenModel::Group { delimiter: Delim::Parenthesis, stream: vec![] },
            TokenModel::Group { delimiter: Delim::Brace, stream: vec![] },
        ]
    );
}

#[test]
fn inner_and_nested_doc_attributes_are_dropped() {
    let with_docs = "//! crate docs\nmod m { #![doc = \"inner\"] /** block */ fn g() { /// x\n let a = 1; } }";
    let without = "mod m { fn g() { let a = 1; } }";
    assert_eq!(rust_syntax_fingerprint(with_docs), rust_syntax_fingerprint(without));
}

#[test]
fn other_attributes_are_kept() {
    assert_ne!(
        rust_syntax_fingerprint("#[inline] fn f() {}"),
        rust_syntax_fingerprint("fn f() {}")
    );
    assert_ne!(
        rust_syntax_fingerprint("#[cfg(doc)] fn f() {}"),
        rust_syntax_fingerprint("fn f() {}")
    );
}

#[test]
fn unlexable_source_has_no_fingerprint() {
    assert_eq!(rust_syntax_fingerprint("fn f() { \"unterminated }"), None);
    assert_eq!(rust_syntax_fingerprint("fn f() { )"), None);
}

#[test]
fn punct_spacing_is_part_of_the_fingerprint() {
    let joined = rust_syntax_fingerprint("a += b").unwrap();
    let split = rust_syntax_fingerprint("a + = b").unwrap();
    assert!(!same_tokens(&joined, &split));
    assert!(same_tokens(&joined, &rust_syntax_fingerprint("a   +=\n b").unwrap()));
}

#[test]
fn strip_leaves_a_lone_hash_in_place() {
    let tokens = vec![
        TokenModel::Punct { ch: '#', joint: false },
        TokenModel::Punct { ch: '#', joint: false },
        TokenModel::Group {
            delimiter: Delim::Bracket,
            stream: vec![TokenModel::Ident("doc".to_string())],
        },
        TokenModel::Ident("x".to_string()),
    ];
    assert_eq!(
        strip_doc_attributes(&tokens),
        vec![
            TokenModel::Punct { ch: '#', joint: false },
            TokenModel::Ident("x".to_string()),
        ]
    );
}

#[test]
fn syntax_change_needs_both_versions() {
    assert!(!source_syntax_changed(None, "fn f() {}"));
    assert!(!source_syntax_changed(Some("fn f() { )"), "fn f() {}"));
    assert!(!source_syntax_changed(Some("/// a\nfn f() {}"), "fn f() {}"));
    assert!(source_syntax_changed(Some("fn f() {}"), "fn g() {}"));
}

#[test]
fn source_versions_are_classified_by_fingerprint() {
    assert_eq!(
        classify_source_versions(Some("// a\nfn f() {}"), Some("fn f() {}")),
        SourceChangeClass::CommentsOrDocsOnly
    );
    assert_eq!(
        classify_source_versions(Some("fn f() {}"), Some("fn f() { 1 }")),
        SourceChangeClass::SyntaxChanged
    );
    assert_eq!(
        classify_source_versions(None, Some("fn f() {}")),
        SourceChangeClass::Unclassified
    );
    assert_eq!(
        classify_source_versions(Some("fn f() { )"), Some("fn f() {}")),
        SourceChangeClass::Unclassified
    );
}
