use cultist::rust_edit_class_source::{subject_ref, validate_subject, RustEditClassSubject};

const SHA: &str = "0123456789abcdef0123456789abcdef01234567";

fn subject(repository: &str, revision: &str, path: &str) -> RustEditClassSubject {
    RustEditClassSubject {
        repository: repository.to_string(),
        revision: revision.to_string(),
        path: path.to_string(),
    }
}

fn refusal(s: &RustEditClassSubject) -> String {
    validate_subject(s).unwrap_err().to_string()
}

#[test]
fn subject_reference_joins_repository_revision_and_path() {
    assert_eq!(
        subject_ref(&subject("owner/repo", SHA, "src/lib.rs")),
        format!("owner/repo@{SHA}:src/lib.rs")
    );
}

#[test]
fn canonical_subject_is_admitted() {
    assert!(validate_subject(&subject("owner/repo", SHA, "src/lib.rs")).is_ok());
    assert!(validate_subject(&subject("owner/repo", SHA, "a.b.rs")).is_ok());
}

#[test]
fn repository_must_be_canonical_single_line_text() {
    let expected = "subject repository must be bounded canonical single-line text";
    assert_eq!(refusal(&subject("", SHA, "src/lib.rs")), expected);
    assert_eq!(refusal(&subject(" repo", SHA, "src/lib.rs")), expected);
    assert_eq!(refusal(&subject("re\npo", SHA, "src/lib.rs")), expected);
    assert_eq!(refusal(&subject(&"r".repeat(257), SHA, "src/lib.rs")), expected);
    assert!(validate_subject(&subject(&"r".repeat(256), SHA, "src/lib.rs")).is_ok());
}

#[test]
fn revision_must_be_lowercase_forty_hex() {
    let expected = "subject revision must be an exact lowercase 40-hex Git commit";
    assert_eq!(refusal(&subject("repo", &SHA.to_uppercase(), "src/lib.rs")), expected);
    assert_eq!(refusal(&subject("repo", &SHA[..39], "src/lib.rs")), expected);
    assert_eq!(refusal(&subject("", "bad", "src/lib.rs")),
        "subject repository must be bounded canonical single-line text");
}

#[test]
fn path_text_must_be_canonical() {
    let expected = "path must be bounded canonical repository-relative text";
    assert_eq!(refusal(&subject("repo", SHA, "")), expected);
    assert_eq!(refusal(&subject("repo", SHA, "src/lib.rs ")), expected);
    assert_eq!(refusal(&subject("repo", SHA, "src\\lib.rs")), expected);
    assert_eq!(refusal(&subject("repo", SHA, "src/\0.rs")), expected);
}

#[test]
fn path_must_be_normalized_relative_rust_source() {
    let expected = "path must be a normalized repository-relative Rust source path";
    assert_eq!(refusal(&subject("repo", SHA, "/src/lib.rs")), expected);
    assert_eq!(refusal(&subject("repo", SHA, "src/lib.txt")), expected);
    assert_eq!(refusal(&subject("repo", SHA, "./src/lib.rs")), expected);
    assert_eq!(refusal(&subject("repo", SHA, "src/../lib.rs")), expected);
    assert_eq!(refusal(&subject("repo", SHA, ".rs")), expected);
}

#[test]
fn long_reference_is_refused() {
    let path = format!("{}.rs", "p".repeat(400));
    assert_eq!(
        refusal(&subject(&"r".repeat(40), SHA, &path)),
        "edit-class subject reference exceeds the admitted boundary"
    );
}
