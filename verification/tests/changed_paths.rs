use cultist::changed_paths::{decode_git_path_line, stream_changed_paths};

fn paths(output: &[u8]) -> Vec<String> {
    stream_changed_paths(output).unwrap()
}

#[test]
fn name_only_output_lists_each_path_once_per_line() {
    assert_eq!(paths(b"src/a.rs\ngenerated/out.txt\n"), vec!["src/a.rs", "generated/out.txt"]);
    assert_eq!(paths(b"src/a.rs\r\n\n\nsrc/b.rs"), vec!["src/a.rs", "src/b.rs"]);
    assert!(paths(b"").is_empty());
}

#[test]
fn quoted_paths_are_decoded() {
    assert_eq!(paths(b"\"caf\\303\\251.rs\"\n"), vec!["caf\u{e9}.rs"]);
    assert_eq!(decode_git_path_line("\"a\\tb.rs\"").unwrap(), "a\tb.rs");
    assert_eq!(decode_git_path_line("plain.rs").unwrap(), "plain.rs");
}

#[test]
fn malformed_path_lines_fail_the_stream() {
    let error = stream_changed_paths(b"ok.rs\n\"unterminated\n").unwrap_err();
    assert_eq!(error.message, "quoted path is missing its closing quote");
    let error = stream_changed_paths(b"\"\\377.rs\"\n").unwrap_err();
    assert_eq!(error.message, "quoted path is not UTF-8");
    let error = stream_changed_paths(b"\xff.rs\n").unwrap_err();
    assert_eq!(error.message, "streamed line is not valid UTF-8");
    let long = format!("{}\n", "a".repeat(9000));
    let error = stream_changed_paths(long.as_bytes()).unwrap_err();
    assert_eq!(error.message, "streamed line exceeded 8192 bytes");
}
