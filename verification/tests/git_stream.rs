use cultist::git_stream::{
    c_style_unquote, read_text_line_bounded, LineReader, StreamErrorKind, UnquotedPath,
};

fn bounded_lines(input: &[u8], max: usize) -> Vec<String> {
    let mut reader = LineReader::new(input.to_vec());
    let mut text = String::new();
    let mut scratch = Vec::new();
    let mut lines = Vec::new();
    loop {
        let read = read_text_line_bounded(&mut reader, &mut text, &mut scratch, max).unwrap();
        if read == 0 {
            break;
        }
        lines.push(text.trim_end_matches(['\n', '\r']).to_string());
    }
    lines
}

#[test]
fn reads_lines_with_and_without_trailing_newlines() {
    assert_eq!(
        bounded_lines(b"one\ntwo\nthree", 1024),
        vec!["one".to_string(), "two".to_string(), "three".to_string()]
    );
    assert!(bounded_lines(b"", 16).is_empty());
}

#[test]
fn fragmented_fills_reassemble_exactly() {
    // The stream arrives one byte per read; the reader sees the reassembled bytes.
    let source = b"alpha\r\nbeta\n".to_vec();
    let mut assembled = Vec::new();
    for chunk in source.chunks(1) {
        assembled.extend_from_slice(chunk);
    }
    let mut reader = LineReader::new(assembled);
    let mut text = String::new();
    let mut scratch = Vec::new();
    let mut lines = Vec::new();
    while read_text_line_bounded(&mut reader, &mut text, &mut scratch, 64).unwrap() != 0 {
        lines.push(text.trim_end_matches(['\n', '\r']).to_string());
    }
    assert_eq!(lines, vec!["alpha", "beta"]);
}

#[test]
fn over_limit_lines_fail_closed_with_invalid_data() {
    let mut reader = LineReader::new(b"ok\nway-too-long\n".to_vec());
    let mut text = String::new();
    let mut scratch = Vec::new();
    assert_eq!(read_text_line_bounded(&mut reader, &mut text, &mut scratch, 3).unwrap(), 3);
    assert_eq!(text.trim_end_matches(['\n']), "ok");
    assert_eq!(
        read_text_line_bounded(&mut reader, &mut text, &mut scratch, 3).unwrap_err().kind(),
        StreamErrorKind::InvalidData
    );
}

#[test]
fn non_utf8_lines_fail_closed() {
    let mut reader = LineReader::new(vec![b'a', 0xff, b'\n']);
    let mut text = String::new();
    let mut scratch = Vec::new();
    assert_eq!(
        read_text_line_bounded(&mut reader, &mut text, &mut scratch, 64).unwrap_err().kind(),
        StreamErrorKind::InvalidData
    );
}

#[test]
fn decodes_git_c_style_paths() {
    assert!(matches!(c_style_unquote("src/plain.rs").unwrap(), UnquotedPath::Verbatim));
    match c_style_unquote(r#""src/we\tird\\\303\251.rs""#).unwrap() {
        UnquotedPath::Decoded(bytes) => {
            assert_eq!(String::from_utf8(bytes).unwrap(), "src/we\tird\\\u{e9}.rs")
        }
        UnquotedPath::Verbatim => panic!("quoted token must decode"),
    }
    assert!(c_style_unquote(r#""dangling\.rs"#).is_err());
    assert!(c_style_unquote(r#""bad \q escape""#).is_err());
    assert!(c_style_unquote(r#""truncated \12""#).is_err());
    assert!(c_style_unquote("\"unterminated").is_err());
}

#[test]
fn over_limit_error_names_the_bound() {
    let mut reader = LineReader::new(b"abcdef\n".to_vec());
    let mut line = Vec::new();
    let error = reader.read_line_bounded(&mut line, 4).unwrap_err();
    assert_eq!(error.to_string(), "streamed line exceeded 4 bytes");
}

#[test]
fn octal_escapes_decode_to_bytes() {
    match c_style_unquote(r#""a\101\nb""#).unwrap() {
        UnquotedPath::Decoded(bytes) => assert_eq!(bytes, b"aA\nb".to_vec()),
        UnquotedPath::Verbatim => panic!("quoted token must decode"),
    }
}
