use cultist::cat_file::{read_batch_replies, revision_spec_exec, CatFileError};

fn specs(values: &[&str]) -> Vec<String> {
    values.iter().map(|value| value.to_string()).collect()
}

#[test]
fn revision_specs_use_forward_slashes() {
    assert_eq!(revision_spec_exec("abc", "src\\input.rs"), "abc:src/input.rs");
    assert_eq!(revision_spec_exec("HEAD", "src/a.rs"), "HEAD:src/a.rs");
}

#[test]
fn batch_replies_read_blobs_and_missing_objects_in_order() {
    let output = b"1111 blob 5\nfn x\n\nabc:gone.rs missing\n2222 tree 3\nxyz\n";
    let replies =
        read_batch_replies(output, &specs(&["abc:a.rs", "abc:gone.rs", "abc:dir"])).unwrap();
    assert_eq!(replies, vec![Some("fn x\n".to_string()), None, None]);
}

#[test]
fn batch_replies_refuse_malformed_output() {
    assert_eq!(
        read_batch_replies(b"", &specs(&["a:b"])).unwrap_err(),
        CatFileError::Ended("a:b".to_string())
    );
    assert_eq!(
        read_batch_replies(b"1111 blob\n", &specs(&["a:b"])).unwrap_err(),
        CatFileError::InvalidHeader("a:b".to_string())
    );
    assert_eq!(
        read_batch_replies(b"1111 blob x\n", &specs(&["a:b"])).unwrap_err(),
        CatFileError::InvalidSize("a:b".to_string(), "x".to_string())
    );
    assert_eq!(
        read_batch_replies(b"1111 blob 9\nshort\n", &specs(&["a:b"])).unwrap_err(),
        CatFileError::Truncated
    );
    assert_eq!(
        read_batch_replies(b"1111 blob 2\nabc", &specs(&["a:b"])).unwrap_err(),
        CatFileError::InvalidTerminator("a:b".to_string())
    );
    assert_eq!(
        read_batch_replies(b"1111 blob 2 extra\nab\n", &specs(&["a:b"])).unwrap_err(),
        CatFileError::InvalidHeader("a:b".to_string())
    );
    assert_eq!(read_batch_replies(b"", &Vec::new()).unwrap(), Vec::<Option<String>>::new());
}

#[test]
fn non_utf8_blobs_have_no_source() {
    let output = b"1111 blob 1\n\xff\n";
    assert_eq!(read_batch_replies(output, &specs(&["a:b"])).unwrap(), vec![None]);
}
