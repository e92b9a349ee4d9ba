use cultist::c1_local_alias::{
    alias_canonical_c1, alias_net_savings, checked_expanded_len, expand_body, expand_c1_aliases,
    parse_alias_definition,
};

#[test]
fn expanded_length_arithmetic_fails_closed_on_overflow() {
    assert!(checked_expanded_len(usize::MAX, 1).is_err());
}

#[test]
fn expanded_length_adds_within_range() {
    assert_eq!(checked_expanded_len(3, 4).unwrap(), 7);
    assert_eq!(
        checked_expanded_len(usize::MAX, 1).unwrap_err().to_string(),
        "C1 local aliases: expanded canonical C1 byte count overflow"
    );
}

#[test]
fn canonical_text_passes_through() {
    let text = "C1\n{\"a\":\"b\"}\n";
    assert_eq!(expand_c1_aliases(text).unwrap(), text);
}

#[test]
fn packet_expands_references_outside_strings() {
    let packet = "C1A\nA1 \"long literal\"\nC1\n[@1,\"@1 stays\",@1]\n";
    assert_eq!(
        expand_c1_aliases(packet).unwrap(),
        "C1\n[\"long literal\",\"@1 stays\",\"long literal\"]\n"
    );
}

#[test]
fn packet_errors_are_specific() {
    let message = |input: &str| expand_c1_aliases(input).unwrap_err().to_string();
    assert_eq!(
        message("X\n"),
        "C1 local aliases: input must begin with `C1` or the research `C1A` header"
    );
    assert_eq!(
        message("C1A\nA1 \"x\"\n"),
        "C1 local aliases: alias packet is missing canonical C1 body"
    );
    assert_eq!(
        message("C1A\nC1\n[]\n"),
        "C1 local aliases: C1A packet must declare at least one alias"
    );
    assert_eq!(
        message("C1A\nA2 \"x\"\nC1\n[]\n"),
        "C1 local aliases: alias A2 is out of sequence; expected A1"
    );
    assert_eq!(
        message("C1A\nA1 \"x\"\nA2 \"x\"\nC1\n[]\n"),
        "C1 local aliases: duplicate alias literal"
    );
    assert_eq!(
        message("C1A\nA1 \"x\"\nC1\n[@2]\n"),
        "C1 local aliases: unknown alias reference `@2`"
    );
    assert_eq!(
        message("C1A\nA1 \"x\"\nC1\n[@]\n"),
        "C1 local aliases: malformed alias reference at byte 4"
    );
    assert_eq!(
        message("C1A\nA1 \"x\"\nC1\n[\"open]\n"),
        "C1 local aliases: unterminated JSON string in alias body"
    );
    assert_eq!(
        message("C1A\nA1 \"\\u0041\"\nC1\n[]\n"),
        "C1 local aliases: alias literal must use canonical JSON encoding"
    );
}

#[test]
fn alias_definitions_are_checked() {
    assert_eq!(
        parse_alias_definition("A12 \"v\"").unwrap(),
        (12, "\"v\"".to_string())
    );
    assert!(parse_alias_definition("B1 \"v\"").is_err());
    assert!(parse_alias_definition("A1\"v\"").is_err());
    assert_eq!(
        parse_alias_definition("A0 \"v\"").unwrap_err().to_string(),
        "C1 local aliases: alias ids start at A1"
    );
    assert_eq!(
        parse_alias_definition("Ax \"v\"").unwrap_err().to_string(),
        "C1 local aliases: invalid alias id `x`"
    );
    assert!(parse_alias_definition("A1 not-json")
        .unwrap_err()
        .to_string()
        .starts_with("C1 local aliases: invalid alias JSON string: "));
}

#[test]
fn body_expansion_respects_the_byte_bound() {
    let aliases = vec![format!("\"{}\"", "x".repeat(600_000))];
    let error = expand_body("C1\n[@1,@1]\n", &aliases).unwrap_err();
    assert_eq!(
        error.to_string(),
        "C1 local aliases: expanded canonical C1 exceeds the 1048576-byte transport limit"
    );
}

#[test]
fn net_savings_counts_tokens_and_definition() {
    assert_eq!(alias_net_savings(34, 3, 1), Some(58));
    assert_eq!(alias_net_savings(2, 9, 1), None);
    assert_eq!(alias_net_savings(10, 1, 1), None);
    assert_eq!(alias_net_savings(usize::MAX, 2, 1), None);
}

#[test]
fn repeated_literals_become_aliases_and_expand_back() {
    let input = "C1\n{\"kind\":\"preflight-inventory-path-overlap\",\"x\":\"preflight-inventory-path-overlap\",\"y\":\"preflight-inventory-path-overlap\"}\n";
    let transform = alias_canonical_c1(input).unwrap();
    assert!(transform.used_aliases());
    assert_eq!(
        transform.encoded,
        "C1A\nA1 \"preflight-inventory-path-overlap\"\nC1\n{\"kind\":@1,\"x\":@1,\"y\":@1}\n"
    );
    assert_eq!(transform.aliases.len(), 1);
    assert_eq!(transform.aliases[0].id, 1);
    assert_eq!(transform.aliases[0].value, "preflight-inventory-path-overlap");
    assert_eq!(transform.aliases[0].occurrences, 3);
    assert_eq!(transform.aliases[0].net_bytes_saved, 58);
    assert_eq!(transform.canonical_bytes, input.len());
    assert_eq!(transform.encoded_bytes, transform.encoded.len());
    assert_eq!(expand_c1_aliases(&transform.encoded).unwrap(), input);
}

#[test]
fn short_or_unique_literals_stay_plain() {
    let input = "C1\n[\"a\",\"a\",\"b\"]\n";
    let transform = alias_canonical_c1(input).unwrap();
    assert!(!transform.used_aliases());
    assert_eq!(transform.encoded, input);
    assert!(alias_canonical_c1("X\n").is_err());
    assert_eq!(
        alias_canonical_c1("C1\n[\"open]\n").unwrap_err().to_string(),
        "C1 local aliases: unterminated JSON string in canonical C1"
    );
}

#[test]
fn unaliased_transform_expands_back_to_the_input() {
    let input = "C1\n{\"a\":\"x\",\"b\":\"y\"}";
    let transform = alias_canonical_c1(input).unwrap();
    assert!(transform.aliases.is_empty());
    assert_eq!(transform.encoded, input);
    assert_eq!(expand_c1_aliases(&transform.encoded).unwrap(), input);
}

#[test]
fn aliased_transform_expands_back_to_the_input() {
    let literal = "\"a fairly long repeated string literal\"";
    let input = format!("C1\n{{\"a\":{literal},\"b\":{literal},\"c\":[{literal},{literal}]}}");
    let transform = alias_canonical_c1(&input).unwrap();
    assert!(!transform.aliases.is_empty());
    assert!(transform.encoded.starts_with("C1A\n"));
    assert_eq!(expand_c1_aliases(&transform.encoded).unwrap(), input);
}
