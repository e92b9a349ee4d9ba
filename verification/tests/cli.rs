use cultist::cli::{
    change_help, is_change_command, parse_diff_args, parse_history_args, parse_output_format,
    parse_preflight_args, parse_root_args, OutputFormat, PreflightSource,
};

fn args(values: &[&str]) -> Vec<String> {
    values.iter().map(|value| value.to_string()).collect()
}

#[test]
fn recognizes_check_and_diff_as_the_same_change_command() {
    assert!(is_change_command("check"));
    assert!(is_change_command("diff"));
    assert!(!is_change_command("history"));
}

#[test]
fn parses_check_and_diff_args_identically() {
    let a = args(&["--base", "origin/main", "--format", "json", "."]);
    let check = parse_diff_args(a.clone(), "check").unwrap();
    let diff = parse_diff_args(a, "diff").unwrap();
    assert_eq!(check, diff);
}

#[test]
fn check_help_names_check_command() {
    let help = change_help("check");
    assert!(help.contains("cargo-cultist check"));
    assert!(help.contains("cargo cultist check"));
    assert!(!help.contains("cargo-cultist diff\n"));
}

#[test]
fn diff_help_names_diff_command() {
    let help = change_help("diff");
    assert!(help.contains("cargo-cultist diff"));
    assert!(help.contains("cargo cultist diff"));
    assert!(!help.contains("cargo-cultist check\n"));
}

#[test]
fn check_parse_errors_name_check_command() {
    let message = parse_diff_args(args(&["--bogus"]), "check").unwrap_err();
    assert!(message.contains("unknown check option `--bogus`"));
    assert!(message.contains("cargo cultist check --help"));
}

#[test]
fn diff_parse_errors_name_diff_command() {
    let message = parse_diff_args(args(&["--bogus"]), "diff").unwrap_err();
    assert!(message.contains("unknown diff option `--bogus`"));
    assert!(message.contains("cargo cultist diff --help"));
}

#[test]
fn parses_preflight_against_path_and_format() {
    let parsed =
        parse_preflight_args(args(&["--against", "other-agent", "--format", "json", "src"]))
            .unwrap();
    assert_eq!(parsed.source, PreflightSource::Against("other-agent".to_string()));
    assert_eq!(parsed.inventory_context, None);
    assert_eq!(parsed.path, Some("src".to_string()));
    assert_eq!(parsed.format, OutputFormat::Json);
}

#[test]
fn parses_preflight_inventory_path_and_format() {
    let parsed =
        parse_preflight_args(args(&["--inventory", "active.json", "--format", "json", "src"]))
            .unwrap();
    assert_eq!(parsed.source, PreflightSource::Inventory("active.json".to_string()));
    assert_eq!(parsed.inventory_context, None);
    assert_eq!(parsed.path, Some("src".to_string()));
    assert_eq!(parsed.format, OutputFormat::Json);
}

#[test]
fn parses_preflight_inventory_context() {
    let parsed = parse_preflight_args(args(&[
        "--inventory",
        "active.json",
        "--inventory-context",
        "context.json",
    ]))
    .unwrap();
    assert_eq!(parsed.source, PreflightSource::Inventory("active.json".to_string()));
    assert_eq!(parsed.inventory_context, Some("context.json".to_string()));
}

#[test]
fn rejects_preflight_context_without_inventory() {
    assert!(parse_preflight_args(args(&[
        "--against",
        "other",
        "--inventory-context",
        "context.json",
    ]))
    .is_err());
}

#[test]
fn rejects_preflight_without_source() {
    assert!(parse_preflight_args(vec![]).is_err());
}

#[test]
fn rejects_preflight_with_both_sources() {
    assert!(parse_preflight_args(args(&["--against", "other", "--inventory", "active.json"]))
        .is_err());
}

#[test]
fn parses_root_json_format() {
    let (format, path) = parse_root_args(args(&["--format", "json"])).unwrap();
    assert_eq!(format, OutputFormat::Json);
    assert_eq!(path, None);
}

#[test]
fn parses_history_path_limit_and_format() {
    let parsed =
        parse_history_args(args(&["--max-commits", "42", "--format", "json", "src/lib.rs"]))
            .unwrap();
    assert_eq!(parsed.path, "src/lib.rs");
    assert_eq!(parsed.max_commits, 42);
    assert_eq!(parsed.format, OutputFormat::Json);
}

#[test]
fn rejects_missing_history_path() {
    assert!(parse_history_args(vec![]).is_err());
}

#[test]
fn rejects_zero_history_limit() {
    assert!(parse_history_args(args(&["--max-commits", "0", "src/lib.rs"])).is_err());
}

#[test]
fn rejects_multiple_diff_paths() {
    assert!(parse_diff_args(args(&["a", "b"]), "diff").is_err());
}

#[test]
fn error_messages_are_exact() {
    assert_eq!(
        parse_output_format("yaml").unwrap_err(),
        "unsupported output format `yaml`; expected `text` or `json`"
    );
    assert_eq!(
        parse_root_args(args(&["--format"])).unwrap_err(),
        "`--format` requires `text` or `json`"
    );
    assert_eq!(
        parse_diff_args(args(&["--base", "a", "--base", "b"]), "diff").unwrap_err(),
        "`--base` may only be specified once"
    );
    assert_eq!(
        parse_preflight_args(args(&["--against", "a", "--inventory", "b"])).unwrap_err(),
        "preflight accepts only one of `--against REV` or `--inventory FILE`"
    );
    assert_eq!(
        parse_history_args(args(&["--max-commits", "x", "f"])).unwrap_err(),
        "`--max-commits` requires a positive integer"
    );
    let defaults = parse_history_args(args(&["f.rs"])).unwrap();
    assert_eq!(defaults.max_commits, 100);
    assert_eq!(defaults.format, OutputFormat::Text);
}
