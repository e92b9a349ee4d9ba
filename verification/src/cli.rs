//! Command-line argument parsing for the root, change (`check`/`diff`),
//! `preflight` and `history` commands.
use vstd::prelude::*;

use crate::text::{chars_eq, chars_of, extend_str, parse_usize, parse_usize_chars, string_of};

verus! {

pub const DEFAULT_MAX_COMMITS: usize = 100;

#[derive(Debug, Clone, Copy, Eq, PartialEq, Structural)]
pub enum OutputFormat {
    Text,
    Json,
}

#[derive(Debug, Eq, PartialEq)]
pub struct DiffArgs {
    pub base: Option<String>,
    pub path: Option<String>,
    pub format: OutputFormat,
}

#[derive(Debug, Eq, PartialEq)]
pub enum PreflightSource {
    Against(String),
    Inventory(String),
}

#[derive(Debug, Eq, PartialEq)]
pub struct PreflightArgs {
    pub source: PreflightSource,
    pub inventory_context: Option<String>,
    pub path: Option<String>,
    pub format: OutputFormat,
}

#[derive(Debug, Eq, PartialEq)]
pub struct HistoryArgs {
    pub path: String,
    pub max_commits: usize,
    pub format: OutputFormat,
}

pub open spec fn opt_text(o: Option<String>) -> Option<Seq<char>> {
    match o {
        Some(s) => Some(s@),
        None => None,
    }
}

pub open spec fn args_view(args: Seq<String>) -> Seq<Seq<char>> {
    args.map_values(|a: String| a@)
}

/// `check` and `diff` run the same change analyzer.
pub open spec fn change_command(arg: Seq<char>) -> bool {
    arg == "check"@ || arg == "diff"@
}

pub fn is_change_command(arg: &str) -> (r: bool)
    ensures
        r == change_command(arg@),
{
    let a = chars_of(arg);
    let check = chars_of("check");
    let diff = chars_of("diff");
    chars_eq(a.as_slice(), check.as_slice()) || chars_eq(a.as_slice(), diff.as_slice())
}

pub open spec fn output_format(v: Seq<char>) -> Result<OutputFormat, Seq<char>> {
    if v == "text"@ {
        Ok(OutputFormat::Text)
    } else if v == "json"@ {
        Ok(OutputFormat::Json)
    } else {
        Err("unsupported output format `"@ + v + "`; expected `text` or `json`"@)
    }
}

pub fn parse_output_format(value: &str) -> (r: Result<OutputFormat, String>)
    ensures
        match r {
            Ok(f) => output_format(value@) == Ok::<OutputFormat, Seq<char>>(f),
            Err(m) => output_format(value@) == Err::<OutputFormat, Seq<char>>(m@),
        },
{
    let v = chars_of(value);
    let text = chars_of("text");
    let json = chars_of("json");
    if chars_eq(v.as_slice(), text.as_slice()) {
        Ok(OutputFormat::Text)
    } else if chars_eq(v.as_slice(), json.as_slice()) {
        Ok(OutputFormat::Json)
    } else {
        let mut m = chars_of("unsupported output format `");
        extend_str(&mut m, value);
        extend_str(&mut m, "`; expected `text` or `json`");
        Err(string_of(m.as_slice()))
    }
}

/// An argument that starts with `-` names an option.
pub open spec fn is_option(a: Seq<char>) -> bool {
    a.len() > 0 && a[0] == '-'
}

fn is_option_exec(a: &str) -> (r: bool)
    ensures
        r == is_option(a@),
{
    let cs = chars_of(a);
    cs.len() > 0 && cs[0] == '-'
}

fn same(a: &str, b: &str) -> (r: bool)
    ensures
        r == (a@ == b@),
{
    let x = chars_of(a);
    let y = chars_of(b);
    chars_eq(x.as_slice(), y.as_slice())
}

// ---------------------------------------------------------------------------
// Root arguments.

/// The root command's arguments from position `i` on, given the format
/// and path read so far.
pub open spec fn root_run(
    args: Seq<Seq<char>>,
    i: int,
    format: OutputFormat,
    path: Option<Seq<char>>,
) -> Result<(OutputFormat, Option<Seq<char>>), Seq<char>>
    decreases args.len() - i,
{
    if i < 0 || i >= args.len() {
        Ok((format, path))
    } else if args[i] == "--format"@ {
        if i + 1 >= args.len() {
            Err("`--format` requires `text` or `json`"@)
        } else {
            match output_format(args[i + 1]) {
                Err(e) => Err(e),
                Ok(f) => root_run(args, i + 2, f, path),
            }
        }
    } else if is_option(args[i]) {
        Err("unknown option `"@ + args[i] + "`; try `cargo cultist --help`"@)
    } else if path is Some {
        Err("expected at most one path argument; try `cargo cultist --help`"@)
    } else {
        root_run(args, i + 1, format, Some(args[i]))
    }
}

/// `[--format text|json] [PATH]`.
pub fn parse_root_args(args: Vec<String>) -> (r: Result<(OutputFormat, Option<String>), String>)
    ensures
        match r {
            Ok((f, p)) => root_run(args_view(args@), 0, OutputFormat::Text, None) == Ok::<
                (OutputFormat, Option<Seq<char>>),
                Seq<char>,
            >((f, opt_text(p))),
            Err(m) => root_run(args_view(args@), 0, OutputFormat::Text, None) == Err::<
                (OutputFormat, Option<Seq<char>>),
                Seq<char>,
            >(m@),
        },
{
    let ghost av = args_view(args@);
    let mut format = OutputFormat::Text;
    let mut path: Option<String> = None;
    let mut i: usize = 0;
    while i < args.len()
        invariant
            i <= args@.len(),
            av == args_view(args@),
            root_run(av, 0, OutputFormat::Text, None) == root_run(av, i as int, format, opt_text(path)),
        decreases args.len() - i,
    {
        let a = args[i].as_str();
        assert(a@ == av[i as int]);
        if same(a, "--format") {
            if i + 1 >= args.len() {
                return Err(crate::text::owned("`--format` requires `text` or `json`"));
            }
            assert(args[i + 1]@ == av[i + 1]);
            match parse_output_format(args[i + 1].as_str()) {
                Err(m) => return Err(m),
                Ok(f) => format = f,
            }
            i = i + 2;
        } else if is_option_exec(a) {
            let mut m = chars_of("unknown option `");
            extend_str(&mut m, a);
            extend_str(&mut m, "`; try `cargo cultist --help`");
            return Err(string_of(m.as_slice()));
        } else if path.is_some() {
            return Err(
                crate::text::owned("expected at most one path argument; try `cargo cultist --help`"),
            );
        } else {
            path = Some(crate::text::owned(a));
            i = i + 1;
        }
    }
    Ok((format, path))
}

// ---------------------------------------------------------------------------
// Change-command arguments.

pub struct DiffState {
    pub base: Option<Seq<char>>,
    pub path: Option<Seq<char>>,
    pub format: OutputFormat,
}

pub open spec fn diff_run(args: Seq<Seq<char>>, command: Seq<char>, i: int, st: DiffState) -> Result<
    DiffState,
    Seq<char>,
>
    decreases args.len() - i,
{
    if i < 0 || i >= args.len() {
        Ok(st)
    } else if args[i] == "--base"@ {
        if st.base is Some {
            Err("`--base` may only be specified once"@)
        } else if i + 1 >= args.len() {
            Err("`--base` requires a Git revision"@)
        } else {
            diff_run(args, command, i + 2, DiffState { base: Some(args[i + 1]), ..st })
        }
    } else if args[i] == "--format"@ {
        if i + 1 >= args.len() {
            Err("`--format` requires `text` or `json`"@)
        } else {
            match output_format(args[i + 1]) {
                Err(e) => Err(e),
                Ok(f) => diff_run(args, command, i + 2, DiffState { format: f, ..st }),
            }
        }
    } else if is_option(args[i]) {
        Err(
            "unknown "@ + command + " option `"@ + args[i] + "`; try `cargo cultist "@ + command
                + " --help`"@,
        )
    } else if st.path is Some {
        Err("expected at most one path argument; try `cargo cultist "@ + command + " --help`"@)
    } else {
        diff_run(args, command, i + 1, DiffState { path: Some(args[i]), ..st })
    }
}

pub open spec fn diff_state(d: DiffArgs) -> DiffState {
    DiffState { base: opt_text(d.base), path: opt_text(d.path), format: d.format }
}

/// `[--base REV] [--format text|json] [PATH]` for `check` or `diff`; error
/// messages name the command.
pub fn parse_diff_args(args: Vec<String>, command: &str) -> (r: Result<DiffArgs, String>)
    ensures
        match r {
            Ok(d) => diff_run(
                args_view(args@),
                command@,
                0,
                DiffState { base: None, path: None, format: OutputFormat::Text },
            ) == Ok::<DiffState, Seq<char>>(diff_state(d)),
            Err(m) => diff_run(
                args_view(args@),
                command@,
                0,
                DiffState { base: None, path: None, format: OutputFormat::Text },
            ) == Err::<DiffState, Seq<char>>(m@),
        },
{
    let ghost av = args_view(args@);
    let ghost start = DiffState { base: None, path: None, format: OutputFormat::Text };
    let mut parsed = DiffArgs { base: None, path: None, format: OutputFormat::Text };
    let mut i: usize = 0;
    while i < args.len()
        invariant
            i <= args@.len(),
            av == args_view(args@),
            start == (DiffState { base: None, path: None, format: OutputFormat::Text }),
            diff_run(av, command@, 0, start) == diff_run(av, command@, i as int, diff_state(parsed)),
        decreases args.len() - i,
    {
        let a = args[i].as_str();
        assert(a@ == av[i as int]);
        if same(a, "--base") {
            if parsed.base.is_some() {
                return Err(crate::text::owned("`--base` may only be specified once"));
            }
            if i + 1 >= args.len() {
                return Err(crate::text::owned("`--base` requires a Git revision"));
            }
            assert(args[i + 1]@ == av[i + 1]);
            parsed.base = Some(args[i + 1].clone());
            i = i + 2;
        } else if same(a, "--format") {
            if i + 1 >= args.len() {
                return Err(crate::text::owned("`--format` requires `text` or `json`"));
            }
            assert(args[i + 1]@ == av[i + 1]);
            match parse_output_format(args[i + 1].as_str()) {
                Err(m) => return Err(m),
                Ok(f) => parsed.format = f,
            }
            i = i + 2;
        } else if is_option_exec(a) {
            let mut m = chars_of("unknown ");
            extend_str(&mut m, command);
            extend_str(&mut m, " option `");
            extend_str(&mut m, a);
            extend_str(&mut m, "`; try `cargo cultist ");
            extend_str(&mut m, command);
            extend_str(&mut m, " --help`");
            return Err(string_of(m.as_slice()));
        } else if parsed.path.is_some() {
            let mut m = chars_of("expected at most one path argument; try `cargo cultist ");
            extend_str(&mut m, command);
            extend_str(&mut m, " --help`");
            return Err(string_of(m.as_slice()));
        } else {
            parsed.path = Some(crate::text::owned(a));
            i = i + 1;
        }
    }
    Ok(parsed)
}

/// The help text of a change command.
pub open spec fn change_help_text(command: Seq<char>) -> Seq<char> {
    "cargo-cultist "@ + command + "\n\nUSAGE:\n    cargo cultist "@ + command
        + " [--base REV] [--format text|json] [PATH]\n\n`check` and `diff` execute the same change analyzer and emit the same report.\nBy default, the analyzer compares the working tree (including staged changes) against HEAD.\nWith --base REV, it compares changes from the merge base of REV and HEAD.\n\nSupported evidence currently includes changed Rust test-module precedent and\ngenerated-companion analysis when the repository provides the required evidence."@
}

pub fn change_help(command: &str) -> (r: String)
    ensures
        r@ == change_help_text(command@),
{
    let mut m = chars_of("cargo-cultist ");
    extend_str(&mut m, command);
    extend_str(&mut m, "\n\nUSAGE:\n    cargo cultist ");
    extend_str(&mut m, command);
    extend_str(
        &mut m,
        " [--base REV] [--format text|json] [PATH]\n\n`check` and `diff` execute the same change analyzer and emit the same report.\nBy default, the analyzer compares the working tree (including staged changes) against HEAD.\nWith --base REV, it compares changes from the merge base of REV and HEAD.\n\nSupported evidence currently includes changed Rust test-module precedent and\ngenerated-companion analysis when the repository provides the required evidence.",
    );
    string_of(m.as_slice())
}

// ---------------------------------------------------------------------------
// Preflight arguments.

pub struct PreflightState {
    pub against: Option<Seq<char>>,
    pub inventory: Option<Seq<char>>,
    pub inventory_context: Option<Seq<char>>,
    pub path: Option<Seq<char>>,
    pub format: OutputFormat,
}

pub open spec fn preflight_run(args: Seq<Seq<char>>, i: int, st: PreflightState) -> Result<
    PreflightState,
    Seq<char>,
>
    decreases args.len() - i,
{
    if i < 0 || i >= args.len() {
        Ok(st)
    } else if args[i] == "--against"@ {
        if st.against is Some {
            Err("`--against` may only be specified once"@)
        } else if i + 1 >= args.len() {
            Err("`--against` requires a Git revision"@)
        } else {
            preflight_run(args, i + 2, PreflightState { against: Some(args[i + 1]), ..st })
        }
    } else if args[i] == "--inventory"@ {
        if st.inventory is Some {
            Err("`--inventory` may only be specified once"@)
        } else if i + 1 >= args.len() {
            Err("`--inventory` requires a JSON file"@)
        } else {
            preflight_run(args, i + 2, PreflightState { inventory: Some(args[i + 1]), ..st })
        }
    } else if args[i] == "--inventory-context"@ {
        if st.inventory_context is Some {
            Err("`--inventory-context` may only be specified once"@)
        } else if i + 1 >= args.len() {
            Err("`--inventory-context` requires a JSON file"@)
        } else {
            preflight_run(args, i + 2, PreflightState { inventory_context: Some(args[i + 1]), ..st })
        }
    } else if args[i] == "--format"@ {
        if i + 1 >= args.len() {
            Err("`--format` requires `text` or `json`"@)
        } else {
            match output_format(args[i + 1]) {
                Err(e) => Err(e),
                Ok(f) => preflight_run(args, i + 2, PreflightState { format: f, ..st }),
            }
        }
    } else if is_option(args[i]) {
        Err("unknown preflight option `"@ + args[i] + "`; try `cargo cultist preflight --help`"@)
    } else if st.path is Some {
        Err("expected at most one path argument; try `cargo cultist preflight --help`"@)
    } else {
        preflight_run(args, i + 1, PreflightState { path: Some(args[i]), ..st })
    }
}

pub enum SourceSpec {
    Against(Seq<char>),
    Inventory(Seq<char>),
}

pub struct PreflightSpec {
    pub source: SourceSpec,
    pub inventory_context: Option<Seq<char>>,
    pub path: Option<Seq<char>>,
    pub format: OutputFormat,
}

/// The preflight arguments: exactly one of `--against` and `--inventory`,
/// and a context only with an inventory.
pub open spec fn preflight_args(args: Seq<Seq<char>>) -> Result<PreflightSpec, Seq<char>> {
    match preflight_run(
        args,
        0,
        PreflightState {
            against: None,
            inventory: None,
            inventory_context: None,
            path: None,
            format: OutputFormat::Text,
        },
    ) {
        Err(e) => Err(e),
        Ok(st) => if st.inventory_context is Some && st.inventory is None {
            Err("`--inventory-context` requires `--inventory FILE`"@)
        } else {
            match (st.against, st.inventory) {
                (Some(a), None) => Ok(
                    PreflightSpec {
                        source: SourceSpec::Against(a),
                        inventory_context: st.inventory_context,
                        path: st.path,
                        format: st.format,
                    },
                ),
                (None, Some(f)) => Ok(
                    PreflightSpec {
                        source: SourceSpec::Inventory(f),
                        inventory_context: st.inventory_context,
                        path: st.path,
                        format: st.format,
                    },
                ),
                (Some(_), Some(_)) => Err(
                    "preflight accepts only one of `--against REV` or `--inventory FILE`"@,
                ),
                (None, None) => Err(
                    "preflight requires exactly one of `--against REV` or `--inventory FILE`"@,
                ),
            }
        },
    }
}

pub open spec fn preflight_spec(p: PreflightArgs) -> PreflightSpec {
    PreflightSpec {
        source: match p.source {
            PreflightSource::Against(a) => SourceSpec::Against(a@),
            PreflightSource::Inventory(f) => SourceSpec::Inventory(f@),
        },
        inventory_context: opt_text(p.inventory_context),
        path: opt_text(p.path),
        format: p.format,
    }
}

/// `--against REV | --inventory FILE [--inventory-context FILE]`,
/// `[--format text|json] [PATH]`.
pub fn parse_preflight_args(args: Vec<String>) -> (r: Result<PreflightArgs, String>)
    ensures
        match r {
            Ok(p) => preflight_args(args_view(args@)) == Ok::<PreflightSpec, Seq<char>>(
                preflight_spec(p),
            ),
            Err(m) => preflight_args(args_view(args@)) == Err::<PreflightSpec, Seq<char>>(m@),
        },
{
    let ghost av = args_view(args@);
    let ghost start = PreflightState {
        against: None,
        inventory: None,
        inventory_context: None,
        path: None,
        format: OutputFormat::Text,
    };
    let mut against: Option<String> = None;
    let mut inventory: Option<String> = None;
    let mut inventory_context: Option<String> = None;
    let mut path: Option<String> = None;
    let mut format = OutputFormat::Text;
    let mut i: usize = 0;
    while i < args.len()
        invariant
            i <= args@.len(),
            av == args_view(args@),
            start == (PreflightState {
                against: None,
                inventory: None,
                inventory_context: None,
                path: None,
                format: OutputFormat::Text,
            }),
            preflight_run(av, 0, start) == preflight_run(
                av,
                i as int,
                PreflightState {
                    against: opt_text(against),
                    inventory: opt_text(inventory),
                    inventory_context: opt_text(inventory_context),
                    path: opt_text(path),
                    format,
                },
            ),
        decreases args.len() - i,
    {
        let a = args[i].as_str();
        assert(a@ == av[i as int]);
        if same(a, "--against") {
            if against.is_some() {
                return Err(crate::text::owned("`--against` may only be specified once"));
            }
            if i + 1 >= args.len() {
                return Err(crate::text::owned("`--against` requires a Git revision"));
            }
            assert(args[i + 1]@ == av[i + 1]);
            against = Some(args[i + 1].clone());
            i = i + 2;
        } else if same(a, "--inventory") {
            if inventory.is_some() {
                return Err(crate::text::owned("`--inventory` may only be specified once"));
            }
            if i + 1 >= args.len() {
                return Err(crate::text::owned("`--inventory` requires a JSON file"));
            }
            assert(args[i + 1]@ == av[i + 1]);
            inventory = Some(args[i + 1].clone());
            i = i + 2;
        } else if same(a, "--inventory-context") {
            if inventory_context.is_some() {
                return Err(crate::text::owned("`--inventory-context` may only be specified once"));
            }
            if i + 1 >= args.len() {
                return Err(crate::text::owned("`--inventory-context` requires a JSON file"));
            }
            assert(args[i + 1]@ == av[i + 1]);
            inventory_context = Some(args[i + 1].clone());
            i = i + 2;
        } else if same(a, "--format") {
            if i + 1 >= args.len() {
                return Err(crate::text::owned("`--format` requires `text` or `json`"));
            }
            assert(args[i + 1]@ == av[i + 1]);
            match parse_output_format(args[i + 1].as_str()) {
                Err(m) => return Err(m),
                Ok(f) => format = f,
            }
            i = i + 2;
        } else if is_option_exec(a) {
            let mut m = chars_of("unknown preflight option `");
            extend_str(&mut m, a);
            extend_str(&mut m, "`; try `cargo cultist preflight --help`");
            return Err(string_of(m.as_slice()));
        } else if path.is_some() {
            return Err(
                crate::text::owned(
                    "expected at most one path argument; try `cargo cultist preflight --help`",
                ),
            );
        } else {
            path = Some(crate::text::owned(a));
            i = i + 1;
        }
    }
    if inventory_context.is_some() && inventory.is_none() {
        return Err(crate::text::owned("`--inventory-context` requires `--inventory FILE`"));
    }
    let source = match (against, inventory) {
        (Some(a), None) => PreflightSource::Against(a),
        (None, Some(f)) => PreflightSource::Inventory(f),
        (Some(_), Some(_)) => {
            return Err(
                crate::text::owned(
                    "preflight accepts only one of `--against REV` or `--inventory FILE`",
                ),
            );
        },
        (None, None) => {
            return Err(
                crate::text::owned(
                    "preflight requires exactly one of `--against REV` or `--inventory FILE`",
                ),
            );
        },
    };
    Ok(PreflightArgs { source, inventory_context, path, format })
}

// ---------------------------------------------------------------------------
// History arguments.

pub struct HistoryState {
    pub path: Option<Seq<char>>,
    pub max_commits: usize,
    pub format: OutputFormat,
}

pub open spec fn max_commits_error() -> Seq<char> {
    "`--max-commits` requires a positive integer"@
}

pub open spec fn history_run(args: Seq<Seq<char>>, i: int, st: HistoryState) -> Result<
    HistoryState,
    Seq<char>,
>
    decreases args.len() - i,
{
    if i < 0 || i >= args.len() {
        Ok(st)
    } else if args[i] == "--max-commits"@ {
        if i + 1 >= args.len() {
            Err(max_commits_error())
        } else {
            match parse_usize(args[i + 1]) {
                None => Err(max_commits_error()),
                Some(n) => if n == 0 {
                    Err(max_commits_error())
                } else {
                    history_run(args, i + 2, HistoryState { max_commits: n, ..st })
                },
            }
        }
    } else if args[i] == "--format"@ {
        if i + 1 >= args.len() {
            Err("`--format` requires `text` or `json`"@)
        } else {
            match output_format(args[i + 1]) {
                Err(e) => Err(e),
                Ok(f) => history_run(args, i + 2, HistoryState { format: f, ..st }),
            }
        }
    } else if is_option(args[i]) {
        Err("unknown history option `"@ + args[i] + "`; try `cargo cultist history --help`"@)
    } else if st.path is Some {
        Err("history expects exactly one file path; try `cargo cultist history --help`"@)
    } else {
        history_run(args, i + 1, HistoryState { path: Some(args[i]), ..st })
    }
}

/// The history arguments; a file path is required.
pub open spec fn history_args(args: Seq<Seq<char>>) -> Result<
    (Seq<char>, usize, OutputFormat),
    Seq<char>,
> {
    match history_run(
        args,
        0,
        HistoryState { path: None, max_commits: DEFAULT_MAX_COMMITS, format: OutputFormat::Text },
    ) {
        Err(e) => Err(e),
        Ok(st) => match st.path {
            None => Err("history requires a file path"@),
            Some(p) => Ok((p, st.max_commits, st.format)),
        },
    }
}

/// `[--max-commits N] [--format text|json] FILE`.
pub fn parse_history_args(args: Vec<String>) -> (r: Result<HistoryArgs, String>)
    ensures
        match r {
            Ok(h) => history_args(args_view(args@)) == Ok::<
                (Seq<char>, usize, OutputFormat),
                Seq<char>,
            >((h.path@, h.max_commits, h.format)),
            Err(m) => history_args(args_view(args@)) == Err::<
                (Seq<char>, usize, OutputFormat),
                Seq<char>,
            >(m@),
        },
{
    let ghost av = args_view(args@);
    let ghost start = HistoryState {
        path: None,
        max_commits: DEFAULT_MAX_COMMITS,
        format: OutputFormat::Text,
    };
    let mut path: Option<String> = None;
    let mut max_commits: usize = DEFAULT_MAX_COMMITS;
    let mut format = OutputFormat::Text;
    let mut i: usize = 0;
    while i < args.len()
        invariant
            i <= args@.len(),
            av == args_view(args@),
            start == (HistoryState {
                path: None,
                max_commits: DEFAULT_MAX_COMMITS,
                format: OutputFormat::Text,
            }),
            history_run(av, 0, start) == history_run(
                av,
                i as int,
                HistoryState { path: opt_text(path), max_commits, format },
            ),
        decreases args.len() - i,
    {
        let a = args[i].as_str();
        assert(a@ == av[i as int]);
        if same(a, "--max-commits") {
            if i + 1 >= args.len() {
                return Err(crate::text::owned("`--max-commits` requires a positive integer"));
            }
            assert(args[i + 1]@ == av[i + 1]);
            let v = chars_of(args[i + 1].as_str());
            match parse_usize_chars(v.as_slice()) {
                None => return Err(crate::text::owned("`--max-commits` requires a positive integer")),
                Some(n) => {
                    if n == 0 {
                        return Err(crate::text::owned("`--max-commits` requires a positive integer"));
                    }
                    max_commits = n;
                },
            }
            i = i + 2;
        } else if same(a, "--format") {
            if i + 1 >= args.len() {
                return Err(crate::text::owned("`--format` requires `text` or `json`"));
            }
            assert(args[i + 1]@ == av[i + 1]);
            match parse_output_format(args[i + 1].as_str()) {
                Err(m) => return Err(m),
                Ok(f) => format = f,
            }
            i = i + 2;
        } else if is_option_exec(a) {
            let mut m = chars_of("unknown history option `");
            extend_str(&mut m, a);
            extend_str(&mut m, "`; try `cargo cultist history --help`");
            return Err(string_of(m.as_slice()));
        } else if path.is_some() {
            return Err(
                crate::text::owned(
                    "history expects exactly one file path; try `cargo cultist history --help`",
                ),
            );
        } else {
            path = Some(crate::text::owned(a));
            i = i + 1;
        }
    }
    match path {
        None => Err(crate::text::owned("history requires a file path")),
        Some(p) => Ok(HistoryArgs { path: p, max_commits, format }),
    }
}

} // verus!
