//! Explicit evidence applicability: whether evidence recorded against exact
//! repository / revision / work / path coordinates applies to a context.
use vstd::prelude::*;

use crate::text::{
    byte_len, byte_len_at_most, chars_eq, chars_of, contains_char, decimal, extend_str, is_trimmed, owned,
    push_decimal, seqs_view, split_chars, split_on, starts_with, string_of, trim,
};

verus! {

pub const APPLICABILITY_SCHEMA_VERSION: u32 = 1;

pub const MAX_APPLICABILITY_QUERY_BYTES: usize = 1048576;

pub const MAX_COORDINATE_BYTES: usize = 1024;

pub const MAX_PATH_BYTES: usize = 4096;

#[derive(Debug, Clone, Eq, PartialEq)]
pub struct ApplicabilityQuery {
    pub schema_version: u32,
    pub requirements: EvidenceRequirements,
    pub context: EvaluationContext,
}

#[derive(Debug, Clone, Eq, PartialEq, Default)]
pub struct EvidenceRequirements {
    pub repository: Option<String>,
    pub revision: Option<String>,
    pub work: Option<String>,
    pub scope: Option<PathScope>,
}

#[derive(Debug, Clone, Eq, PartialEq)]
pub struct PathScope {
    pub mode: PathScopeMode,
    pub path: String,
}

#[derive(Debug, Clone, Copy, Eq, PartialEq, Structural)]
pub enum PathScopeMode {
    Exact,
    Prefix,
}

#[derive(Debug, Clone, Eq, PartialEq, Default)]
pub struct EvaluationContext {
    pub repository: Option<String>,
    pub revision: Option<String>,
    pub work: Option<String>,
    pub path: Option<String>,
}

#[derive(Debug, Clone, Eq, PartialEq)]
pub struct EvidenceApplicability {
    pub schema_version: u32,
    pub status: ApplicabilityStatus,
    pub dimensions: Vec<DimensionEvaluation>,
}

#[derive(Debug, Clone, Copy, Eq, PartialEq, Structural)]
pub enum ApplicabilityStatus {
    Applies,
    Invalid,
    Unknown,
}

#[derive(Debug, Clone, Copy, Eq, PartialEq, Structural)]
pub enum ApplicabilityDimension {
    Repository,
    Revision,
    Work,
    Scope,
}

#[derive(Debug, Clone, Copy, Eq, PartialEq, Structural)]
pub enum DimensionStatus {
    Matched,
    Mismatched,
    Missing,
}

#[derive(Debug, Clone, Eq, PartialEq)]
pub struct DimensionEvaluation {
    pub dimension: ApplicabilityDimension,
    pub status: DimensionStatus,
    pub required: String,
    pub actual: Option<String>,
}

#[derive(Debug, Clone, Eq, PartialEq)]
pub struct ApplicabilityError {
    message: String,
}

impl ApplicabilityError {
    pub closed spec fn spec_message(&self) -> Seq<char> {
        self.message@
    }

    /// The human-readable reason.
    pub fn to_string(&self) -> (s: String)
        ensures
            s@ == self.spec_message(),
    {
        self.message.clone()
    }
}

/// Mathematical form of one dimension evaluation.
pub struct DimensionSpec {
    pub dimension: ApplicabilityDimension,
    pub status: DimensionStatus,
    pub required: Seq<char>,
    pub actual: Option<Seq<char>>,
}

impl View for DimensionEvaluation {
    type V = DimensionSpec;

    open spec fn view(&self) -> DimensionSpec {
        DimensionSpec {
            dimension: self.dimension,
            status: self.status,
            required: self.required@,
            actual: opt_view(self.actual),
        }
    }
}

pub open spec fn opt_view(o: Option<String>) -> Option<Seq<char>> {
    match o {
        Some(s) => Some(s@),
        None => None,
    }
}

pub open spec fn dims_view(v: Seq<DimensionEvaluation>) -> Seq<DimensionSpec> {
    v.map_values(|d: DimensionEvaluation| d@)
}

/// The status of an exact coordinate comparison.
pub open spec fn exact_status(required: Seq<char>, actual: Option<Seq<char>>) -> ApplicabilityStatus {
    match actual {
        Some(a) => if a == required {
            ApplicabilityStatus::Applies
        } else {
            ApplicabilityStatus::Invalid
        },
        None => ApplicabilityStatus::Unknown,
    }
}

pub open spec fn dimension_status_of(status: ApplicabilityStatus) -> DimensionStatus {
    match status {
        ApplicabilityStatus::Applies => DimensionStatus::Matched,
        ApplicabilityStatus::Invalid => DimensionStatus::Mismatched,
        ApplicabilityStatus::Unknown => DimensionStatus::Missing,
    }
}

pub open spec fn mode_name(mode: PathScopeMode) -> Seq<char> {
    match mode {
        PathScopeMode::Exact => "exact"@,
        PathScopeMode::Prefix => "prefix"@,
    }
}

/// Whether `actual` lies in the scope: the exact path, or (for a prefix scope)
/// the path itself or anything below it.
pub open spec fn scope_matches(mode: PathScopeMode, path: Seq<char>, actual: Seq<char>) -> bool {
    match mode {
        PathScopeMode::Exact => actual == path,
        PathScopeMode::Prefix => actual == path || (path.is_prefix_of(actual) && actual.len()
            > path.len() && actual[path.len() as int] == '/'),
    }
}

pub open spec fn exact_dimension_spec(
    dimension: ApplicabilityDimension,
    required: Seq<char>,
    actual: Option<Seq<char>>,
) -> DimensionSpec {
    DimensionSpec {
        dimension,
        status: dimension_status_of(exact_status(required, actual)),
        required,
        actual,
    }
}

pub open spec fn scope_dimension_spec(
    mode: PathScopeMode,
    path: Seq<char>,
    actual: Option<Seq<char>>,
) -> DimensionSpec {
    DimensionSpec {
        dimension: ApplicabilityDimension::Scope,
        status: match actual {
            Some(a) => if scope_matches(mode, path, a) {
                DimensionStatus::Matched
            } else {
                DimensionStatus::Mismatched
            },
            None => DimensionStatus::Missing,
        },
        required: mode_name(mode) + ":"@ + path,
        actual,
    }
}

/// The dimensions a query evaluates, in the fixed order repository,
/// revision, work, scope; each present only when it is required.
pub open spec fn expected_dimensions(q: ApplicabilityQuery) -> Seq<DimensionSpec> {
    let r = q.requirements;
    let c = q.context;
    let d1 = match r.repository {
        Some(x) => seq![
            exact_dimension_spec(ApplicabilityDimension::Repository, x@, opt_view(c.repository)),
        ],
        None => Seq::<DimensionSpec>::empty(),
    };
    let d2 = match r.revision {
        Some(x) => seq![
            exact_dimension_spec(ApplicabilityDimension::Revision, x@, opt_view(c.revision)),
        ],
        None => Seq::<DimensionSpec>::empty(),
    };
    let d3 = match r.work {
        Some(x) => seq![exact_dimension_spec(ApplicabilityDimension::Work, x@, opt_view(c.work))],
        None => Seq::<DimensionSpec>::empty(),
    };
    let d4 = match r.scope {
        Some(s) => seq![scope_dimension_spec(s.mode, s.path@, opt_view(c.path))],
        None => Seq::<DimensionSpec>::empty(),
    };
    d1 + d2 + d3 + d4
}

/// A known mismatch wins over a missing coordinate; only all-matched applies.
pub open spec fn combined_status(ds: Seq<DimensionSpec>) -> ApplicabilityStatus {
    if exists|i: int| 0 <= i < ds.len() && #[trigger] ds[i].status == DimensionStatus::Mismatched {
        ApplicabilityStatus::Invalid
    } else if exists|i: int|
        0 <= i < ds.len() && #[trigger] ds[i].status == DimensionStatus::Missing {
        ApplicabilityStatus::Unknown
    } else {
        ApplicabilityStatus::Applies
    }
}

/// Why a coordinate is refused, if it is.
pub open spec fn coordinate_error(value: Option<Seq<char>>, field: Seq<char>) -> Option<Seq<char>> {
    match value {
        None => None,
        Some(v) => if v.len() == 0 || trim(v) != v {
            Some(field + " must be a non-empty canonical coordinate"@)
        } else if byte_len(v) > MAX_COORDINATE_BYTES || v.contains('\0') {
            Some(field + " exceeds the admitted coordinate boundary"@)
        } else {
            None
        },
    }
}

pub open spec fn path_component_ok(c: Seq<char>) -> bool {
    c.len() > 0 && c != "."@ && c != ".."@
}

/// A canonical repository-relative path: non-empty, bounded, no leading or
/// trailing `/`, no `\` or NUL, and no empty, `.` or `..` component.
pub open spec fn repo_path_ok(p: Seq<char>) -> bool {
    repo_path_within(p, MAX_PATH_BYTES as nat)
}

/// `repo_path_ok` with an explicit byte bound.
pub open spec fn repo_path_within(p: Seq<char>, max_bytes: nat) -> bool {
    &&& p.len() > 0
    &&& byte_len(p) <= max_bytes
    &&& p[0] != '/'
    &&& p.last() != '/'
    &&& !p.contains('\\')
    &&& !p.contains('\0')
    &&& forall|i: int|
        0 <= i < split_on(p, '/').len() ==> path_component_ok(#[trigger] split_on(p, '/')[i])
}

pub open spec fn path_error(p: Seq<char>, field: Seq<char>) -> Option<Seq<char>> {
    if repo_path_ok(p) {
        None
    } else {
        Some(field + " must be a canonical repository-relative path"@)
    }
}

/// The first refusal among a sequence of optional refusals.
pub open spec fn first_error(a: Option<Seq<char>>, b: Option<Seq<char>>) -> Option<Seq<char>> {
    if a is Some {
        a
    } else {
        b
    }
}

pub open spec fn requirements_error(r: EvidenceRequirements) -> Option<Seq<char>> {
    if r.repository is None && r.revision is None && r.work is None && r.scope is None {
        Some("at least one explicit applicability requirement is required"@)
    } else {
        first_error(
            coordinate_error(opt_view(r.repository), "requirements.repository"@),
            first_error(
                coordinate_error(opt_view(r.revision), "requirements.revision"@),
                first_error(
                    coordinate_error(opt_view(r.work), "requirements.work"@),
                    match r.scope {
                        Some(s) => path_error(s.path@, "requirements.scope.path"@),
                        None => None,
                    },
                ),
            ),
        )
    }
}

pub open spec fn context_error(c: EvaluationContext) -> Option<Seq<char>> {
    first_error(
        coordinate_error(opt_view(c.repository), "context.repository"@),
        first_error(
            coordinate_error(opt_view(c.revision), "context.revision"@),
            first_error(
                coordinate_error(opt_view(c.work), "context.work"@),
                match c.path {
                    Some(p) => path_error(p@, "context.path"@),
                    None => None,
                },
            ),
        ),
    )
}

/// Why a query is refused, if it is: an unsupported schema, then the
/// requirements, then the context.
pub open spec fn query_error(q: ApplicabilityQuery) -> Option<Seq<char>> {
    if q.schema_version != APPLICABILITY_SCHEMA_VERSION {
        Some(
            "unsupported applicability schema "@ + decimal(q.schema_version as nat)
                + "; expected 1"@,
        )
    } else {
        first_error(requirements_error(q.requirements), context_error(q.context))
    }
}

fn new_error(message: Vec<char>) -> (e: ApplicabilityError)
    ensures
        e.spec_message() == message@,
{
    ApplicabilityError { message: string_of(message.as_slice()) }
}

fn field_error(field: &str, suffix: &str) -> (e: ApplicabilityError)
    ensures
        e.spec_message() == field@ + suffix@,
{
    let mut m: Vec<char> = Vec::new();
    extend_str(&mut m, field);
    extend_str(&mut m, suffix);
    assert(m@ == field@ + suffix@);
    new_error(m)
}

/// Exact comparison of one required coordinate against the actual one.
pub fn evaluate_exact_coordinate(required: &str, actual: Option<&str>) -> (r: ApplicabilityStatus)
    ensures
        r == exact_status(
            required@,
            match actual {
                Some(a) => Some(a@),
                None => None,
            },
        ),
{
    match actual {
        Some(a) => {
            let rc = chars_of(required);
            let ac = chars_of(a);
            if chars_eq(ac.as_slice(), rc.as_slice()) {
                ApplicabilityStatus::Applies
            } else {
                ApplicabilityStatus::Invalid
            }
        },
        None => ApplicabilityStatus::Unknown,
    }
}

fn as_str_opt(o: &Option<String>) -> (r: Option<&str>)
    ensures
        match r {
            Some(s) => o is Some && s@ == o->0@,
            None => o is None,
        },
{
    match o {
        Some(s) => Some(s.as_str()),
        None => None,
    }
}

fn owned_opt(o: Option<&str>) -> (r: Option<String>)
    ensures
        opt_view(r) == match o {
            Some(s) => Some(s@),
            None => None,
        },
{
    match o {
        Some(s) => Some(owned(s)),
        None => None,
    }
}

fn evaluate_exact_dimension(
    dimension: ApplicabilityDimension,
    required: &str,
    actual: Option<&str>,
) -> (d: DimensionEvaluation)
    ensures
        d@ == exact_dimension_spec(
            dimension,
            required@,
            match actual {
                Some(a) => Some(a@),
                None => None,
            },
        ),
{
    let status = match evaluate_exact_coordinate(required, actual) {
        ApplicabilityStatus::Applies => DimensionStatus::Matched,
        ApplicabilityStatus::Invalid => DimensionStatus::Mismatched,
        ApplicabilityStatus::Unknown => DimensionStatus::Missing,
    };
    DimensionEvaluation { dimension, status, required: owned(required), actual: owned_opt(actual) }
}

impl PathScopeMode {
    pub fn as_str(self) -> (s: &'static str)
        ensures
            s@ == mode_name(self),
    {
        match self {
            PathScopeMode::Exact => "exact",
            PathScopeMode::Prefix => "prefix",
        }
    }
}

impl PathScope {
    /// Whether `actual` lies in this scope.
    pub fn matches(&self, actual: &str) -> (r: bool)
        ensures
            r == scope_matches(self.mode, self.path@, actual@),
    {
        let a = chars_of(actual);
        let p = chars_of(self.path.as_str());
        if chars_eq(a.as_slice(), p.as_slice()) {
            return true;
        }
        match self.mode {
            PathScopeMode::Exact => false,
            PathScopeMode::Prefix => {
                starts_with(a.as_slice(), p.as_slice()) && a.len() > p.len() && a[p.len()] == '/'
            },
        }
    }
}

fn evaluate_scope_dimension(required: &PathScope, actual: Option<&str>) -> (d: DimensionEvaluation)
    ensures
        d@ == scope_dimension_spec(
            required.mode,
            required.path@,
            match actual {
                Some(a) => Some(a@),
                None => None,
            },
        ),
{
    let mut display: Vec<char> = Vec::new();
    extend_str(&mut display, required.mode.as_str());
    extend_str(&mut display, ":");
    extend_str(&mut display, required.path.as_str());
    let required_display = string_of(display.as_slice());
    match actual {
        Some(a) => {
            let status = if required.matches(a) {
                DimensionStatus::Matched
            } else {
                DimensionStatus::Mismatched
            };
            DimensionEvaluation {
                dimension: ApplicabilityDimension::Scope,
                status,
                required: required_display,
                actual: Some(owned(a)),
            }
        },
        None => DimensionEvaluation {
            dimension: ApplicabilityDimension::Scope,
            status: DimensionStatus::Missing,
            required: required_display,
            actual: None,
        },
    }
}

fn validate_coordinate(value: Option<&str>, field: &str) -> (r: Result<(), ApplicabilityError>)
    ensures
        match r {
            Ok(()) => coordinate_error(
                match value {
                    Some(v) => Some(v@),
                    None => None,
                },
                field@,
            ) is None,
            Err(e) => coordinate_error(
                match value {
                    Some(v) => Some(v@),
                    None => None,
                },
                field@,
            ) == Some(e.spec_message()),
        },
{
    let value = match value {
        Some(v) => v,
        None => return Ok(()),
    };
    let cs = chars_of(value);
    if cs.len() == 0 || !is_trimmed(cs.as_slice()) {
        return Err(field_error(field, " must be a non-empty canonical coordinate"));
    }
    if !byte_len_at_most(cs.as_slice(), MAX_COORDINATE_BYTES) || contains_char(cs.as_slice(), '\0') {
        return Err(field_error(field, " exceeds the admitted coordinate boundary"));
    }
    Ok(())
}

/// Whether the path is a canonical repository-relative path.
pub fn is_repo_path(path: &str, max_bytes: usize) -> (r: bool)
    ensures
        r == repo_path_within(path@, max_bytes as nat),
{
    let cs = chars_of(path);
    if cs.len() == 0 || !byte_len_at_most(cs.as_slice(), max_bytes) || cs[0] == '/' || cs[cs.len() - 1] == '/'
        || contains_char(cs.as_slice(), '\\') || contains_char(cs.as_slice(), '\0') {
        return false;
    }
    let parts = split_chars(cs.as_slice(), '/');
    let dot = chars_of(".");
    let dotdot = chars_of("..");
    let mut i: usize = 0;
    while i < parts.len()
        invariant
            i <= parts.len(),
            seqs_view(parts@) == split_on(path@, '/'),
            dot@ == "."@,
            dotdot@ == ".."@,
            forall|j: int| 0 <= j < i ==> path_component_ok(#[trigger] split_on(path@, '/')[j]),
        decreases parts.len() - i,
    {
        let part = &parts[i];
        assert(part@ == split_on(path@, '/')[i as int]);
        if part.len() == 0 || chars_eq(part.as_slice(), dot.as_slice()) || chars_eq(
            part.as_slice(),
            dotdot.as_slice(),
        ) {
            return false;
        }
        i = i + 1;
    }
    true
}

fn validate_repo_path(path: &str, field: &str) -> (r: Result<(), ApplicabilityError>)
    ensures
        match r {
            Ok(()) => path_error(path@, field@) is None,
            Err(e) => path_error(path@, field@) == Some(e.spec_message()),
        },
{
    if !is_repo_path(path, MAX_PATH_BYTES) {
        return Err(field_error(field, " must be a canonical repository-relative path"));
    }
    Ok(())
}

fn validate_requirements(requirements: &EvidenceRequirements) -> (r: Result<
    (),
    ApplicabilityError,
>)
    ensures
        match r {
            Ok(()) => requirements_error(*requirements) is None,
            Err(e) => requirements_error(*requirements) == Some(e.spec_message()),
        },
{
    if requirements.repository.is_none() && requirements.revision.is_none()
        && requirements.work.is_none() && requirements.scope.is_none() {
        let m = chars_of("at least one explicit applicability requirement is required");
        return Err(new_error(m));
    }
    if let Err(e) = validate_coordinate(as_str_opt(&requirements.repository), "requirements.repository") {
        return Err(e);
    }
    if let Err(e) = validate_coordinate(as_str_opt(&requirements.revision), "requirements.revision") {
        return Err(e);
    }
    if let Err(e) = validate_coordinate(as_str_opt(&requirements.work), "requirements.work") {
        return Err(e);
    }
    if let Some(scope) = &requirements.scope {
        if let Err(e) = validate_repo_path(scope.path.as_str(), "requirements.scope.path") {
            return Err(e);
        }
    }
    Ok(())
}

fn validate_context(context: &EvaluationContext) -> (r: Result<(), ApplicabilityError>)
    ensures
        match r {
            Ok(()) => context_error(*context) is None,
            Err(e) => context_error(*context) == Some(e.spec_message()),
        },
{
    if let Err(e) = validate_coordinate(as_str_opt(&context.repository), "context.repository") {
        return Err(e);
    }
    if let Err(e) = validate_coordinate(as_str_opt(&context.revision), "context.revision") {
        return Err(e);
    }
    if let Err(e) = validate_coordinate(as_str_opt(&context.work), "context.work") {
        return Err(e);
    }
    if let Some(path) = &context.path {
        if let Err(e) = validate_repo_path(path.as_str(), "context.path") {
            return Err(e);
        }
    }
    Ok(())
}

/// The overall status of a list of evaluated dimensions.
fn combine_statuses(dimensions: &Vec<DimensionEvaluation>) -> (status: ApplicabilityStatus)
    ensures
        status == combined_status(dims_view(dimensions@)),
{
    let mut any_mismatch = false;
    let mut any_missing = false;
    let mut i: usize = 0;
    while i < dimensions.len()
        invariant
            i <= dimensions.len(),
            any_mismatch == exists|j: int|
                0 <= j < i && #[trigger] dimensions@[j].status == DimensionStatus::Mismatched,
            any_missing == exists|j: int|
                0 <= j < i && #[trigger] dimensions@[j].status == DimensionStatus::Missing,
        decreases dimensions.len() - i,
    {
        match dimensions[i].status {
            DimensionStatus::Mismatched => {
                any_mismatch = true;
            },
            DimensionStatus::Missing => {
                any_missing = true;
            },
            DimensionStatus::Matched => {},
        }
        i = i + 1;
    }
    let ghost ds = dims_view(dimensions@);
    assert(forall|j: int| 0 <= j < ds.len() ==> ds[j] == #[trigger] dimensions@[j]@);
    let status = if any_mismatch {
        ApplicabilityStatus::Invalid
    } else if any_missing {
        ApplicabilityStatus::Unknown
    } else {
        ApplicabilityStatus::Applies
    };
    proof {
        if any_mismatch {
            let j = choose|j: int|
                0 <= j < dimensions@.len() && #[trigger] dimensions@[j].status
                    == DimensionStatus::Mismatched;
            assert(ds[j].status == DimensionStatus::Mismatched);
        } else if any_missing {
            let j = choose|j: int|
                0 <= j < dimensions@.len() && #[trigger] dimensions@[j].status
                    == DimensionStatus::Missing;
            assert(ds[j].status == DimensionStatus::Missing);
            assert forall|k: int| 0 <= k < ds.len() implies #[trigger] ds[k].status
                != DimensionStatus::Mismatched by {
                assert(dimensions@[k].status == ds[k].status);
            }
        } else {
            assert forall|k: int| 0 <= k < ds.len() implies #[trigger] ds[k].status
                != DimensionStatus::Mismatched && ds[k].status != DimensionStatus::Missing by {
                assert(dimensions@[k].status == ds[k].status);
            }
        }
    }
    status
}

/// Evaluates every explicit requirement of the query against its context.
/// The query is refused when its schema is unsupported, when it names no
/// requirement, or when a coordinate or path is not canonical.
pub fn evaluate_query(query: &ApplicabilityQuery) -> (r: Result<
    EvidenceApplicability,
    ApplicabilityError,
>)
    ensures
        match r {
            Ok(ev) => {
                &&& query_error(*query) is None
                &&& ev.schema_version == APPLICABILITY_SCHEMA_VERSION
                &&& dims_view(ev.dimensions@) == expected_dimensions(*query)
                &&& ev.status == combined_status(expected_dimensions(*query))
            },
            Err(e) => query_error(*query) == Some(e.spec_message()),
        },
{
    if query.schema_version != APPLICABILITY_SCHEMA_VERSION {
        let mut m = chars_of("unsupported applicability schema ");
        push_decimal(&mut m, query.schema_version as usize);
        extend_str(&mut m, "; expected 1");
        return Err(new_error(m));
    }
    if let Err(e) = validate_requirements(&query.requirements) {
        return Err(e);
    }
    if let Err(e) = validate_context(&query.context) {
        return Err(e);
    }

    let mut dimensions: Vec<DimensionEvaluation> = Vec::new();
    if let Some(required) = &query.requirements.repository {
        dimensions.push(
            evaluate_exact_dimension(
                ApplicabilityDimension::Repository,
                required.as_str(),
                as_str_opt(&query.context.repository),
            ),
        );
    }
    if let Some(required) = &query.requirements.revision {
        dimensions.push(
            evaluate_exact_dimension(
                ApplicabilityDimension::Revision,
                required.as_str(),
                as_str_opt(&query.context.revision),
            ),
        );
    }
    if let Some(required) = &query.requirements.work {
        dimensions.push(
            evaluate_exact_dimension(
                ApplicabilityDimension::Work,
                required.as_str(),
                as_str_opt(&query.context.work),
            ),
        );
    }
    if let Some(required) = &query.requirements.scope {
        dimensions.push(evaluate_scope_dimension(required, as_str_opt(&query.context.path)));
    }
    assert(dims_view(dimensions@) =~= expected_dimensions(*query));

    let status = combine_statuses(&dimensions);
    Ok(EvidenceApplicability { schema_version: APPLICABILITY_SCHEMA_VERSION, status, dimensions })
}

/// A prefix scope holds its own path and everything below it: the path
/// followed by a `/` and any rest.
pub proof fn lemma_prefix_scope_holds_below(path: Seq<char>, rest: Seq<char>)
    ensures
        scope_matches(PathScopeMode::Prefix, path, path),
        scope_matches(PathScopeMode::Prefix, path, path + seq!['/'] + rest),
{
    let a = path + seq!['/'] + rest;
    assert(a.subrange(0, path.len() as int) =~= path);
    assert(a[path.len() as int] == '/');
}

/// A prefix scope holds nothing else: a path that continues the scope path
/// with any character but `/` (such as `src/history_text.rs` under
/// `src/history`) lies outside it, and so does any path that does not start
/// with the scope path.
pub proof fn lemma_prefix_scope_holds_nothing_else(path: Seq<char>, actual: Seq<char>)
    ensures
        scope_matches(PathScopeMode::Prefix, path, actual) <==> (actual == path || exists|rest: Seq<char>|
            actual == path + seq!['/'] + rest),
        forall|c: char, rest: Seq<char>|
            c != '/' ==> !#[trigger] scope_matches(PathScopeMode::Prefix, path, path + seq![c] + rest),
{
    if scope_matches(PathScopeMode::Prefix, path, actual) && actual != path {
        let rest = actual.skip(path.len() as int + 1);
        assert(actual =~= path + seq!['/'] + rest) by {
            assert(actual.subrange(0, path.len() as int) == path);
            assert forall|q: int| 0 <= q < actual.len() implies actual[q] == (path + seq!['/'] + rest)[q] by {
                if q < path.len() {
                    assert(actual[q] == actual.subrange(0, path.len() as int)[q]);
                }
            }
        }
    }
    if exists|rest: Seq<char>| actual == path + seq!['/'] + rest {
        let rest = choose|rest: Seq<char>| actual == path + seq!['/'] + rest;
        lemma_prefix_scope_holds_below(path, rest);
    }
    assert forall|c: char, rest: Seq<char>|
        c != '/' implies !#[trigger] scope_matches(PathScopeMode::Prefix, path, path + seq![c] + rest) by {
        let a = path + seq![c] + rest;
        assert(a.len() > path.len());
        assert(a != path);
        assert(a[path.len() as int] == c);
    }
}

/// A query whose context path lies outside a prefix scope (neither the scope
/// path itself nor below it after a `/`) has its scope dimension mismatched,
/// and the evidence is invalid for it whatever the other dimensions say; a
/// context path at or below the scope path has its scope dimension matched.
pub proof fn lemma_prefix_scope_decides_query(q: ApplicabilityQuery)
    requires
        q.requirements.scope is Some,
        q.requirements.scope->Some_0.mode == PathScopeMode::Prefix,
        q.context.path is Some,
    ensures
        ({
            let path = q.requirements.scope->Some_0.path@;
            let actual = q.context.path->Some_0@;
            let ds = expected_dimensions(q);
            &&& ds.len() > 0
            &&& ds.last().dimension == ApplicabilityDimension::Scope
            &&& (actual == path || exists|rest: Seq<char>| actual == path + seq!['/'] + rest)
                ==> ds.last().status == DimensionStatus::Matched
            &&& !(actual == path || exists|rest: Seq<char>| actual == path + seq!['/'] + rest)
                ==> ds.last().status == DimensionStatus::Mismatched && combined_status(ds)
                == ApplicabilityStatus::Invalid
        }),
{
    let path = q.requirements.scope->Some_0.path@;
    let actual = q.context.path->Some_0@;
    lemma_prefix_scope_holds_nothing_else(path, actual);
    let ds = expected_dimensions(q);
    let i = ds.len() - 1;
    assert(ds[i] == scope_dimension_spec(PathScopeMode::Prefix, path, Some(actual)));
    if !(actual == path || exists|rest: Seq<char>| actual == path + seq!['/'] + rest) {
        assert(ds[i].status == DimensionStatus::Mismatched);
    }
}

} // verus!
