//! The explicit consumption context of an active-work inventory: which
//! applicability axes (the current work, the provider population) must hold
//! before the inventory's routing findings may be read as current, how the
//! context is bound to the exact inventory bytes, and how a report is gated
//! when an axis does not apply.
use vstd::prelude::*;

use crate::applicability::{
    combined_status, coordinate_error, dims_view, evaluate_query, exact_dimension_spec,
    exact_status, first_error, ApplicabilityDimension, ApplicabilityError, ApplicabilityQuery,
    ApplicabilityStatus, DimensionSpec, DimensionStatus, EvaluationContext, EvidenceApplicability,
    EvidenceRequirements, APPLICABILITY_SCHEMA_VERSION,
};
use crate::finding::{
    AnalysisReport, Claim, ClaimKind, ClaimSpec, Evidence, EvidenceSpec, Finding, FindingSpec,
    ReportSpec,
};
use crate::provider_snapshot_applicability::identity::{hex_encode, hex_lower, sha256, sha256_digest};
use crate::provider_snapshot_applicability::{
    evaluate_provider_snapshot, opt_identity, ProviderSnapshotApplicability,
    ProviderSnapshotIdentity,
};
use crate::text::{
    chars_eq, chars_of, decimal, extend_chars, extend_str, is_lower_hex, owned, push_decimal,
    string_of,
};

verus! {

pub const CONSUMPTION_CONTEXT_SCHEMA_VERSION: u32 = 1;

pub const MAX_CONTEXT_BYTES: usize = 1048576;

pub const MAX_INVENTORY_BYTES: usize = 1048576;

#[derive(Debug)]
pub struct WorkCoordinate {
    pub id: String,
    pub head_sha: String,
}

#[derive(Debug)]
pub struct CurrentWorkApplicabilityInput {
    pub current: Option<WorkCoordinate>,
}

#[derive(Debug)]
pub struct ProviderSnapshotApplicabilityInput {
    pub required: ProviderSnapshotIdentity,
    pub current: Option<ProviderSnapshotIdentity>,
}

/// The supplied consumption context.
#[derive(Debug)]
pub struct ActiveInventoryConsumptionContext {
    pub schema_version: u32,
    pub inventory_sha256: String,
    pub current_work: Option<CurrentWorkApplicabilityInput>,
    pub provider_snapshot: Option<ProviderSnapshotApplicabilityInput>,
}

/// The current work that the inventory was frozen for.
#[derive(Debug)]
pub struct InventoryWorkBinding {
    pub id: String,
    pub head_sha: String,
}

#[derive(Debug)]
pub struct InventoryBinding {
    pub current: InventoryWorkBinding,
}

/// The evaluated axes and their combined status.
#[derive(Debug)]
pub struct ConsumptionEvaluation {
    pub work: Option<EvidenceApplicability>,
    pub provider_snapshot: Option<ProviderSnapshotApplicability>,
    pub status: ApplicabilityStatus,
}

/// The current work coordinate as supplied: `None` when it is unavailable.
pub open spec fn current_view(input: CurrentWorkApplicabilityInput) -> Option<(Seq<char>, Seq<char>)> {
    match input.current {
        Some(c) => Some((c.id@, c.head_sha@)),
        None => None,
    }
}

// ---------------------------------------------------------------------------
// Validation.

pub open spec fn sha_prefix() -> Seq<char> {
    "sha256:"@
}

/// Why a value is not `sha256:<64 lowercase hex>`, if it is not.
pub open spec fn sha256_identity_error(value: Seq<char>, label: Seq<char>) -> Option<Seq<char>> {
    if !sha_prefix().is_prefix_of(value) {
        Some(label + " must use `sha256:<digest>`"@)
    } else {
        let d = value.skip(7);
        if !(d.len() == 64 && forall|i: int| 0 <= i < d.len() ==> is_lower_hex(#[trigger] d[i])) {
            Some(
                label
                    + " sha256 digest must contain exactly 64 lowercase hexadecimal characters"@,
            )
        } else {
            None
        }
    }
}

/// The identity of some bytes: `sha256:` and their lowercase hex digest.
pub open spec fn sha256_identity_of(bytes: Seq<u8>) -> Seq<char> {
    sha_prefix() + hex_lower(sha256(bytes))
}

/// Why a context is refused for the supplied inventory bytes, if it is.
pub open spec fn context_error(
    schema_version: u32,
    inventory_sha256: Seq<char>,
    has_current_work: bool,
    has_provider_snapshot: bool,
    inventory: Seq<u8>,
) -> Option<Seq<char>> {
    if schema_version != CONSUMPTION_CONTEXT_SCHEMA_VERSION {
        Some(
            "unsupported active-work consumption context schema "@ + decimal(schema_version as nat)
                + "; expected 1"@,
        )
    } else if !has_current_work && !has_provider_snapshot {
        Some(
            "active-work consumption context must require current_work and/or provider_snapshot applicability"@,
        )
    } else if sha256_identity_error(inventory_sha256, "inventory_sha256"@) is Some {
        sha256_identity_error(inventory_sha256, "inventory_sha256"@)
    } else if inventory_sha256 != sha256_identity_of(inventory) {
        Some(
            "active-work consumption context is bound to inventory `"@ + inventory_sha256
                + "`, but supplied inventory is `"@ + sha256_identity_of(inventory) + "`"@,
        )
    } else {
        None
    }
}

/// Accepts exactly the values of the form `sha256:<64 lowercase hex>`.
pub fn validate_sha256_identity(value: &str, label: &str) -> (r: Result<(), String>)
    ensures
        match sha256_identity_error(value@, label@) {
            None => r is Ok,
            Some(m) => r matches Err(e) && e@ == m,
        },
{
    let cs = chars_of(value);
    let p = chars_of("sha256:");
    proof {
        reveal_strlit("sha256:");
    }
    if !crate::text::starts_with(cs.as_slice(), p.as_slice()) {
        let mut m = chars_of(label);
        extend_str(&mut m, " must use `sha256:<digest>`");
        return Err(string_of(m.as_slice()));
    }
    let n = cs.len();
    let d = crate::text::slice_chars(cs.as_slice(), 7, n);
    assert(d@ =~= value@.skip(7));
    let mut ok = d.len() == 64;
    let mut i: usize = 0;
    while i < d.len()
        invariant
            i <= d@.len(),
            ok == (d@.len() == 64 && forall|j: int| 0 <= j < i ==> is_lower_hex(#[trigger] d@[j])),
        decreases d.len() - i,
    {
        let u = d[i] as u32;
        if !((48 <= u && u <= 57) || (97 <= u && u <= 102)) {
            ok = false;
        }
        i = i + 1;
    }
    if !ok {
        let mut m = chars_of(label);
        extend_str(&mut m, " sha256 digest must contain exactly 64 lowercase hexadecimal characters");
        return Err(string_of(m.as_slice()));
    }
    Ok(())
}

/// `sha256:` and the lowercase hex SHA-256 digest of `bytes`.
pub fn sha256_identity(bytes: &[u8]) -> (r: String)
    ensures
        r@ == sha256_identity_of(bytes@),
{
    let digest = sha256_digest(bytes);
    let hex = hex_encode(digest.as_slice());
    let mut out = chars_of("sha256:");
    extend_chars(&mut out, hex.as_slice());
    string_of(out.as_slice())
}

/// Checks the context's schema, that it requires some axis, and that it is
/// bound to exactly the supplied inventory bytes.
pub fn validate_context(context: &ActiveInventoryConsumptionContext, inventory_bytes: &[u8]) -> (r:
    Result<(), String>)
    ensures
        match context_error(
            context.schema_version,
            context.inventory_sha256@,
            context.current_work is Some,
            context.provider_snapshot is Some,
            inventory_bytes@,
        ) {
            None => r is Ok,
            Some(m) => r matches Err(e) && e@ == m,
        },
{
    if context.schema_version != CONSUMPTION_CONTEXT_SCHEMA_VERSION {
        let mut m = chars_of("unsupported active-work consumption context schema ");
        push_decimal(&mut m, context.schema_version as usize);
        extend_str(&mut m, "; expected 1");
        return Err(string_of(m.as_slice()));
    }
    if context.current_work.is_none() && context.provider_snapshot.is_none() {
        return Err(
            owned(
                "active-work consumption context must require current_work and/or provider_snapshot applicability",
            ),
        );
    }
    validate_sha256_identity(context.inventory_sha256.as_str(), "inventory_sha256")?;
    let actual = sha256_identity(inventory_bytes);
    let a = chars_of(actual.as_str());
    let b = chars_of(context.inventory_sha256.as_str());
    if !chars_eq(b.as_slice(), a.as_slice()) {
        let mut m = chars_of("active-work consumption context is bound to inventory `");
        extend_str(&mut m, context.inventory_sha256.as_str());
        extend_str(&mut m, "`, but supplied inventory is `");
        extend_str(&mut m, actual.as_str());
        extend_str(&mut m, "`");
        return Err(string_of(m.as_slice()));
    }
    Ok(())
}

// ---------------------------------------------------------------------------
// Evaluation.

/// Why the current-work query is refused, if it is.
pub open spec fn current_work_error(
    required: (Seq<char>, Seq<char>),
    current: Option<(Seq<char>, Seq<char>)>,
) -> Option<Seq<char>> {
    first_error(
        coordinate_error(Some(required.1), "requirements.revision"@),
        first_error(
            coordinate_error(Some(required.0), "requirements.work"@),
            first_error(
                coordinate_error(
                    match current {
                        Some(c) => Some(c.1),
                        None => None,
                    },
                    "context.revision"@,
                ),
                coordinate_error(
                    match current {
                        Some(c) => Some(c.0),
                        None => None,
                    },
                    "context.work"@,
                ),
            ),
        ),
    )
}

/// The revision then the work dimension of the current-work query.
pub open spec fn current_work_dimensions(
    required: (Seq<char>, Seq<char>),
    current: Option<(Seq<char>, Seq<char>)>,
) -> Seq<DimensionSpec> {
    seq![
        exact_dimension_spec(
            ApplicabilityDimension::Revision,
            required.1,
            match current {
                Some(c) => Some(c.1),
                None => None,
            },
        ),
        exact_dimension_spec(
            ApplicabilityDimension::Work,
            required.0,
            match current {
                Some(c) => Some(c.0),
                None => None,
            },
        ),
    ]
}

fn copy_opt(o: &Option<String>) -> (r: Option<String>)
    ensures
        crate::applicability::opt_view(r) == crate::applicability::opt_view(*o),
{
    match o {
        Some(s) => Some(owned(s.as_str())),
        None => None,
    }
}

/// Evaluates the frozen current work against the supplied current work: the
/// revision and the work must both match.
pub fn evaluate_current_work(
    required: &InventoryWorkBinding,
    input: &CurrentWorkApplicabilityInput,
) -> (r: Result<EvidenceApplicability, ApplicabilityError>)
    ensures
        match current_work_error((required.id@, required.head_sha@), current_view(*input)) {
            Some(m) => r matches Err(e) && e.spec_message() == m,
            None => r matches Ok(ev) && {
                &&& dims_view(ev.dimensions@) == current_work_dimensions(
                    (required.id@, required.head_sha@),
                    current_view(*input),
                )
                &&& ev.status == combined_status(
                    current_work_dimensions((required.id@, required.head_sha@), current_view(*input)),
                )
            },
        },
{
    let (revision, work) = match &input.current {
        Some(c) => (Some(owned(c.head_sha.as_str())), Some(owned(c.id.as_str()))),
        None => (None, None),
    };
    let query = ApplicabilityQuery {
        schema_version: APPLICABILITY_SCHEMA_VERSION,
        requirements: EvidenceRequirements {
            repository: None,
            revision: Some(owned(required.head_sha.as_str())),
            work: Some(owned(required.id.as_str())),
            scope: None,
        },
        context: EvaluationContext { repository: None, revision, work, path: None },
    };
    assert(crate::applicability::expected_dimensions(query) =~= current_work_dimensions(
        (required.id@, required.head_sha@),
        current_view(*input),
    ));
    evaluate_query(&query)
}

/// Any INVALID axis invalidates; otherwise any UNKNOWN axis is unknown;
/// otherwise the context applies.
pub open spec fn combine_spec(
    work: Option<ApplicabilityStatus>,
    provider_snapshot: Option<ApplicabilityStatus>,
) -> ApplicabilityStatus {
    if work == Some(ApplicabilityStatus::Invalid) || provider_snapshot == Some(
        ApplicabilityStatus::Invalid,
    ) {
        ApplicabilityStatus::Invalid
    } else if work == Some(ApplicabilityStatus::Unknown) || provider_snapshot == Some(
        ApplicabilityStatus::Unknown,
    ) {
        ApplicabilityStatus::Unknown
    } else {
        ApplicabilityStatus::Applies
    }
}

pub fn combine_statuses(
    work: Option<ApplicabilityStatus>,
    provider_snapshot: Option<ApplicabilityStatus>,
) -> (r: ApplicabilityStatus)
    ensures
        r == combine_spec(work, provider_snapshot),
{
    if work == Some(ApplicabilityStatus::Invalid) || provider_snapshot == Some(
        ApplicabilityStatus::Invalid,
    ) {
        ApplicabilityStatus::Invalid
    } else if work == Some(ApplicabilityStatus::Unknown) || provider_snapshot == Some(
        ApplicabilityStatus::Unknown,
    ) {
        ApplicabilityStatus::Unknown
    } else {
        ApplicabilityStatus::Applies
    }
}

/// The status of the current-work axis, when it is required and admitted.
pub open spec fn work_status(required: (Seq<char>, Seq<char>), input: Option<CurrentWorkApplicabilityInput>) -> Option<
    ApplicabilityStatus,
> {
    match input {
        Some(i) => Some(combined_status(current_work_dimensions(required, current_view(i)))),
        None => None,
    }
}

/// The status of the provider-snapshot axis, when it is required.
pub open spec fn snapshot_status(input: Option<ProviderSnapshotApplicabilityInput>) -> Option<ApplicabilityStatus> {
    match input {
        Some(p) => Some(exact_status(p.required@, opt_identity(p.current))),
        None => None,
    }
}

/// Evaluates every axis the context requires and combines them.
pub fn evaluate_context(binding: &InventoryBinding, context: &ActiveInventoryConsumptionContext) -> (r:
    Result<ConsumptionEvaluation, ApplicabilityError>)
    ensures
        match context.current_work {
            Some(input) => match current_work_error(
                (binding.current.id@, binding.current.head_sha@),
                current_view(input),
            ) {
                Some(m) => r matches Err(e) && e.spec_message() == m,
                None => r is Ok,
            },
            None => r is Ok,
        },
        r matches Ok(ev) ==> {
            &&& ev.status == combine_spec(
                work_status((binding.current.id@, binding.current.head_sha@), context.current_work),
                snapshot_status(context.provider_snapshot),
            )
            &&& (ev.work is Some <==> context.current_work is Some)
            &&& (ev.work matches Some(w) ==> (context.current_work matches Some(input) && dims_view(
                w.dimensions@,
            ) == current_work_dimensions(
                (binding.current.id@, binding.current.head_sha@),
                current_view(input),
            ) && w.status == combined_status(dims_view(w.dimensions@))))
            &&& (ev.provider_snapshot is Some <==> context.provider_snapshot is Some)
            &&& (ev.provider_snapshot matches Some(p) ==> (context.provider_snapshot matches Some(input)
                && p.required@ == input.required@ && opt_identity(p.actual) == opt_identity(
                input.current,
            ) && p.status == exact_status(input.required@, opt_identity(input.current))))
        },
{
    let work = match &context.current_work {
        Some(input) => match evaluate_current_work(&binding.current, input) {
            Ok(ev) => Some(ev),
            Err(e) => return Err(e),
        },
        None => None,
    };
    let provider_snapshot = match &context.provider_snapshot {
        Some(input) => Some(
            match &input.current {
                Some(c) => evaluate_provider_snapshot(&input.required, Some(c)),
                None => evaluate_provider_snapshot(&input.required, None),
            },
        ),
        None => None,
    };
    let ws = match &work {
        Some(w) => Some(w.status),
        None => None,
    };
    let ps = match &provider_snapshot {
        Some(p) => Some(p.status),
        None => None,
    };
    let status = combine_statuses(ws, ps);
    Ok(ConsumptionEvaluation { work, provider_snapshot, status })
}

// ---------------------------------------------------------------------------
// Claims and gating.

pub open spec fn kind_for_status(status: ApplicabilityStatus) -> ClaimKind {
    match status {
        ApplicabilityStatus::Unknown => ClaimKind::Unknown,
        _ => ClaimKind::Derived,
    }
}

pub fn claim_kind_for_status(status: ApplicabilityStatus) -> (k: ClaimKind)
    ensures
        k == kind_for_status(status),
{
    match status {
        ApplicabilityStatus::Unknown => ClaimKind::Unknown,
        ApplicabilityStatus::Applies | ApplicabilityStatus::Invalid => ClaimKind::Derived,
    }
}

pub open spec fn status_text(status: ApplicabilityStatus) -> Seq<char> {
    match status {
        ApplicabilityStatus::Applies => "APPLIES"@,
        ApplicabilityStatus::Invalid => "INVALID"@,
        ApplicabilityStatus::Unknown => "UNKNOWN"@,
    }
}

pub fn status_name(status: ApplicabilityStatus) -> (s: &'static str)
    ensures
        s@ == status_text(status),
{
    match status {
        ApplicabilityStatus::Applies => "APPLIES",
        ApplicabilityStatus::Invalid => "INVALID",
        ApplicabilityStatus::Unknown => "UNKNOWN",
    }
}

pub open spec fn dimension_status_text(status: DimensionStatus) -> Seq<char> {
    match status {
        DimensionStatus::Matched => "matched"@,
        DimensionStatus::Mismatched => "mismatched"@,
        DimensionStatus::Missing => "missing"@,
    }
}

pub fn dimension_status_name(status: DimensionStatus) -> (s: &'static str)
    ensures
        s@ == dimension_status_text(status),
{
    match status {
        DimensionStatus::Matched => "matched",
        DimensionStatus::Mismatched => "mismatched",
        DimensionStatus::Missing => "missing",
    }
}

/// The dimension as its `Debug` rendering writes it.
pub open spec fn dimension_text(d: ApplicabilityDimension) -> Seq<char> {
    match d {
        ApplicabilityDimension::Repository => "Repository"@,
        ApplicabilityDimension::Revision => "Revision"@,
        ApplicabilityDimension::Work => "Work"@,
        ApplicabilityDimension::Scope => "Scope"@,
    }
}

fn dimension_name(d: ApplicabilityDimension) -> (s: &'static str)
    ensures
        s@ == dimension_text(d),
{
    match d {
        ApplicabilityDimension::Repository => "Repository",
        ApplicabilityDimension::Revision => "Revision",
        ApplicabilityDimension::Work => "Work",
        ApplicabilityDimension::Scope => "Scope",
    }
}

pub open spec fn actual_text(actual: Option<Seq<char>>) -> Seq<char> {
    match actual {
        Some(a) => "`"@ + a + "`"@,
        None => "UNAVAILABLE"@,
    }
}

pub open spec fn note(message: Seq<char>) -> EvidenceSpec {
    EvidenceSpec { message, location: None }
}

pub open spec fn dimension_note(d: DimensionSpec) -> EvidenceSpec {
    note(
        "work applicability "@ + dimension_text(d.dimension) + ": required `"@ + d.required
            + "`, actual "@ + actual_text(d.actual) + ", status "@ + dimension_status_text(d.status)
            + "."@,
    )
}

/// The claim of the current-work axis, one evidence per dimension.
pub open spec fn work_claim(status: ApplicabilityStatus, dims: Seq<DimensionSpec>) -> ClaimSpec {
    ClaimSpec {
        kind: kind_for_status(status),
        message: "Provider-current work applicability is "@ + status_text(status) + "."@,
        evidence: dims.map_values(|d: DimensionSpec| dimension_note(d)),
    }
}

/// The claim of the provider-population axis.
pub open spec fn snapshot_claim(
    status: ApplicabilityStatus,
    required: Seq<char>,
    actual: Option<Seq<char>>,
) -> ClaimSpec {
    ClaimSpec {
        kind: kind_for_status(status),
        message: "Provider active-work population applicability is "@ + status_text(status) + "."@,
        evidence: seq![
            note("required provider snapshot `"@ + required + "`, actual "@ + actual_text(actual) + "."@),
        ],
    }
}

pub open spec fn gate_claim(status: ApplicabilityStatus) -> ClaimSpec {
    ClaimSpec {
        kind: kind_for_status(status),
        message: "Current-routing interpretation is gated because explicit active-work consumption applicability is "@
            + status_text(status) + "."@,
        evidence: Seq::empty(),
    }
}

fn push_actual(m: &mut Vec<char>, actual: &Option<String>)
    ensures
        final(m)@ == old(m)@ + actual_text(crate::applicability::opt_view(*actual)),
{
    match actual {
        Some(a) => {
            extend_str(m, "`");
            extend_str(m, a.as_str());
            extend_str(m, "`");
        },
        None => extend_str(m, "UNAVAILABLE"),
    }
}

pub fn work_applicability_claim(evaluation: &EvidenceApplicability) -> (c: Claim)
    ensures
        c@ == work_claim(evaluation.status, dims_view(evaluation.dimensions@)),
{
    let mut m = chars_of("Provider-current work applicability is ");
    extend_str(&mut m, status_name(evaluation.status));
    extend_str(&mut m, ".");
    let mut claim = Claim::new(claim_kind_for_status(evaluation.status), string_of(m.as_slice()).as_str());
    let ghost ds = dims_view(evaluation.dimensions@);
    let ghost ev = ds.map_values(|d: DimensionSpec| dimension_note(d));
    let mut i: usize = 0;
    while i < evaluation.dimensions.len()
        invariant
            i <= evaluation.dimensions@.len(),
            ds == dims_view(evaluation.dimensions@),
            ev == ds.map_values(|d: DimensionSpec| dimension_note(d)),
            claim@.kind == kind_for_status(evaluation.status),
            claim@.message == m@,
            claim@.evidence == ev.take(i as int),
        decreases evaluation.dimensions.len() - i,
    {
        let d = &evaluation.dimensions[i];
        let mut t = chars_of("work applicability ");
        extend_str(&mut t, dimension_name(d.dimension));
        extend_str(&mut t, ": required `");
        extend_str(&mut t, d.required.as_str());
        extend_str(&mut t, "`, actual ");
        push_actual(&mut t, &d.actual);
        extend_str(&mut t, ", status ");
        extend_str(&mut t, dimension_status_name(d.status));
        extend_str(&mut t, ".");
        assert(ds[i as int] == d@);
        claim = claim.with_evidence(Evidence::new(string_of(t.as_slice()).as_str()));
        i = i + 1;
        assert(claim@.evidence =~= ev.take(i as int));
    }
    assert(ev.take(i as int) =~= ev);
    claim
}

pub fn provider_snapshot_applicability_claim(evaluation: &ProviderSnapshotApplicability) -> (c: Claim)
    ensures
        c@ == snapshot_claim(evaluation.status, evaluation.required@, opt_identity(evaluation.actual)),
{
    let mut m = chars_of("Provider active-work population applicability is ");
    extend_str(&mut m, status_name(evaluation.status));
    extend_str(&mut m, ".");
    let mut t = chars_of("required provider snapshot `");
    extend_str(&mut t, evaluation.required.as_str());
    extend_str(&mut t, "`, actual ");
    match &evaluation.actual {
        Some(a) => {
            extend_str(&mut t, "`");
            extend_str(&mut t, a.as_str());
            extend_str(&mut t, "`");
        },
        None => extend_str(&mut t, "UNAVAILABLE"),
    }
    extend_str(&mut t, ".");
    assert(t@ == "required provider snapshot `"@ + evaluation.required@ + "`, actual "@ + actual_text(
        opt_identity(evaluation.actual),
    ) + "."@);
    let c = Claim::new(claim_kind_for_status(evaluation.status), string_of(m.as_slice()).as_str())
        .with_evidence(Evidence::new(string_of(t.as_slice()).as_str()));
    assert(c@.evidence =~= snapshot_claim(
        evaluation.status,
        evaluation.required@,
        opt_identity(evaluation.actual),
    ).evidence);
    c
}

pub fn routing_gate_claim(status: ApplicabilityStatus) -> (c: Claim)
    ensures
        c@ == gate_claim(status),
{
    let mut m = chars_of(
        "Current-routing interpretation is gated because explicit active-work consumption applicability is ",
    );
    extend_str(&mut m, status_name(status));
    extend_str(&mut m, ".");
    Claim::new(claim_kind_for_status(status), string_of(m.as_slice()).as_str())
}

pub open spec fn admitted_claim(inventory_sha256: Seq<char>) -> ClaimSpec {
    ClaimSpec {
        kind: ClaimKind::Observed,
        message: "Admitted active-work consumption context schema v1 bound to inventory `"@
            + inventory_sha256 + "`."@,
        evidence: seq![
            note(
                "Consumption context was supplied explicitly; inventory mode did not infer provider-current coordinates from checkout HEAD, repository revision, branch age, or observed_at."@,
            ),
        ],
    }
}

pub open spec fn applies_claim() -> ClaimSpec {
    ClaimSpec {
        kind: ClaimKind::Derived,
        message: "Every applicability axis required by the supplied consumption context APPLIES; current-routing interpretation may use the admitted inventory facts."@,
        evidence: Seq::empty(),
    }
}

pub open spec fn gated_finding(status: ApplicabilityStatus) -> FindingSpec {
    FindingSpec {
        kind: "preflight-inventory-applicability-gated"@,
        title: "Active-work current applicability not established"@,
        location: None,
        claims: seq![gate_claim(status)],
        question: Some(
            "Refresh the explicit provider-current context before using this inventory for current routing."@,
        ),
    }
}

/// A routing finding under a gate: path overlaps and explicit coordination
/// are relabelled as gated, gain the gating claim and a refresh question;
/// other findings are unchanged.
pub open spec fn regate(f: FindingSpec, status: ApplicabilityStatus) -> FindingSpec {
    if f.kind == "preflight-inventory-path-overlap"@ || f.kind
        == "preflight-inventory-path-overlap-activity-unknown"@ {
        FindingSpec {
            kind: "preflight-inventory-path-overlap-applicability-gated"@,
            title: "Path overlap in supplied inventory; current applicability gated"@,
            claims: f.claims.push(gate_claim(status)),
            question: Some(
                "Refresh the explicit provider-current context before treating this supplied path overlap as a current collision."@,
            ),
            ..f
        }
    } else if f.kind == "preflight-explicit-coordination"@ {
        FindingSpec {
            kind: "preflight-explicit-coordination-applicability-gated"@,
            title: "Explicit coordination in supplied inventory; current applicability gated"@,
            claims: f.claims.push(gate_claim(status)),
            question: Some(
                "Refresh the explicit provider-current context before treating this supplied coordination relation as current routing evidence."@,
            ),
            ..f
        }
    } else {
        f
    }
}

/// The axis claims an evaluation contributes, in order.
pub open spec fn axis_claims(
    work: Option<(ApplicabilityStatus, Seq<DimensionSpec>)>,
    snapshot: Option<(ApplicabilityStatus, Seq<char>, Option<Seq<char>>)>,
) -> Seq<ClaimSpec> {
    (match work {
        Some((s, ds)) => seq![work_claim(s, ds)],
        None => Seq::empty(),
    }) + (match snapshot {
        Some((s, r, a)) => seq![snapshot_claim(s, r, a)],
        None => Seq::empty(),
    })
}

/// The report after the context is applied.
pub open spec fn applied_report(
    a: ReportSpec,
    inventory_sha256: Seq<char>,
    work: Option<(ApplicabilityStatus, Seq<DimensionSpec>)>,
    snapshot: Option<(ApplicabilityStatus, Seq<char>, Option<Seq<char>>)>,
    status: ApplicabilityStatus,
) -> ReportSpec {
    let claims = a.claims.push(admitted_claim(inventory_sha256)) + axis_claims(work, snapshot);
    if status == ApplicabilityStatus::Applies {
        ReportSpec { claims: claims.push(applies_claim()), ..a }
    } else {
        ReportSpec {
            claims: claims.push(gate_claim(status)),
            findings: a.findings.map_values(|f: FindingSpec| regate(f, status)).push(
                gated_finding(status),
            ),
            ..a
        }
    }
}

pub open spec fn work_axis(e: ConsumptionEvaluation) -> Option<(ApplicabilityStatus, Seq<DimensionSpec>)> {
    match e.work {
        Some(w) => Some((w.status, dims_view(w.dimensions@))),
        None => None,
    }
}

pub open spec fn snapshot_axis(e: ConsumptionEvaluation) -> Option<
    (ApplicabilityStatus, Seq<char>, Option<Seq<char>>),
> {
    match e.provider_snapshot {
        Some(p) => Some((p.status, p.required@, opt_identity(p.actual))),
        None => None,
    }
}

fn push_claim(report: &mut AnalysisReport, claim: Claim)
    ensures
        final(report)@ == (ReportSpec { claims: old(report)@.claims.push(claim@), ..old(report)@ }),
{
    let ghost before = report.claims@;
    report.claims.push(claim);
    assert(report.claims@.map_values(|c: Claim| c@) =~= before.map_values(|c: Claim| c@).push(
        claim@,
    ));
}

fn kind_is(f: &Finding, kind: &str) -> (r: bool)
    ensures
        r == (f@.kind == kind@),
{
    let a = chars_of(f.kind.as_str());
    let b = chars_of(kind);
    chars_eq(a.as_slice(), b.as_slice())
}

fn regate_exec(f: Finding, status: ApplicabilityStatus) -> (r: Finding)
    ensures
        r@ == regate(f@, status),
{
    let mut f = f;
    if kind_is(&f, "preflight-inventory-path-overlap") || kind_is(
        &f,
        "preflight-inventory-path-overlap-activity-unknown",
    ) {
        let ghost before = f@;
        f.kind = owned("preflight-inventory-path-overlap-applicability-gated");
        f.title = owned("Path overlap in supplied inventory; current applicability gated");
        let ghost cs = f.claims@;
        let g = routing_gate_claim(status);
        f.claims.push(g);
        assert(f.claims@.map_values(|c: Claim| c@) =~= cs.map_values(|c: Claim| c@).push(g@));
        f.question = Some(
            owned(
                "Refresh the explicit provider-current context before treating this supplied path overlap as a current collision.",
            ),
        );
        f
    } else if kind_is(&f, "preflight-explicit-coordination") {
        f.kind = owned("preflight-explicit-coordination-applicability-gated");
        f.title = owned("Explicit coordination in supplied inventory; current applicability gated");
        let ghost cs = f.claims@;
        let g = routing_gate_claim(status);
        f.claims.push(g);
        assert(f.claims@.map_values(|c: Claim| c@) =~= cs.map_values(|c: Claim| c@).push(g@));
        f.question = Some(
            owned(
                "Refresh the explicit provider-current context before treating this supplied coordination relation as current routing evidence.",
            ),
        );
        f
    } else {
        f
    }
}

pub open spec fn findings_view(fs: Seq<Finding>) -> Seq<FindingSpec> {
    fs.map_values(|f: Finding| f@)
}

fn regate_all(findings: Vec<Finding>, status: ApplicabilityStatus) -> (r: Vec<Finding>)
    ensures
        findings_view(r@) == findings_view(findings@).map_values(|f: FindingSpec| regate(f, status)),
{
    let ghost all = findings_view(findings@);
    let mut rest = findings;
    let mut out: Vec<Finding> = Vec::new();
    let n = rest.len();
    let mut i: usize = 0;
    assert(all.skip(0) =~= all);
    while rest.len() > 0
        invariant
            i <= all.len(),
            all.len() == n,
            rest@.len() + i == all.len(),
            findings_view(rest@) == all.skip(i as int),
            findings_view(out@) == all.take(i as int).map_values(|f: FindingSpec| regate(f, status)),
        decreases rest.len(),
    {
        let ghost rest_before = rest@;
        let f = rest.remove(0);
        assert(f@ == findings_view(rest_before)[0]);
        assert(all.skip(i as int)[0] == all[i as int]);
        assert(findings_view(rest@) =~= all.skip(i + 1)) by {
            assert(rest@ =~= rest_before.remove(0));
            assert forall|k: int| 0 <= k < rest@.len() implies findings_view(rest@)[k] == all.skip(
                i + 1,
            )[k] by {
                assert(rest@[k] == rest_before[k + 1]);
                assert(findings_view(rest_before)[k + 1] == all.skip(i as int)[k + 1]);
            }
        }
        let ghost before = out@;
        let g = regate_exec(f, status);
        out.push(g);
        assert(findings_view(out@) =~= findings_view(before).push(g@));
        assert(all.take(i + 1) =~= all.take(i as int).push(all[i as int]));
        i = i + 1;
        assert(findings_view(out@) =~= all.take(i as int).map_values(
            |f: FindingSpec| regate(f, status),
        ));
    }
    assert(all.take(i as int) =~= all);
    out
}

/// Records the admitted context and its axes on the report; when the
/// combined status does not apply, the report gains the gating claim and the
/// gated finding, and its routing findings are relabelled as gated.
pub fn apply_context(
    report: &mut AnalysisReport,
    context: &ActiveInventoryConsumptionContext,
    evaluation: &ConsumptionEvaluation,
)
    ensures
        final(report)@ == applied_report(
            old(report)@,
            context.inventory_sha256@,
            work_axis(*evaluation),
            snapshot_axis(*evaluation),
            evaluation.status,
        ),
{
    let ghost a = report@;
    let mut m = chars_of("Admitted active-work consumption context schema v1 bound to inventory `");
    extend_str(&mut m, context.inventory_sha256.as_str());
    extend_str(&mut m, "`.");
    let admitted = Claim::new(ClaimKind::Observed, string_of(m.as_slice()).as_str()).with_evidence(
        Evidence::new(
            "Consumption context was supplied explicitly; inventory mode did not infer provider-current coordinates from checkout HEAD, repository revision, branch age, or observed_at.",
        ),
    );
    assert(admitted@.evidence =~= admitted_claim(context.inventory_sha256@).evidence);
    push_claim(report, admitted);
    let ghost after_admitted = report@;
    if let Some(work) = &evaluation.work {
        push_claim(report, work_applicability_claim(work));
    }
    if let Some(p) = &evaluation.provider_snapshot {
        push_claim(report, provider_snapshot_applicability_claim(p));
    }
    let ghost claims = a.claims.push(admitted_claim(context.inventory_sha256@)) + axis_claims(
        work_axis(*evaluation),
        snapshot_axis(*evaluation),
    );
    assert(report@.claims =~= claims);
    if evaluation.status == ApplicabilityStatus::Applies {
        push_claim(
            report,
            Claim::new(
                ClaimKind::Derived,
                "Every applicability axis required by the supplied consumption context APPLIES; current-routing interpretation may use the admitted inventory facts.",
            ),
        );
        return;
    }
    push_claim(report, routing_gate_claim(evaluation.status));
    let mut all: Vec<Finding> = Vec::new();
    std::mem::swap(&mut all, &mut report.findings);
    let mut regated = regate_all(all, evaluation.status);
    let gated = Finding::new(
        "preflight-inventory-applicability-gated",
        "Active-work current applicability not established",
    ).with_claim(routing_gate_claim(evaluation.status)).with_question(
        "Refresh the explicit provider-current context before using this inventory for current routing.",
    );
    assert(gated@.claims =~= gated_finding(evaluation.status).claims);
    let ghost rv = findings_view(regated@);
    regated.push(gated);
    assert(findings_view(regated@) =~= rv.push(gated_finding(evaluation.status)));
    report.findings = regated;
}

} // verus!
