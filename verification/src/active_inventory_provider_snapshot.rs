//! The provider-snapshot binding of a frozen active-work inventory: which
//! snapshot identity the inventory's JSON requires, whether an independently
//! supplied current snapshot may be checked against it, and the gated report.
use vstd::prelude::*;

use crate::active_changes::{apply_provider_snapshot_gate, gated_report_with};
use crate::finding::ClaimKind;
use crate::finding::AnalysisReport;
use crate::provider_snapshot_applicability::{identity_error, ProviderSnapshotIdentity};

verus! {

/// The inventory's top-level member naming its provider snapshot.
pub const PROVIDER_SNAPSHOT_KEY: &'static str = "provider_snapshot_identity";

/// A top-level member of a JSON object, as far as the binding reads it.
#[derive(Debug, Clone, Eq, PartialEq)]
pub enum JsonField {
    /// A JSON string, unescaped.
    Text(String),
    /// Any other JSON value.
    Other,
}

pub enum JsonFieldView {
    Text(Seq<char>),
    Other,
}

impl View for JsonField {
    type V = JsonFieldView;

    open spec fn view(&self) -> JsonFieldView {
        match self {
            JsonField::Text(s) => JsonFieldView::Text(s@),
            JsonField::Other => JsonFieldView::Other,
        }
    }
}

pub open spec fn json_field_result(
    r: Result<Option<JsonField>, String>,
) -> Result<Option<JsonFieldView>, Seq<char>> {
    match r {
        Ok(Some(f)) => Ok(Some(f@)),
        Ok(None) => Ok(None),
        Err(e) => Err(e@),
    }
}

/// What `json_top_level_field` reads from `bytes` under `key`.
pub uninterp spec fn json_field(bytes: Seq<u8>, key: Seq<char>) -> Result<
    Option<JsonFieldView>,
    Seq<char>,
>;

/// Parses `bytes` as one JSON document with `serde_json::from_slice` into a
/// `serde_json::Value` and reads its top-level member `key` with
/// `Value::get`: `None` when the member is absent or the document is not an
/// object, the unescaped text of a string member, `Other` for any other
/// member, and the parse error's text when the bytes are not JSON. The
/// contract names that outcome `json_field` of the bytes and the key, and
/// states nothing more of it.
#[verifier::external_body]
fn json_top_level_field(bytes: &[u8], key: &str) -> (r: Result<Option<JsonField>, String>)
    ensures
        json_field_result(r) == json_field(bytes@, key@),
{
    match serde_json::from_slice::<serde_json::Value>(bytes) {
        Ok(value) => Ok(match value.get(key).cloned() {
            None => None,
            Some(serde_json::Value::String(text)) => Some(JsonField::Text(text)),
            Some(_) => Some(JsonField::Other),
        }),
        Err(error) => Err(error.to_string()),
    }
}

pub open spec fn not_canonical_message() -> Seq<char> {
    "`provider_snapshot_identity` must be a canonical `sha256:<64-lowercase-hex>` string"@
}

pub open spec fn unbound_current_message() -> Seq<char> {
    "current provider snapshot was supplied, but the inventory does not bind `provider_snapshot_identity`"@
}

/// The snapshot identity that the inventory bytes require: none when the
/// member is absent, the parsed identity of a string member, and a refusal
/// for unparsable bytes, a non-canonical string or any other member.
pub open spec fn required_snapshot(bytes: Seq<u8>) -> Result<Option<Seq<char>>, Seq<char>> {
    match json_field(bytes, PROVIDER_SNAPSHOT_KEY@) {
        Err(e) => Err(e),
        Ok(None) => Ok(None),
        Ok(Some(JsonFieldView::Text(s))) => match identity_error(s) {
            None => Ok(Some(s)),
            Some(m) => Err(m),
        },
        Ok(Some(JsonFieldView::Other)) => Err(not_canonical_message()),
    }
}

pub open spec fn snapshot_result_view(
    r: Result<Option<ProviderSnapshotIdentity>, String>,
) -> Result<Option<Seq<char>>, Seq<char>> {
    match r {
        Ok(Some(id)) => Ok(Some(id@)),
        Ok(None) => Ok(None),
        Err(e) => Err(e@),
    }
}

pub open spec fn current_view(current: Option<&ProviderSnapshotIdentity>) -> Option<Seq<char>> {
    match current {
        Some(c) => Some(c@),
        None => None,
    }
}

/// Reads the provider snapshot identity that the inventory bytes bind.
pub fn required_provider_snapshot(bytes: &[u8]) -> (r: Result<
    Option<ProviderSnapshotIdentity>,
    String,
>)
    ensures
        snapshot_result_view(r) == required_snapshot(bytes@),
{
    match json_top_level_field(bytes, PROVIDER_SNAPSHOT_KEY) {
        Err(e) => Err(e),
        Ok(None) => Ok(None),
        Ok(Some(JsonField::Text(s))) => match ProviderSnapshotIdentity::parse(s) {
            Ok(id) => Ok(Some(id)),
            Err(e) => Err(e.to_string()),
        },
        Ok(Some(JsonField::Other)) => Err(
            "`provider_snapshot_identity` must be a canonical `sha256:<64-lowercase-hex>` string".to_string(),
        ),
    }
}

/// A current snapshot can only be checked against an inventory that binds
/// one: supplying it for an unbound inventory is refused.
pub fn provider_snapshot_binding(
    required: Option<ProviderSnapshotIdentity>,
    current: Option<&ProviderSnapshotIdentity>,
) -> (r: Result<Option<ProviderSnapshotIdentity>, String>)
    ensures
        r is Err <==> (required is None && current is Some),
        match r {
            Ok(b) => b == required,
            Err(m) => m@ == unbound_current_message(),
        },
{
    match required {
        None => {
            if current.is_some() {
                return Err(
                    "current provider snapshot was supplied, but the inventory does not bind `provider_snapshot_identity`".to_string(),
                );
            }
            Ok(None)
        },
        Some(id) => Ok(Some(id)),
    }
}

/// The active-inventory report under the provider-snapshot binding of the
/// inventory `bytes`. `inventory_report` is the outcome of building the
/// report from those bytes; it is consulted only once the binding admits the
/// current snapshot. An unbound inventory yields that report as it stands; a
/// bound one yields it gated by `apply_provider_snapshot_gate`, a changed
/// snapshot being claimed with `ClaimKind::Observed`.
pub fn build_active_inventory_analysis_report_with_provider_snapshot(
    bytes: &[u8],
    current_provider_snapshot: Option<&ProviderSnapshotIdentity>,
    inventory_report: Result<AnalysisReport, String>,
) -> (r: Result<AnalysisReport, String>)
    ensures
        match required_snapshot(bytes@) {
            Err(e) => r matches Err(m) && m@ == e,
            Ok(None) => if current_provider_snapshot is Some {
                r matches Err(m) && m@ == unbound_current_message()
            } else {
                r == inventory_report
            },
            Ok(Some(req)) => match inventory_report {
                Err(e) => r matches Err(m) && m@ == e@,
                Ok(a) => r matches Ok(g) && g@ == gated_report_with(
                    a@,
                    req,
                    current_view(current_provider_snapshot),
                    ClaimKind::Observed,
                ),
            },
        },
{
    let required = match required_provider_snapshot(bytes) {
        Ok(req) => req,
        Err(e) => return Err(e),
    };
    let binding = match provider_snapshot_binding(required, current_provider_snapshot) {
        Ok(b) => b,
        Err(e) => return Err(e),
    };
    match binding {
        None => inventory_report,
        Some(req) => match inventory_report {
            Err(e) => Err(e),
            Ok(analysis) => Ok(
                apply_provider_snapshot_gate(
                    analysis,
                    &req,
                    current_provider_snapshot,
                    ClaimKind::Observed,
                ),
            ),
        },
    }
}

} // verus!
