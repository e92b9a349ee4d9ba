//! Provider snapshot identities (`sha256:<digest>` of a provider's active
//! work population) and whether recorded evidence still matches the current
//! snapshot.
use vstd::prelude::*;

pub mod identity;

use crate::applicability::{evaluate_exact_coordinate, exact_status, ApplicabilityStatus};
use crate::cmux_review::{all_lower_hex, all_lower_hex_exec};
use crate::text::{chars_of, decimal, extend_str, push_decimal, slice_chars, starts_with};

verus! {

pub const PROVIDER_SNAPSHOT_APPLICABILITY_SCHEMA_VERSION: u32 = 1;

/// Why a string is not a provider snapshot identity, if it is not one.
pub open spec fn identity_error(v: Seq<char>) -> Option<Seq<char>> {
    if !("sha256:"@.is_prefix_of(v)) {
        Some("provider snapshot identity must use `sha256:<digest>`"@)
    } else if v.len() - 7 != 64 || !all_lower_hex(v.skip(7)) {
        Some(
            "provider snapshot sha256 digest must contain exactly 64 lowercase hexadecimal characters"@,
        )
    } else {
        None
    }
}

/// A validated `sha256:<64 lowercase hex>` identity.
#[derive(Debug)]
pub struct ProviderSnapshotIdentity {
    value: String,
}

impl View for ProviderSnapshotIdentity {
    type V = Seq<char>;

    closed spec fn view(&self) -> Seq<char> {
        self.value@
    }
}

impl ProviderSnapshotIdentity {
    #[verifier::type_invariant]
    spec fn valid(self) -> bool {
        identity_error(self.value@) is None
    }

    /// Accepts exactly the strings of the form `sha256:<64 lowercase hex>`.
    pub fn parse(value: String) -> (r: Result<ProviderSnapshotIdentity, ProviderSnapshotIdentityError>)
        ensures
            match r {
                Ok(id) => identity_error(value@) is None && id@ == value@,
                Err(e) => identity_error(value@) == Some(e.spec_message()),
            },
    {
        let cs = chars_of(value.as_str());
        let prefix = chars_of("sha256:");
        proof {
            reveal_strlit("sha256:");
        }
        if !starts_with(cs.as_slice(), prefix.as_slice()) {
            return Err(
                ProviderSnapshotIdentityError::new(
                    chars_of("provider snapshot identity must use `sha256:<digest>`"),
                ),
            );
        }
        let digest = slice_chars(cs.as_slice(), 7, cs.len());
        assert(digest@ == value@.skip(7));
        let ds = crate::text::string_of(digest.as_slice());
        if digest.len() != 64 || !all_lower_hex_exec(ds.as_str()) {
            return Err(
                ProviderSnapshotIdentityError::new(
                    chars_of(
                        "provider snapshot sha256 digest must contain exactly 64 lowercase hexadecimal characters",
                    ),
                ),
            );
        }
        Ok(ProviderSnapshotIdentity { value })
    }

    /// The identity's text.
    pub fn as_str(&self) -> (s: &str)
        ensures
            s@ == self@,
            identity_error(s@) is None,
    {
        proof {
            use_type_invariant(self);
        }
        self.value.as_str()
    }

    /// A second handle on the same identity.
    pub fn duplicate(&self) -> (r: ProviderSnapshotIdentity)
        ensures
            r@ == self@,
    {
        proof {
            use_type_invariant(self);
        }
        ProviderSnapshotIdentity { value: self.value.clone() }
    }
}

/// Why a string was refused as a provider snapshot identity.
#[derive(Debug)]
pub struct ProviderSnapshotIdentityError {
    message: String,
}

impl ProviderSnapshotIdentityError {
    pub closed spec fn spec_message(&self) -> Seq<char> {
        self.message@
    }

    pub(crate) fn new(message: Vec<char>) -> (e: ProviderSnapshotIdentityError)
        ensures
            e.spec_message() == message@,
    {
        ProviderSnapshotIdentityError { message: crate::text::string_of(message.as_slice()) }
    }

    /// The refusal's text.
    pub fn to_string(&self) -> (s: String)
        ensures
            s@ == self.spec_message(),
    {
        self.message.clone()
    }
}

#[derive(Debug)]
pub struct ProviderSnapshotApplicability {
    pub schema_version: u32,
    pub status: ApplicabilityStatus,
    pub required: ProviderSnapshotIdentity,
    pub actual: Option<ProviderSnapshotIdentity>,
}

pub open spec fn opt_identity(o: Option<ProviderSnapshotIdentity>) -> Option<Seq<char>> {
    match o {
        Some(i) => Some(i@),
        None => None,
    }
}

/// Compares the required snapshot with the current one: equal identities
/// apply, different ones invalidate, and an absent current one is unknown.
pub fn evaluate_provider_snapshot(
    required: &ProviderSnapshotIdentity,
    current: Option<&ProviderSnapshotIdentity>,
) -> (r: ProviderSnapshotApplicability)
    ensures
        r.schema_version == PROVIDER_SNAPSHOT_APPLICABILITY_SCHEMA_VERSION,
        r.status == exact_status(
            required@,
            match current {
                Some(c) => Some(c@),
                None => None,
            },
        ),
        r.required@ == required@,
        opt_identity(r.actual) == match current {
            Some(c) => Some(c@),
            None => None,
        },
{
    let actual_text = match current {
        Some(c) => Some(c.as_str()),
        None => None,
    };
    let status = evaluate_exact_coordinate(required.as_str(), actual_text);
    ProviderSnapshotApplicability {
        schema_version: PROVIDER_SNAPSHOT_APPLICABILITY_SCHEMA_VERSION,
        status,
        required: required.duplicate(),
        actual: match current {
            Some(c) => Some(c.duplicate()),
            None => None,
        },
    }
}

/// Why a recorded applicability is refused: an unsupported schema, or a
/// status that the identities do not give.
pub open spec fn recorded_applicability_error(
    schema_version: u32,
    status: ApplicabilityStatus,
    required: Seq<char>,
    actual: Option<Seq<char>>,
) -> Option<Seq<char>> {
    if schema_version != PROVIDER_SNAPSHOT_APPLICABILITY_SCHEMA_VERSION {
        Some(
            "unsupported provider snapshot applicability schema "@ + decimal(schema_version as nat)
                + "; expected 1"@,
        )
    } else if status != exact_status(required, actual) {
        Some(
            "provider snapshot applicability status is inconsistent with required/actual identities"@,
        )
    } else {
        None
    }
}

/// Accepts a recorded applicability only when its schema is supported and
/// its status is the one its identities give; the accepted value is the
/// re-evaluated one.
pub fn check_recorded_applicability(
    schema_version: u32,
    status: ApplicabilityStatus,
    required: ProviderSnapshotIdentity,
    actual: Option<ProviderSnapshotIdentity>,
) -> (r: Result<ProviderSnapshotApplicability, String>)
    ensures
        match r {
            Ok(a) => {
                &&& recorded_applicability_error(schema_version, status, required@, opt_identity(actual)) is None
                &&& a.status == status
                &&& a.required@ == required@
                &&& opt_identity(a.actual) == opt_identity(actual)
                &&& a.schema_version == schema_version
            },
            Err(m) => recorded_applicability_error(
                schema_version,
                status,
                required@,
                opt_identity(actual),
            ) == Some(m@),
        },
{
    if schema_version != PROVIDER_SNAPSHOT_APPLICABILITY_SCHEMA_VERSION {
        let mut m = chars_of("unsupported provider snapshot applicability schema ");
        push_decimal(&mut m, schema_version as usize);
        extend_str(&mut m, "; expected 1");
        return Err(crate::text::string_of(m.as_slice()));
    }
    let expected = match &actual {
        Some(a) => evaluate_provider_snapshot(&required, Some(a)),
        None => evaluate_provider_snapshot(&required, None),
    };
    if expected.status != status {
        return Err(
            crate::text::owned(
                "provider snapshot applicability status is inconsistent with required/actual identities",
            ),
        );
    }
    Ok(expected)
}

} // verus!
