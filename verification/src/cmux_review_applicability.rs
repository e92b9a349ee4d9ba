//! Whether a review receipt still speaks for the current revision.
use vstd::prelude::*;

use crate::applicability::{
    combined_status, dims_view, evaluate_query, expected_dimensions, query_error,
    ApplicabilityQuery, ApplicabilityStatus, EvaluationContext, EvidenceApplicability,
    EvidenceRequirements, APPLICABILITY_SCHEMA_VERSION,
};
use crate::cmux_review::{
    all_lower_hex, all_lower_hex_exec, copy_opt_string, project_cmux_review_receipt, projection,
    receipt_error, CmuxReviewEnvelope, CmuxReviewReceipt, EnvelopeView,
};
use crate::text::chars_of;
use crate::validate::either;

verus! {

pub const CMUX_REVIEW_APPLICABILITY_SCHEMA_VERSION: u32 = 1;

#[derive(Debug)]
pub struct CmuxReviewApplicabilityRequest {
    pub receipt: CmuxReviewReceipt,
    pub current: EvaluationContext,
}

#[derive(Debug)]
pub struct CmuxReviewApplicabilityProjection {
    pub schema_version: u32,
    pub envelope: CmuxReviewEnvelope,
    pub applicability: EvidenceApplicability,
    pub disposition: CmuxReviewContinuityDisposition,
}

#[derive(Debug, Clone, Copy, Eq, PartialEq, Structural)]
pub enum CmuxReviewContinuityDisposition {
    ReuseExactReview,
    RefreshReview,
    NeedCurrentRevision,
}

/// Why a continuity request was refused.
#[derive(Debug)]
pub struct CmuxReviewApplicabilityError {
    message: String,
}

impl CmuxReviewApplicabilityError {
    pub closed spec fn spec_message(&self) -> Seq<char> {
        self.message@
    }

    fn new(message: String) -> (e: CmuxReviewApplicabilityError)
        ensures
            e.spec_message() == message@,
    {
        CmuxReviewApplicabilityError { message }
    }

    /// The refusal's text.
    pub fn to_string(&self) -> (s: String)
        ensures
            s@ == self.spec_message(),
    {
        self.message.clone()
    }
}

/// The current revision, when given, is an exact lowercase Git object id.
pub open spec fn current_revision_error(revision: Option<String>) -> Option<Seq<char>> {
    match revision {
        Some(r) => if (r@.len() == 40 || r@.len() == 64) && all_lower_hex(r@) {
            None
        } else {
            Some("current revision must be an exact 40- or 64-character lowercase Git object id"@)
        },
        None => None,
    }
}

/// The query that asks whether the review's head revision is the current one.
pub open spec fn continuity_query(req: CmuxReviewApplicabilityRequest) -> ApplicabilityQuery {
    ApplicabilityQuery {
        schema_version: APPLICABILITY_SCHEMA_VERSION,
        requirements: EvidenceRequirements {
            repository: None,
            revision: Some(req.receipt.source.head_sha),
            work: None,
            scope: None,
        },
        context: req.current,
    }
}

/// The first reason to refuse the request: the receipt, the current
/// revision, then the applicability query.
pub open spec fn for_context_error(req: CmuxReviewApplicabilityRequest) -> Option<Seq<char>> {
    either(
        receipt_error(req.receipt),
        either(
            current_revision_error(req.current.revision),
            query_error(continuity_query(req)),
        ),
    )
}

/// Exact applicability reuses the review; a moved revision refreshes it; an
/// unknown one asks for the current revision.
pub open spec fn continuity_for(status: ApplicabilityStatus) -> CmuxReviewContinuityDisposition {
    match status {
        ApplicabilityStatus::Applies => CmuxReviewContinuityDisposition::ReuseExactReview,
        ApplicabilityStatus::Invalid => CmuxReviewContinuityDisposition::RefreshReview,
        ApplicabilityStatus::Unknown => CmuxReviewContinuityDisposition::NeedCurrentRevision,
    }
}

fn copy_context(c: &EvaluationContext) -> (r: EvaluationContext)
    ensures
        r == *c,
{
    EvaluationContext {
        repository: copy_opt_string(&c.repository),
        revision: copy_opt_string(&c.revision),
        work: copy_opt_string(&c.work),
        path: copy_opt_string(&c.path),
    }
}

/// Projects the receipt and decides whether it still applies to the
/// current revision.
pub fn project_cmux_review_for_context(request: &CmuxReviewApplicabilityRequest) -> (r: Result<
    CmuxReviewApplicabilityProjection,
    CmuxReviewApplicabilityError,
>)
    ensures
        match r {
            Ok(p) => {
                let q = continuity_query(*request);
                &&& for_context_error(*request) is None
                &&& p.schema_version == CMUX_REVIEW_APPLICABILITY_SCHEMA_VERSION
                &&& p.envelope@ == projection(request.receipt)
                &&& dims_view(p.applicability.dimensions@) == expected_dimensions(q)
                &&& p.applicability.status == combined_status(expected_dimensions(q))
                &&& p.disposition == continuity_for(p.applicability.status)
            },
            Err(e) => for_context_error(*request) == Some(e.spec_message()),
        },
{
    let envelope = match project_cmux_review_receipt(&request.receipt) {
        Ok(envelope) => envelope,
        Err(e) => return Err(CmuxReviewApplicabilityError::new(e.to_string())),
    };
    match &request.current.revision {
        Some(revision) => {
            let n = chars_of(revision.as_str()).len();
            if !((n == 40 || n == 64) && all_lower_hex_exec(revision.as_str())) {
                return Err(
                    CmuxReviewApplicabilityError::new(
                        crate::text::owned(
                            "current revision must be an exact 40- or 64-character lowercase Git object id",
                        ),
                    ),
                );
            }
        },
        None => {},
    }
    let query = ApplicabilityQuery {
        schema_version: APPLICABILITY_SCHEMA_VERSION,
        requirements: EvidenceRequirements {
            repository: None,
            revision: Some(request.receipt.source.head_sha.clone()),
            work: None,
            scope: None,
        },
        context: copy_context(&request.current),
    };
    assert(query == continuity_query(*request));
    let applicability = match evaluate_query(&query) {
        Ok(a) => a,
        Err(e) => return Err(CmuxReviewApplicabilityError::new(e.to_string())),
    };
    let disposition = match applicability.status {
        ApplicabilityStatus::Applies => CmuxReviewContinuityDisposition::ReuseExactReview,
        ApplicabilityStatus::Invalid => CmuxReviewContinuityDisposition::RefreshReview,
        ApplicabilityStatus::Unknown => CmuxReviewContinuityDisposition::NeedCurrentRevision,
    };
    Ok(
        CmuxReviewApplicabilityProjection {
            schema_version: CMUX_REVIEW_APPLICABILITY_SCHEMA_VERSION,
            envelope,
            applicability,
            disposition,
        },
    )
}

} // verus!
