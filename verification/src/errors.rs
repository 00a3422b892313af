//! The service's error taxonomy, and the classification of relational
//! store failures into it at the boundary.

use vstd::prelude::*;

verus! {

/// Error categories surfaced to callers of the service. No detail of the
/// relational store leaks past this classification.
#[derive(Clone, Copy, Debug, PartialEq, Eq, Structural)]
pub enum ServiceError {
    /// A referenced note/shelf/file/tag does not exist or does not belong
    /// to the requesting principal.
    NotFound,
    /// A malformed stream, a rejected filter, or a constraint violation.
    InvalidArgument,
    /// A storage failure distinct from validation, or a failed
    /// content-type inference.
    Internal,
    /// An unclassified relational error.
    Unknown,
}

/// The shapes of relational-store failure that the boundary distinguishes.
#[derive(Clone, Copy, Debug, PartialEq, Eq, Structural)]
pub enum DbErrorKind {
    /// A statement expected a row and affected or returned none.
    RowNotFound,
    /// The driver reported a database-side error of a recognised kind
    /// (unique, foreign-key, not-null or check violation).
    ConstraintViolation,
    /// The driver reported a database-side error it could not classify.
    DatabaseOther,
    /// Everything else: connection, protocol or decoding failures.
    Other,
}

/// How each relational failure maps onto the service taxonomy.
pub open spec fn spec_classify_db_error(e: DbErrorKind) -> ServiceError {
    match e {
        DbErrorKind::RowNotFound => ServiceError::NotFound,
        DbErrorKind::ConstraintViolation => ServiceError::InvalidArgument,
        DbErrorKind::DatabaseOther => ServiceError::Unknown,
        DbErrorKind::Other => ServiceError::Unknown,
    }
}

/// Classifies a relational-store failure at the service boundary.
pub fn classify_db_error(e: DbErrorKind) -> (r: ServiceError)
    ensures
        r == spec_classify_db_error(e),
{
    match e {
        DbErrorKind::RowNotFound => ServiceError::NotFound,
        DbErrorKind::ConstraintViolation => ServiceError::InvalidArgument,
        DbErrorKind::DatabaseOther => ServiceError::Unknown,
        DbErrorKind::Other => ServiceError::Unknown,
    }
}

} // verus!
