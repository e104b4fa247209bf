//! The RPC status vocabulary: canonical status codes, the status message
//! with its precondition-failure details, and the errors a service returns
//! before accepting a request.

use vstd::prelude::*;

verus! {

pub const CODE_OK: i32 = 0;

pub const CODE_UNKNOWN: i32 = 2;

pub const CODE_INVALID_ARGUMENT: i32 = 3;

pub const CODE_NOT_FOUND: i32 = 5;

pub const CODE_PERMISSION_DENIED: i32 = 7;

pub const CODE_FAILED_PRECONDITION: i32 = 9;

pub const CODE_INTERNAL: i32 = 13;

/// One violated precondition: its type, the subject it concerns, and a
/// human-readable description.
pub struct Violation {
    pub violation_type: String,
    pub subject: String,
    pub description: String,
}

/// The detail attached to a `FAILED_PRECONDITION` status.
pub struct PreconditionFailure {
    pub violations: Vec<Violation>,
}

/// A detail payload with the type URL it travels under.
pub struct PreconditionFailureAny {
    pub type_url: String,
    pub value: PreconditionFailure,
}

/// A status as carried inside responses: code, message, details.
pub struct RpcStatus {
    pub code: i32,
    pub message: String,
    pub details: Vec<PreconditionFailureAny>,
}

/// An error returned at the RPC boundary, before a request is accepted.
#[derive(Debug)]
pub enum RpcError {
    InvalidArgument(String),
    NotFound(String),
    PermissionDenied(String),
    FailedPrecondition(String),
    Unknown(String),
    Internal(String),
}

} // verus!
