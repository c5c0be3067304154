//! How the server answers a failed request: a JSON-RPC error kind, a
//! message, and an optional one-field JSON object of data.

use vstd::prelude::*;

verus! {

/// The JSON-RPC error a failure is reported as.
#[derive(Debug, Clone, Copy, PartialEq, Eq)]
pub enum McpErrorKind {
    /// The request's parameters name nothing that can be served.
    InvalidParams,
    /// The requested resource does not exist.
    ResourceNotFound,
    /// Something failed underneath (network, bad deployment).
    InternalError,
}

/// A failed request as the server reports it.
#[derive(Debug, Clone, PartialEq, Eq)]
pub struct McpFailure {
    /// The JSON-RPC error kind.
    pub kind: McpErrorKind,
    /// The error message.
    pub message: String,
    /// Data attached to the error: a JSON object with one string field,
    /// given as `(field, value)`.
    pub data: Option<(String, String)>,
}

} // verus!
