//! Failures of the cache-store coordination layer.

use vstd::prelude::*;

verus! {

/// The ways a coordinator operation can fail.
#[derive(Debug, Clone, Copy, PartialEq, Eq, Structural)]
pub enum DatabaseError {
    /// The store connection could not be established at startup. Fatal:
    /// surfaced as a process-start failure, never retried.
    ConnectFailure,
    /// A store operation failed at the transport or protocol level after
    /// startup. Surfaced to the caller, not retried by the coordinator.
    StoreUnavailable,
    /// A value read from the store could not be parsed into a record.
    DecodeFailure,
    /// A hit was recorded for a keyword with no record in the cache nor in
    /// the store. Recoverable: surfaced to the caller.
    NotFound,
}

impl DatabaseError {
    /// A short description of the failure, for error responses and logs.
    pub fn message(&self) -> (r: &'static str)
        ensures
            *self is ConnectFailure ==> r@ == "unable to connect to the store"@,
            *self is StoreUnavailable ==> r@ == "failed to query the store"@,
            *self is DecodeFailure ==> r@ == "failed to decode a stored record"@,
            *self is NotFound ==> r@ == "no record exists for the keyword"@,
    {
        match self {
            DatabaseError::ConnectFailure => "unable to connect to the store",
            DatabaseError::StoreUnavailable => "failed to query the store",
            DatabaseError::DecodeFailure => "failed to decode a stored record",
            DatabaseError::NotFound => "no record exists for the keyword",
        }
    }
}

} // verus!
