//! The library's error type.

use vstd::prelude::*;

verus! {

/// Failures surfaced by the tracer and the aggregation engine.
#[derive(Debug)]
pub enum SdtError {
    /// Input data that the operation needs was never supplied.
    NotLoaded(String),
    /// A column referenced by an aggregation is absent from the group.
    ColumnNotFound(String),
    /// Any other failure, with a human-readable message.
    General(String),
    /// A required input column is absent.
    MissingColumn(String),
    /// A uniqueness or consistency constraint was violated.
    Validation(String),
    /// A row holds a null where none is allowed, or otherwise bad data.
    InvalidData(String),
    /// A trace row's direction is none of identity, forward and backward.
    UnknownDirection(String),
}

} // verus!
