//! The engine's error taxonomy. Every operation returns a result; a failure
//! is local to the one operation that raised it and leaves every table
//! unchanged.

use vstd::prelude::*;

verus! {

/// Why an engine operation was refused.
#[derive(Clone, Copy, Debug, PartialEq, Eq, Structural)]
pub enum EngineError {
    /// Malformed input text (CSV reading).
    ParseError,
    /// An operation named a column the table does not have.
    ColumnNotFound,
    /// The engine rejected the operation on well-named columns: a type
    /// mismatch, or a reduction whose value leaves the 64-bit range.
    BackendEvaluationError,
    /// A join named a peer container absent from the registry.
    TargetNotFound,
}

} // verus!
