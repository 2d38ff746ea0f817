//! Error kinds of the selection operator, and the first-failure-wins merge
//! used for the single pending error slot.

use vstd::prelude::*;

verus! {

/// An error arising during construction or during a buffer fill cycle.
///
/// Calling the operator again after it has already surfaced an error is not
/// an `Error`: it is a contract violation, excluded by the `requires` clause
/// of [`crate::interface::BatchExecutor::next_batch`].
#[derive(Clone, Copy, Debug, PartialEq, Eq, Structural)]
pub enum Error {
    /// A referenced or primary-key-handle column's declared type could not
    /// be resolved to a supported evaluation type, or a predicate referenced
    /// a column index outside the schema.  Construction-fatal.
    SchemaResolution,
    /// Evaluating a predicate over a batch failed.
    Evaluation,
    /// A column's raw bytes could not be decoded into typed values.
    Decode,
    /// An error produced beneath the upstream interface, carried through
    /// unchanged; the payload is an upstream-chosen code.
    Other(u64),
}

/// First-failure-wins merge: an already-pending error is never overwritten
/// by a later cycle's error.
pub open spec fn spec_merge_error(a: Option<Error>, b: Option<Error>) -> Option<Error> {
    if a is Some {
        a
    } else {
        b
    }
}

/// Merges a later error `b` into the pending slot `a`, keeping the first.
pub fn merge_pending_error(a: Option<Error>, b: Option<Error>) -> (r: Option<Error>)
    ensures
        r == spec_merge_error(a, b),
{
    match a {
        Some(e) => Some(e),
        None => b,
    }
}

} // verus!
