//! The pull interface shared by all batch executors, and the schema context
//! an executor is built against.
//!
//! Every executor, the selection operator too, is a producer of row
//! batches: `next_batch(n)` returns up to `n` rows and at most one error.
//! A zero-row batch signals exhaustion.  Once a call has returned an error
//! the producer is terminal: calling it again is a contract violation,
//! excluded by `requires`, not a recoverable failure.

use vstd::prelude::*;

use crate::batch::{BatchCells, LazyBatchColumnVec};
use crate::error::Error;

verus! {

/// The evaluation types this engine supports.  Decoded columns hold
/// unsigned integers.
#[derive(Clone, Copy, Debug, PartialEq, Eq, Structural)]
pub enum EvalType {
    Int,
}

/// The type codes that resolve to a supported evaluation type.
pub open spec fn spec_eval_type_of(tp: u8) -> Option<EvalType> {
    if tp == 1 || tp == 2 || tp == 3 || tp == 8 {
        Some(EvalType::Int)
    } else {
        None
    }
}

/// Resolves a schema column's declared type code to an evaluation type.
pub fn eval_type_of(tp: u8) -> (r: Result<EvalType, Error>)
    ensures
        spec_eval_type_of(tp) matches Some(t) ==> r == Result::<EvalType, Error>::Ok(t),
        spec_eval_type_of(tp) is None ==> r == Result::<EvalType, Error>::Err(
            Error::SchemaResolution,
        ),
{
    if tp == 1 || tp == 2 || tp == 3 || tp == 8 {
        Ok(EvalType::Int)
    } else {
        Err(Error::SchemaResolution)
    }
}

/// One schema column descriptor: a declared type code and whether the
/// column carries the row's primary-key handle.
#[derive(Clone, Copy, Debug, PartialEq, Eq, Structural)]
pub struct ColumnInfo {
    pub tp: u8,
    pub pk_handle: bool,
}

/// The schema context an executor is constructed against.
pub struct ExecutorContext {
    pub columns_info: Vec<ColumnInfo>,
}

/// What one `next_batch` call hands back: up to the requested number of
/// filtered rows, and at most one error.
pub struct BatchExecuteResult {
    pub data: LazyBatchColumnVec,
    pub error: Option<Error>,
}

/// A pull-based producer of row batches.
///
/// The ghost functions describe the producer's protocol: `decoded_cols`
/// fixes the width of its batches and which of their columns arrive
/// decoded; `chunks` and `errs` record what every call so far has handed
/// back, in order; `thrown` says whether an error has been returned, after
/// which the producer must not be called again; `remaining` bounds the
/// number of rows the producer can still hand out, so that downstream fill
/// loops terminate.
pub trait BatchExecutor: Sized {
    /// The producer's own well-formedness.
    spec fn wf(&self) -> bool;

    /// For each column of a produced batch, whether it arrives decoded.
    spec fn decoded_cols(&self) -> Seq<bool>;

    /// The batches handed back so far, oldest first.
    spec fn chunks(&self) -> Seq<BatchCells>;

    /// The error slots handed back so far, one per call, oldest first.
    spec fn errs(&self) -> Seq<Option<Error>>;

    /// Whether an error has been handed back.
    spec fn thrown(&self) -> bool;

    /// An upper bound on the rows still to come.
    spec fn remaining(&self) -> nat;

    /// Pulls the next batch: at most `expect_rows` rows, plus at most one
    /// error.  A zero-row batch signals exhaustion.
    fn next_batch(&mut self, expect_rows: usize) -> (r: BatchExecuteResult)
        requires
            old(self).wf(),
            !old(self).thrown(),
        ensures
            final(self).wf(),
            final(self).decoded_cols() == old(self).decoded_cols(),
            r.data@.len() == final(self).decoded_cols().len(),
            r.data.uniform(),
            r.data.layout() == final(self).decoded_cols(),
            r.data.spec_rows() <= expect_rows,
            final(self).chunks() == old(self).chunks().push(r.data@),
            final(self).errs() == old(self).errs().push(r.error),
            final(self).thrown() == (r.error is Some),
            final(self).remaining() + r.data.spec_rows() <= old(self).remaining(),
    ;
}

} // verus!
