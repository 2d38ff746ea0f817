//! The per-chunk filtering pipeline, as a mathematical specification.
//!
//! A freshly fetched chunk is processed in three steps: the referenced
//! columns are decoded; each predicate is evaluated over every row and
//! AND-merged into a base retain bitmap; the retained rows are appended to
//! the pending buffer.  When evaluating predicate `k` fails, the bitmap
//! reflects exactly the predicates before `k`, and the rows retained under
//! that partial conjunction are still kept.  When a referenced column
//! cannot be decoded, no predicate over it could ever run: the chunk
//! contributes no rows and a decode error is recorded.

use vstd::prelude::*;

use crate::batch::{
    batch_rows, col_decodable, colcat, decode_col, empty_batch, mask, BatchCells, CellValue,
};
use crate::error::Error;
use crate::expr::{pred_evaluable, pred_holds, references, Predicate};

verus! {

/// How many leading predicates are applied to a chunk: evaluation runs in
/// list order and stops at the first predicate that cannot be evaluated.
pub open spec fn applied_preds(preds: Seq<Predicate>, cols: BatchCells) -> int
    decreases preds.len(),
{
    if preds.len() == 0 {
        0
    } else if !pred_evaluable(preds[0], cols) {
        0
    } else {
        1 + applied_preds(preds.drop_first(), cols)
    }
}

/// Every predicate of the set can be evaluated over the batch.
pub open spec fn filter_ok(preds: Seq<Predicate>, cols: BatchCells) -> bool {
    applied_preds(preds, cols) == preds.len()
}

/// The count of applied predicates is determined by which prefix of the
/// list is evaluable.
pub proof fn lemma_applied_preds_is(preds: Seq<Predicate>, cols: BatchCells, k: int)
    requires
        0 <= k <= preds.len(),
        forall|j: int| 0 <= j < k ==> pred_evaluable(#[trigger] preds[j], cols),
        k < preds.len() ==> !pred_evaluable(preds[k], cols),
    ensures
        applied_preds(preds, cols) == k,
    decreases preds.len(),
{
    if k == 0 {
    } else {
        let rest = preds.drop_first();
        assert forall|j: int| 0 <= j < k - 1 implies pred_evaluable(#[trigger] rest[j], cols) by {
            assert(rest[j] == preds[j + 1]);
        }
        if k - 1 < rest.len() {
            assert(rest[k - 1] == preds[k]);
        }
        lemma_applied_preds_is(rest, cols, k - 1);
    }
}

/// Whether row `r` passes every one of the first `upto` predicates.
pub open spec fn row_passes(preds: Seq<Predicate>, upto: int, cols: BatchCells, r: int) -> bool {
    forall|k: int| 0 <= k < upto ==> pred_holds(#[trigger] preds[k], cols, r)
}

/// The retain bitmap a chunk ends up with: row `r` survives exactly when
/// it passes every applied predicate.
pub open spec fn chunk_keep(preds: Seq<Predicate>, cols: BatchCells) -> Seq<bool> {
    Seq::new(
        batch_rows(cols),
        |r: int| row_passes(preds, applied_preds(preds, cols), cols, r),
    )
}

/// Every column masked with one retain bitmap.
pub open spec fn mask_cols(cols: BatchCells, keep: Seq<bool>) -> BatchCells {
    cols.map(|i: int, c: Seq<CellValue>| mask(c, keep))
}

/// A chunk after its referenced columns are decoded; the others are left
/// untouched.
pub open spec fn decode_referred(cols: BatchCells, preds: Seq<Predicate>) -> BatchCells {
    Seq::new(
        cols.len(),
        |i: int|
            if references(preds, i) {
                decode_col(cols[i])
            } else {
                cols[i]
            },
    )
}

/// Whether some referenced column of the chunk cannot be decoded.
pub open spec fn chunk_decode_error(cols: BatchCells, preds: Seq<Predicate>) -> bool {
    exists|i: int| 0 <= i < cols.len() && references(preds, i) && !col_decodable(#[trigger] cols[i])
}

/// What one fetched chunk contributes to the pending buffer.
pub open spec fn processed_chunk(chunk: BatchCells, preds: Seq<Predicate>) -> BatchCells {
    if chunk_decode_error(chunk, preds) {
        empty_batch(chunk.len())
    } else {
        let d = decode_referred(chunk, preds);
        mask_cols(d, chunk_keep(preds, d))
    }
}

/// What a whole sequence of fetched chunks contributes, in order.
pub open spec fn processed_all(chunks: Seq<BatchCells>, preds: Seq<Predicate>, n: nat) -> BatchCells
    decreases chunks.len(),
{
    if chunks.len() == 0 {
        empty_batch(n)
    } else {
        colcat(
            processed_all(chunks.drop_last(), preds, n),
            processed_chunk(chunks.last(), preds),
        )
    }
}

pub proof fn lemma_processed_all_len(chunks: Seq<BatchCells>, preds: Seq<Predicate>, n: nat)
    requires
        forall|j: int| 0 <= j < chunks.len() ==> (#[trigger] chunks[j]).len() == n,
    ensures
        processed_all(chunks, preds, n).len() == n,
    decreases chunks.len(),
{
    if chunks.len() > 0 {
        lemma_processed_all_len(chunks.drop_last(), preds, n);
    }
}

pub proof fn lemma_processed_all_push(
    chunks: Seq<BatchCells>,
    c: BatchCells,
    preds: Seq<Predicate>,
    n: nat,
)
    ensures
        processed_all(chunks.push(c), preds, n) == colcat(
            processed_all(chunks, preds, n),
            processed_chunk(c, preds),
        ),
{
    assert(chunks.push(c).drop_last() =~= chunks);
}

/// Extending the applied prefix by one predicate refines the row test by
/// exactly that predicate.
pub proof fn lemma_row_passes_extend(preds: Seq<Predicate>, k: int, cols: BatchCells, r: int)
    requires
        0 <= k < preds.len(),
    ensures
        row_passes(preds, k + 1, cols, r) == (row_passes(preds, k, cols, r) && pred_holds(
            preds[k],
            cols,
            r,
        )),
{
    if row_passes(preds, k, cols, r) && pred_holds(preds[k], cols, r) {
        assert forall|j: int| 0 <= j < k + 1 implies pred_holds(#[trigger] preds[j], cols, r) by {
            if j < k {
            }
        }
    }
    if row_passes(preds, k + 1, cols, r) {
        assert(pred_holds(preds[k], cols, r));
    }
}

/// The error one fill cycle records, first failure first: a decode
/// failure, else an evaluation failure, else whatever the upstream
/// attached to the chunk.
pub open spec fn cycle_error(
    chunk: BatchCells,
    preds: Seq<Predicate>,
    upstream: Option<Error>,
) -> Option<Error> {
    if chunk_decode_error(chunk, preds) {
        Some(Error::Decode)
    } else if !filter_ok(preds, decode_referred(chunk, preds)) {
        Some(Error::Evaluation)
    } else {
        upstream
    }
}

/// Conjunction correctness: when every predicate of the set evaluates
/// (no decode and no evaluation failure), a chunk keeps exactly the rows
/// for which every predicate holds, in their original order.
pub proof fn lemma_conjunction_correctness(chunk: BatchCells, preds: Seq<Predicate>)
    requires
        !chunk_decode_error(chunk, preds),
        filter_ok(preds, decode_referred(chunk, preds)),
    ensures
        processed_chunk(chunk, preds) == mask_cols(
            decode_referred(chunk, preds),
            Seq::new(
                batch_rows(decode_referred(chunk, preds)),
                |r: int| row_passes(
                    preds,
                    preds.len() as int,
                    decode_referred(chunk, preds),
                    r,
                ),
            ),
        ),
{
    let d = decode_referred(chunk, preds);
    assert(chunk_keep(preds, d) =~= Seq::new(
        batch_rows(d),
        |r: int| row_passes(preds, preds.len() as int, d, r),
    ));
}

} // verus!
