//! The selection operator: a batch executor that filters an upstream's
//! rows through a conjunction of predicates.
//!
//! The operator pulls fixed-size chunks from upstream, lazily decodes the
//! columns the predicates reference, evaluates every predicate over each
//! chunk, AND-merges the per-predicate bitmaps, and buffers the surviving
//! rows until the caller has asked for them.  At most one error is kept
//! pending; it is surfaced exactly once, when the buffer can no longer
//! satisfy a request, and the operator is terminal from then on.

use vstd::prelude::*;

use crate::batch::{
    batch_rows, cells_fit_layout, col_decodable, colcat, colcat_all, decode_col, empty_batch,
    lemma_colcat_all_len, lemma_colcat_all_push, lemma_colcat_assoc, lemma_colcat_empty_left,
    lemma_colcat_empty_right, lemma_mask_len_eq, lemma_mask_len_le, lemma_take_drop, take_count,
    BatchCells, LazyBatchColumn, LazyBatchColumnVec,
};
use crate::error::{merge_pending_error, Error};
use crate::expr::{is_referenced, pred_evaluable, references, Predicate};
use crate::filter::{
    applied_preds, chunk_decode_error, chunk_keep, cycle_error, decode_referred, filter_ok,
    lemma_applied_preds_is, lemma_processed_all_push, lemma_row_passes_extend, processed_all,
    processed_chunk, row_passes,
};
use crate::interface::{
    eval_type_of, spec_eval_type_of, BatchExecuteResult, BatchExecutor, ColumnInfo,
    ExecutorContext,
};

verus! {

/// How many rows one fill cycle asks the upstream for.  Intentionally a
/// fixed internal constant, decoupled from the caller's requested count.
pub const FETCH_CHUNK_ROWS: usize = 1024;

/// The row capacity each output column is allocated with.
pub const INITIAL_COLUMN_CAPACITY: usize = 2048;

/// Whether schema column `i` is materialized decoded by the operator: it
/// is referenced by a predicate, or carries the primary-key handle.
pub open spec fn col_materialized(preds: Seq<Predicate>, infos: Seq<ColumnInfo>, i: int) -> bool {
    references(preds, i) || infos[i].pk_handle
}

/// The layout of the operator's own batches: referenced and primary-key
/// columns decoded, every other column raw.
pub open spec fn selection_layout(preds: Seq<Predicate>, infos: Seq<ColumnInfo>) -> Seq<bool> {
    Seq::new(infos.len(), |i: int| col_materialized(preds, infos, i))
}

/// Construction succeeds exactly when every predicate references a column
/// of the schema and every column to be materialized resolves to a
/// supported evaluation type.
pub open spec fn construction_ok(preds: Seq<Predicate>, infos: Seq<ColumnInfo>) -> bool {
    &&& forall|k: int| 0 <= k < preds.len() ==> (#[trigger] preds[k]).col < infos.len()
    &&& forall|i: int|
        0 <= i < infos.len() && col_materialized(preds, infos, i) ==> spec_eval_type_of(
            (#[trigger] infos[i]).tp,
        ) is Some
}

/// The batch-layout protocol between the operator and its upstream:
/// outside the referenced columns (which the operator decodes itself), the
/// upstream hands exactly the primary-key columns decoded, so that after
/// the decode pass a chunk's layout matches the pending buffer's.
pub open spec fn layout_compatible(
    preds: Seq<Predicate>,
    infos: Seq<ColumnInfo>,
    src_layout: Seq<bool>,
) -> bool {
    &&& src_layout.len() == infos.len()
    &&& forall|i: int|
        0 <= i < infos.len() && !references(preds, i) ==> (#[trigger] src_layout[i]) == infos[
            i
        ].pk_handle
}

/// Whether a fill cycle stops the pull loop: it recorded an error, or the
/// upstream signalled exhaustion with a zero-row chunk.
pub open spec fn cycle_stops(chunk: BatchCells, preds: Seq<Predicate>, up: Option<Error>) -> bool {
    cycle_error(chunk, preds, up) is Some || batch_rows(chunk) == 0
}

/// The error still pending after the cycles recorded so far: only the
/// newest cycle can carry one, because filling stops at the first failure.
pub open spec fn pending_error_of(
    pulled: Seq<BatchCells>,
    pulled_errs: Seq<Option<Error>>,
    preds: Seq<Predicate>,
) -> Option<Error> {
    if pulled.len() == 0 {
        None
    } else {
        cycle_error(pulled.last(), preds, pulled_errs.last())
    }
}

/// The selection operator over an upstream batch executor `Src`.
pub struct BatchSelectionExecutor<Src: BatchExecutor> {
    context: ExecutorContext,
    src: Src,
    conditions: Vec<Predicate>,
    /// The schema columns referenced by the conjunction, computed once.
    referred_columns: Vec<usize>,
    /// Already-filtered rows not yet handed to the caller.
    pending_data: LazyBatchColumnVec,
    /// The single outstanding error, first failure wins.
    pending_error: Option<Error>,
    has_thrown_error: bool,
    has_drained: bool,
    /// History of the batches handed to the caller.
    emitted: Ghost<Seq<BatchCells>>,
    /// History of the error slots handed to the caller.
    emitted_errs: Ghost<Seq<Option<Error>>>,
}

impl<Src: BatchExecutor> BatchSelectionExecutor<Src> {
    /// The predicate conjunction.
    pub closed spec fn preds(&self) -> Seq<Predicate> {
        self.conditions@
    }

    /// The schema the operator was built against.
    pub closed spec fn schema(&self) -> Seq<ColumnInfo> {
        self.context.columns_info@
    }

    /// The filtered rows buffered but not yet handed out.
    pub closed spec fn buffered(&self) -> BatchCells {
        self.pending_data@
    }

    /// The chunks pulled from upstream so far.
    pub closed spec fn pulled(&self) -> Seq<BatchCells> {
        self.src.chunks()
    }

    /// The upstream's error slots, one per pulled chunk.
    pub closed spec fn pulled_errs(&self) -> Seq<Option<Error>> {
        self.src.errs()
    }

    /// Whether the operator has stopped filling.
    pub closed spec fn drained(&self) -> bool {
        self.has_drained
    }

    /// The outstanding error not yet surfaced.
    pub closed spec fn pending_err(&self) -> Option<Error> {
        self.pending_error
    }

    /// The rows the upstream can still produce.
    pub closed spec fn src_remaining(&self) -> nat {
        self.src.remaining()
    }

    /// The operator's full well-formedness: structural soundness of the
    /// buffer, the protocol with the upstream, the error-state machine,
    /// and the central filtering equation: everything handed out so far,
    /// followed by the pending buffer, is exactly the processed form of
    /// everything pulled so far.
    pub closed spec fn inv(&self) -> bool {
        let n = self.context.columns_info@.len();
        let preds = self.conditions@;
        &&& construction_ok(preds, self.context.columns_info@)
        &&& layout_compatible(preds, self.context.columns_info@, self.src.decoded_cols())
        &&& self.src.wf()
        &&& self.pending_data@.len() == n
        &&& self.pending_data.uniform()
        &&& self.pending_data.layout() == selection_layout(preds, self.context.columns_info@)
        &&& forall|j: int|
            0 <= j < self.referred_columns@.len() ==> (#[trigger] self.referred_columns@[j]) < n
        &&& forall|i: int|
            0 <= i < n ==> (references(preds, i) <==> self.referred_columns@.contains(i as usize))
        &&& self.src.chunks().len() == self.src.errs().len()
        &&& forall|j: int|
            0 <= j < self.src.chunks().len() ==> (#[trigger] self.src.chunks()[j]).len() == n
        &&& forall|j: int|
            0 <= j < self.src.chunks().len() - 1 ==> !cycle_stops(
                #[trigger] self.src.chunks()[j],
                preds,
                self.src.errs()[j],
            )
        &&& self.has_drained == (self.src.chunks().len() > 0 && cycle_stops(
            self.src.chunks().last(),
            preds,
            self.src.errs().last(),
        ))
        &&& self.pending_error == (if self.has_thrown_error {
            None
        } else {
            pending_error_of(self.src.chunks(), self.src.errs(), preds)
        })
        &&& self.has_thrown_error ==> self.has_drained
        &&& !self.has_drained ==> !self.src.thrown()
        &&& colcat(colcat_all(self.emitted@, n), self.pending_data@) == processed_all(
            self.src.chunks(),
            preds,
            n,
        )
        &&& forall|j: int|
            0 <= j < self.emitted@.len() ==> cells_fit_layout(
                #[trigger] self.emitted@[j],
                selection_layout(preds, self.context.columns_info@),
            )
    }

    /// Builds a selection operator over `src`.
    ///
    /// Fails, with a schema-resolution error, exactly when a predicate
    /// references a column outside the schema or a column that must be
    /// materialized has an unsupported type code.
    pub fn new(context: ExecutorContext, src: Src, conditions: Vec<Predicate>) -> (r: Result<
        Self,
        Error,
    >)
        requires
            src.wf(),
            !src.thrown(),
            src.chunks() == Seq::<BatchCells>::empty(),
            src.errs() == Seq::<Option<Error>>::empty(),
            layout_compatible(conditions@, context.columns_info@, src.decoded_cols()),
        ensures
            r matches Ok(_) <==> construction_ok(conditions@, context.columns_info@),
            r matches Err(e) ==> e == Error::SchemaResolution,
            r matches Ok(ex) ==> {
                &&& ex.wf()
                &&& ex.preds() == conditions@
                &&& ex.schema() == context.columns_info@
                &&& ex.decoded_cols() == selection_layout(conditions@, context.columns_info@)
                &&& ex.chunks() == Seq::<BatchCells>::empty()
                &&& ex.errs() == Seq::<Option<Error>>::empty()
                &&& !ex.thrown()
                &&& !ex.drained()
                &&& ex.pending_err() is None
                &&& ex.pulled() == Seq::<BatchCells>::empty()
                &&& ex.buffered() == empty_batch(context.columns_info@.len())
            },
    {
        let n = context.columns_info.len();

        // Every predicate must reference a column of the schema.
        let mut k: usize = 0;
        while k < conditions.len()
            invariant
                k <= conditions@.len(),
                forall|j: int| 0 <= j < k ==> (#[trigger] conditions@[j]).col < context.columns_info@.len(),
                n == context.columns_info@.len(),
            decreases conditions@.len() - k,
        {
            if conditions[k].col >= n {
                return Err(Error::SchemaResolution);
            }
            k = k + 1;
        }

        // Pre-allocate one output column per schema column: decoded for
        // materialized columns (their type must resolve), raw otherwise.
        let mut cols: Vec<LazyBatchColumn> = Vec::with_capacity(n);
        let mut idx: usize = 0;
        while idx < n
            invariant
                idx <= n,
                n == context.columns_info@.len(),
                forall|j: int| 0 <= j < conditions@.len()
                    ==> (#[trigger] conditions@[j]).col < n,
                cols@.len() == idx,
                forall|j: int| 0 <= j < idx ==> (#[trigger] cols@[j]).spec_is_decoded()
                    == col_materialized(conditions@, context.columns_info@, j),
                forall|j: int| 0 <= j < idx ==> (#[trigger] cols@[j])@.len() == 0,
                forall|j: int| 0 <= j < idx
                    && col_materialized(conditions@, context.columns_info@, j)
                    ==> spec_eval_type_of(context.columns_info@[j].tp) is Some,
            decreases n - idx,
        {
            let refd = is_referenced(&conditions, idx);
            let materialized = refd || context.columns_info[idx].pk_handle;
            if materialized {
                match eval_type_of(context.columns_info[idx].tp) {
                    Ok(_) => {
                        cols.push(LazyBatchColumn::decoded_with_capacity(INITIAL_COLUMN_CAPACITY));
                    },
                    Err(e) => {
                        return Err(e);
                    },
                }
            } else {
                cols.push(LazyBatchColumn::raw_with_capacity(INITIAL_COLUMN_CAPACITY));
            }
            idx = idx + 1;
        }
        let pending_data = LazyBatchColumnVec::from_columns(cols);

        // Collect the referenced column indices, in increasing order.
        let mut referred_columns: Vec<usize> = Vec::new();
        let mut i: usize = 0;
        while i < n
            invariant
                i <= n,
                n == context.columns_info@.len(),
                forall|j: int| 0 <= j < referred_columns@.len()
                    ==> (#[trigger] referred_columns@[j]) < i,
                forall|j: int| 0 <= j < referred_columns@.len()
                    ==> references(conditions@, referred_columns@[j] as int),
                forall|c: int| 0 <= c < i ==> (references(conditions@, c)
                    <==> referred_columns@.contains(c as usize)),
            decreases n - i,
        {
            let ghost before = referred_columns@;
            if is_referenced(&conditions, i) {
                referred_columns.push(i);
            }
            proof {
                assert forall|c: int| 0 <= c < i + 1 implies (references(conditions@, c)
                    <==> referred_columns@.contains(c as usize)) by {
                    if c < i {
                        if before.contains(c as usize) {
                            let w = choose|w: int|
                                0 <= w < before.len() && before[w] == c as usize;
                            assert(referred_columns@[w] == c as usize);
                        }
                        if referred_columns@.contains(c as usize) {
                            let w = choose|w: int|
                                0 <= w < referred_columns@.len() && referred_columns@[w] == (
                                c as usize);
                            if w < before.len() {
                                assert(before[w] == c as usize);
                            }
                        }
                    } else {
                        if references(conditions@, c) {
                            assert(referred_columns@.last() == c as usize);
                        }
                        if referred_columns@.contains(c as usize) {
                        }
                    }
                }
            }
            i = i + 1;
        }

        let ex = BatchSelectionExecutor {
            context,
            src,
            conditions,
            referred_columns,
            pending_data,
            pending_error: None,
            has_thrown_error: false,
            has_drained: false,
            emitted: Ghost(Seq::empty()),
            emitted_errs: Ghost(Seq::empty()),
        };
        proof {
            assert(ex.pending_data@ =~~= empty_batch(n as nat));
            assert(ex.pending_data.layout() =~= selection_layout(
                ex.conditions@,
                ex.context.columns_info@,
            ));
            assert(colcat_all(ex.emitted@, n as nat) == empty_batch(n as nat));
            lemma_colcat_empty_left(ex.pending_data@);
            assert(ex.pending_data@.len() == n);
            assert(colcat(colcat_all(ex.emitted@, n as nat), ex.pending_data@) == processed_all(
                ex.src.chunks(),
                ex.conditions@,
                n as nat,
            ));
        }
        Ok(ex)
    }

    /// Evaluates every predicate over `data`, in list order, AND-merging
    /// each one's per-row booleans into `base_retain_map`.  If evaluating
    /// predicate `k` fails, the bitmap reflects exactly the predicates
    /// before `k`, fully applied, and an evaluation error is returned.
    #[verifier::loop_isolation(false)]
    pub fn filter_rows(
        &self,
        data: &LazyBatchColumnVec,
        base_retain_map: &mut Vec<bool>,
    ) -> (r: Result<(), Error>)
        requires
            old(base_retain_map)@.len() == data.spec_rows(),
            data.uniform(),
        ensures
            final(base_retain_map)@.len() == data.spec_rows(),
            r matches Ok(_) <==> filter_ok(self.preds(), data@),
            r matches Err(e) ==> e == Error::Evaluation,
            forall|i: int|
                0 <= i < data.spec_rows() ==> final(base_retain_map)@[i] == (old(
                    base_retain_map,
                )@[i] && row_passes(self.preds(), applied_preds(self.preds(), data@), data@, i)),
    {
        let rows = data.rows_len();
        let mut head_retain_map: Vec<bool> = vec![false; rows];
        let ghost preds = self.conditions@;
        let mut k: usize = 0;
        while k < self.conditions.len()
            invariant
                k <= preds.len(),
                base_retain_map@.len() == rows,
                head_retain_map@.len() == rows,
                forall|j: int| 0 <= j < k ==> pred_evaluable(#[trigger] preds[j], data@),
                forall|i: int|
                    0 <= i < rows ==> base_retain_map@[i] == (old(base_retain_map)@[i]
                        && row_passes(preds, k as int, data@, i)),
            decreases preds.len() - k,
        {
            let cond = self.conditions[k];
            match cond.eval_as_bools(rows, data, &mut head_retain_map) {
                Err(_) => {
                    proof {
                        lemma_applied_preds_is(preds, data@, k as int);
                    }
                    return Err(Error::Evaluation);
                },
                Ok(_) => {},
            }
            let ghost base_at_k = base_retain_map@;
            let mut merged: Vec<bool> = Vec::with_capacity(rows);
            let mut i: usize = 0;
            while i < rows
                invariant
                    i <= rows,
                    merged@.len() == i,
                    base_retain_map@ == base_at_k,
                    base_retain_map@.len() == rows,
                    head_retain_map@.len() == rows,
                    forall|j: int|
                        0 <= j < i ==> merged@[j] == (base_at_k[j] && head_retain_map@[j]),
                decreases rows - i,
            {
                let b = base_retain_map[i] && head_retain_map[i];
                merged.push(b);
                i = i + 1;
            }
            *base_retain_map = merged;
            proof {
                assert forall|i2: int|
                    0 <= i2 < rows implies base_retain_map@[i2] == (old(base_retain_map)@[i2]
                    && row_passes(preds, k + 1, data@, i2)) by {
                    lemma_row_passes_extend(preds, k as int, data@, i2);
                }
            }
            k = k + 1;
        }
        proof {
            lemma_applied_preds_is(preds, data@, preds.len() as int);
        }
        Ok(())
    }

    /// One buffer fill cycle: pulls a chunk from upstream, decodes the
    /// referenced columns, filters the rows, appends the survivors to the
    /// pending buffer, and records at most one error, first failure first.
    /// A chunk whose referenced columns cannot be decoded contributes no
    /// rows: none of its rows could be filtered.
    #[verifier::loop_isolation(false)]
    fn fill_buffer(&mut self)
        requires
            old(self).wf(),
            !old(self).drained(),
        ensures
            final(self).wf(),
            final(self).preds() == old(self).preds(),
            final(self).schema() == old(self).schema(),
            final(self).decoded_cols() == old(self).decoded_cols(),
            final(self).chunks() == old(self).chunks(),
            final(self).errs() == old(self).errs(),
            !final(self).thrown(),
            final(self).pulled().len() == old(self).pulled().len() + 1,
            old(self).pulled().is_prefix_of(final(self).pulled()),
            final(self).remaining() <= old(self).remaining(),
            final(self).src_remaining() <= old(self).src_remaining(),
            final(self).drained() || final(self).src_remaining() < old(self).src_remaining(),
    {
        let ghost n = self.context.columns_info@.len();
        let ghost preds = self.conditions@;
        proof {
            assert(self.pending_error is None);
        }

        let mut result = self.src.next_batch(FETCH_CHUNK_ROWS);
        let ghost chunk0 = result.data@;
        let up_err = result.error;
        let ghost self0 = *self;

        let mut t: usize = 0;
        while t < self.referred_columns.len()
            invariant
                *self == self0,
                t <= self.referred_columns@.len(),
                result.data@.len() == n,
                result.data.uniform(),
                result.data.spec_rows() == batch_rows(chunk0),
                result.data.layout().len() == n,
                forall|i: int|
                    0 <= i < n ==> (#[trigger] result.data@[i]) == chunk0[i] || result.data@[i]
                        == decode_col(chunk0[i]),
                forall|i: int|
                    0 <= i < n && !references(preds, i) ==> (#[trigger] result.data@[i])
                        == chunk0[i],
                forall|i: int|
                    0 <= i < n && !references(preds, i) ==> (#[trigger] result.data.layout()[i])
                        == self.src.decoded_cols()[i],
                forall|j: int|
                    0 <= j < t ==> col_decodable(
                        chunk0[#[trigger] self.referred_columns@[j] as int],
                    ),
                forall|j: int|
                    0 <= j < t ==> result.data@[#[trigger] self.referred_columns@[j] as int]
                        == decode_col(chunk0[self.referred_columns@[j] as int]),
                forall|j: int|
                    0 <= j < t ==> result.data.layout()[#[trigger] self.referred_columns@[j] as int],
            decreases self.referred_columns@.len() - t,
        {
            let c = self.referred_columns[t];
            let ghost before = result.data@[c as int];
            match result.data.ensure_column_decoded(c) {
                Ok(_) => {
                    proof {
                        if before == chunk0[c as int] {
                            assert(col_decodable(chunk0[c as int]));
                        } else {
                            assert(before == decode_col(chunk0[c as int]));
                            if !col_decodable(chunk0[c as int]) {
                                assert(decode_col(chunk0[c as int]) == chunk0[c as int]);
                                assert(false);
                            }
                        }
                        crate::batch::lemma_decode_col_idempotent(chunk0[c as int]);
                        assert(decode_col(before) == decode_col(chunk0[c as int]));
                        assert(result.data@[c as int] == decode_col(chunk0[c as int]));
                        crate::batch::lemma_decode_col_len(before);
                        assert(self.referred_columns@[t as int] == c);
                        assert(self.referred_columns@.contains(c));
                        assert(references(preds, c as int));
                        assert forall|i: int| 0 <= i < n implies (#[trigger] result.data@[i])
                            .len() == result.data.spec_rows() by {
                            assert(result.data@[i].len() == batch_rows(chunk0));
                        }
                    }
                },
                Err(e) => {
                    proof {
                        if before == chunk0[c as int] {
                            assert(!col_decodable(chunk0[c as int]));
                        } else {
                            assert(before == decode_col(chunk0[c as int]));
                            if col_decodable(chunk0[c as int]) {
                                assert(col_decodable(decode_col(chunk0[c as int])));
                                assert(false);
                            }
                        }
                        assert(references(preds, c as int));
                        assert(chunk_decode_error(chunk0, preds));
                    }
                    self.pending_error = merge_pending_error(self.pending_error, Some(e));
                    self.has_drained = true;
                    proof {
                        lemma_colcat_all_len(self.emitted@, n as nat);
                        crate::filter::lemma_processed_all_len(
                            old(self).pulled(),
                            preds,
                            n as nat,
                        );
                        lemma_processed_all_push(old(self).pulled(), chunk0, preds, n as nat);
                        assert(processed_chunk(chunk0, preds) == empty_batch(n as nat));
                        lemma_colcat_empty_right(processed_all(old(self).pulled(), preds, n as nat));
                        assert(colcat(colcat_all(self.emitted@, n as nat), self.pending_data@)
                            == processed_all(self.src.chunks(), preds, n as nat));
                        assert(old(self).pulled() =~= self.src.chunks().subrange(
                            0,
                            old(self).pulled().len() as int,
                        ));
                    }
                    return;
                },
            }
            t = t + 1;
        }
        let ghost d = decode_referred(chunk0, preds);
        proof {
            assert forall|i: int| 0 <= i < n && references(preds, i) implies col_decodable(
                #[trigger] chunk0[i],
            ) && result.data@[i] == decode_col(chunk0[i]) && result.data.layout()[i] by {
                assert(self.referred_columns@.contains(i as usize));
                let j = choose|j: int|
                    0 <= j < self.referred_columns@.len() && self.referred_columns@[j] == (
                    i as usize);
                assert(col_decodable(chunk0[self.referred_columns@[j] as int]));
            }
            assert(result.data@ =~= d);
            assert(!chunk_decode_error(chunk0, preds));
            assert(result.data.layout() =~= selection_layout(
                preds,
                self.context.columns_info@,
            ));
            if n > 0 {
                assert(result.data@[0].len() == result.data.spec_rows());
            }
            assert(batch_rows(d) == result.data.spec_rows());
        }

        let result_is_drained = result.data.rows_len() == 0;
        let rows = result.data.rows_len();

        // Filter the fetched rows: fewer rows are retained on an error.
        let mut retain_map: Vec<bool> = Vec::with_capacity(rows);
        let mut w: usize = 0;
        while w < rows
            invariant
                w <= rows,
                retain_map@.len() == w,
                forall|j: int| 0 <= j < w ==> retain_map@[j],
            decreases rows - w,
        {
            retain_map.push(true);
            w = w + 1;
        }
        let filter_result = self.filter_rows(&result.data, &mut retain_map);
        proof {
            assert(retain_map@ =~= chunk_keep(preds, d));
        }
        let cycle_err = match &filter_result {
            Err(e) => Some(*e),
            Ok(_) => up_err,
        };

        // Append retained rows; the fetched chunk is consumed.
        let ghost pend0 = self.pending_data@;
        self.pending_data.append_selected(result.data, &retain_map);
        self.pending_error = merge_pending_error(self.pending_error, cycle_err);
        self.has_drained = self.pending_error.is_some() || result_is_drained;

        proof {
            assert(self.pending_error == cycle_error(chunk0, preds, up_err));
            assert(self.pending_data@ =~= colcat(pend0, processed_chunk(chunk0, preds)));
            lemma_colcat_all_len(self.emitted@, n as nat);
            crate::filter::lemma_processed_all_len(old(self).pulled(), preds, n as nat);
            lemma_colcat_assoc(
                colcat_all(self.emitted@, n as nat),
                pend0,
                processed_chunk(chunk0, preds),
            );
            lemma_processed_all_push(old(self).pulled(), chunk0, preds, n as nat);
            assert(colcat(colcat_all(self.emitted@, n as nat), self.pending_data@)
                == processed_all(self.src.chunks(), preds, n as nat));
            assert forall|i: int| 0 <= i < n implies (#[trigger] self.pending_data@[i]).len()
                == self.pending_data.spec_rows() by {
                lemma_mask_len_eq(d[i], d[0], retain_map@);
            }
            assert(self.pending_data.uniform());
            if n > 0 {
                lemma_mask_len_le(d[0], retain_map@);
                assert(self.pending_data.spec_rows() <= pend0[0].len() + batch_rows(chunk0));
            }
            assert(old(self).pulled() =~= self.src.chunks().subrange(
                0,
                old(self).pulled().len() as int,
            ));
        }
    }
}

impl<Src: BatchExecutor> BatchExecutor for BatchSelectionExecutor<Src> {
    closed spec fn wf(&self) -> bool {
        self.inv()
    }

    closed spec fn decoded_cols(&self) -> Seq<bool> {
        selection_layout(self.conditions@, self.context.columns_info@)
    }

    closed spec fn chunks(&self) -> Seq<BatchCells> {
        self.emitted@
    }

    closed spec fn errs(&self) -> Seq<Option<Error>> {
        self.emitted_errs@
    }

    closed spec fn thrown(&self) -> bool {
        self.has_thrown_error
    }

    closed spec fn remaining(&self) -> nat {
        self.src.remaining() + self.pending_data.spec_rows()
    }

    /// Returns up to `expect_rows` filtered rows plus at most one error,
    /// preserving original row order across calls.  An error is attached
    /// only to a short result, and it is exactly the pending one; a short
    /// result without an error signals clean exhaustion.
    #[verifier::loop_isolation(false)]
    fn next_batch(&mut self, expect_rows: usize) -> (r: BatchExecuteResult)
        ensures
            r.error is Some ==> r.data.spec_rows() < expect_rows,
            r.data.spec_rows() < expect_rows ==> final(self).drained(),
            r.error == (if r.data.spec_rows() < expect_rows {
                pending_error_of(
                    final(self).pulled(),
                    final(self).pulled_errs(),
                    old(self).preds(),
                )
            } else {
                None
            }),
            r.data.spec_rows() < expect_rows ==> batch_rows(final(self).buffered()) == 0,
            final(self).preds() == old(self).preds(),
            final(self).schema() == old(self).schema(),
            old(self).pulled().is_prefix_of(final(self).pulled()),
    {
        let ghost n = self.context.columns_info@.len();
        let ghost preds = self.conditions@;

        // Ensure `expect_rows` buffered rows, while more can still come.
        while !self.has_drained && self.pending_data.rows_len() < expect_rows
            invariant
                self.wf(),
                !self.thrown(),
                self.chunks() == old(self).chunks(),
                self.errs() == old(self).errs(),
                self.decoded_cols() == old(self).decoded_cols(),
                self.preds() == preds,
                self.schema() == old(self).schema(),
                old(self).pulled().is_prefix_of(self.pulled()),
                self.remaining() <= old(self).remaining(),
            decreases self.src_remaining() + (if self.has_drained {
                0nat
            } else {
                1nat
            }),
        {
            self.fill_buffer();
            proof {
                assert(old(self).pulled() =~= self.pulled().subrange(
                    0,
                    old(self).pulled().len() as int,
                ));
            }
        }

        // Hand out the first rows of the pending buffer; if they cannot
        // satisfy the request, the pending error is carried along.
        let ghost pend_full = self.pending_data@;
        let ghost em0 = self.emitted@;
        let data = self.pending_data.take_and_collect(expect_rows);
        let error = if data.rows_len() < expect_rows {
            let e = self.pending_error;
            self.pending_error = None;
            e
        } else {
            None
        };
        if error.is_some() {
            self.has_thrown_error = true;
        }
        self.emitted = Ghost(self.emitted@.push(data@));
        self.emitted_errs = Ghost(self.emitted_errs@.push(error));
        proof {
            let k = take_count(batch_rows(pend_full), expect_rows as nat);
            assert forall|i: int| 0 <= i < pend_full.len() implies 0 <= k <= (
            #[trigger] pend_full[i]).len() by {}
            lemma_take_drop(pend_full, k);
            lemma_colcat_all_len(em0, n as nat);
            lemma_colcat_all_push(em0, data@, n as nat);
            lemma_colcat_assoc(colcat_all(em0, n as nat), data@, self.pending_data@);
            assert(colcat(colcat_all(self.emitted@, n as nat), self.pending_data@)
                == processed_all(self.src.chunks(), preds, n as nat));
            data.lemma_cells_fit_layout();
            assert forall|j: int|
                0 <= j < self.emitted@.len() implies cells_fit_layout(
                #[trigger] self.emitted@[j],
                selection_layout(preds, self.context.columns_info@),
            ) by {
                if j < em0.len() {
                    assert(self.emitted@[j] == em0[j]);
                } else {
                    assert(self.emitted@[j] == data@);
                }
            }
        }
        BatchExecuteResult { data, error }
    }
}

/// Order preservation: the concatenation of every batch the operator has
/// handed out so far, followed by what it still buffers, equals — column
/// by column, in the upstream's row order — the chunks pulled so far,
/// restricted to the rows that passed filtering.
pub proof fn lemma_order_preservation<Src: BatchExecutor>(ex: &BatchSelectionExecutor<Src>)
    requires
        ex.wf(),
    ensures
        colcat(colcat_all(ex.chunks(), ex.schema().len()), ex.buffered()) == processed_all(
            ex.pulled(),
            ex.preds(),
            ex.schema().len(),
        ),
{
}

/// Column pruning: a schema column that is neither referenced by a
/// predicate nor the primary-key handle is never decoded.  The operator
/// materializes it raw, the filtering pipeline leaves its cells untouched,
/// and every batch handed out holds only its raw bytes.
pub proof fn lemma_column_pruning<Src: BatchExecutor>(ex: &BatchSelectionExecutor<Src>, i: int)
    requires
        ex.wf(),
        0 <= i < ex.schema().len(),
        !references(ex.preds(), i),
        !ex.schema()[i].pk_handle,
    ensures
        !ex.decoded_cols()[i],
        forall|j: int|
            0 <= j < ex.pulled().len() ==> decode_referred(#[trigger] ex.pulled()[j], ex.preds())[i]
                == ex.pulled()[j][i],
        forall|j: int, r: int|
            0 <= j < ex.chunks().len() && 0 <= r < ex.chunks()[j][i].len() ==> !((
            #[trigger] ex.chunks()[j][i][r]) is Int),
{
    assert forall|j: int, r: int|
        0 <= j < ex.chunks().len() && 0 <= r < ex.chunks()[j][i].len() implies !((
    #[trigger] ex.chunks()[j][i][r]) is Int) by {
        assert(cells_fit_layout(ex.chunks()[j], selection_layout(ex.preds(), ex.schema())));
    }
}

/// Terminal state: once an error has been returned, the operator is
/// drained, no further error is pending, and — by the `requires` of
/// `next_batch` — any subsequent call is a contract violation.
pub proof fn lemma_terminal_state<Src: BatchExecutor>(ex: &BatchSelectionExecutor<Src>)
    requires
        ex.wf(),
        ex.thrown(),
    ensures
        ex.drained(),
        ex.pending_err() is None,
{
}

} // verus!
