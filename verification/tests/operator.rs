//! End-to-end scenarios for the selection operator, driven through a
//! scripted upstream producer.

use batch_selection::batch::{LazyBatchColumn, LazyBatchColumnVec};
use batch_selection::error::Error;
use batch_selection::expr::{CmpOp, Predicate};
use batch_selection::interface::{BatchExecuteResult, BatchExecutor, ColumnInfo, ExecutorContext};
use batch_selection::selection_executor::BatchSelectionExecutor;

/// Big-endian encoding of one integer cell.
fn enc(v: u64) -> Vec<u8> {
    v.to_be_bytes().to_vec()
}

/// A scripted upstream: hands out its chunks in order, then empty batches.
struct MockSrc {
    /// Which columns of produced batches are decoded; also fixes the width.
    layout: Vec<bool>,
    chunks: Vec<Option<(LazyBatchColumnVec, Option<Error>)>>,
    next: usize,
}

impl MockSrc {
    fn new(layout: Vec<bool>, chunks: Vec<(LazyBatchColumnVec, Option<Error>)>) -> MockSrc {
        MockSrc { layout, chunks: chunks.into_iter().map(Some).collect(), next: 0 }
    }

    fn empty_batch(&self) -> LazyBatchColumnVec {
        let mut cols = Vec::new();
        for &decoded in &self.layout {
            if decoded {
                cols.push(LazyBatchColumn::from_ints(Vec::new()));
            } else {
                cols.push(LazyBatchColumn::from_raw(Vec::new()));
            }
        }
        LazyBatchColumnVec::from_columns(cols)
    }
}

impl BatchExecutor for MockSrc {
    // The ghost protocol functions have no runtime meaning; a mock only
    // needs `next_batch`.
    fn wf(&self) -> bool {
        unreachable!()
    }

    fn decoded_cols(&self) -> vstd::prelude::Seq<bool> {
        unreachable!()
    }

    fn chunks(&self) -> vstd::prelude::Seq<batch_selection::batch::BatchCells> {
        unreachable!()
    }

    fn errs(&self) -> vstd::prelude::Seq<Option<Error>> {
        unreachable!()
    }

    fn thrown(&self) -> bool {
        unreachable!()
    }

    fn remaining(&self) -> vstd::prelude::nat {
        unreachable!()
    }

    fn next_batch(&mut self, _expect_rows: usize) -> BatchExecuteResult {
        if self.next < self.chunks.len() {
            let (data, error) = self.chunks[self.next].take().unwrap();
            self.next += 1;
            BatchExecuteResult { data, error }
        } else {
            BatchExecuteResult { data: self.empty_batch(), error: None }
        }
    }
}

fn int_schema(n: usize) -> ExecutorContext {
    let mut columns_info = Vec::new();
    for _ in 0..n {
        columns_info.push(ColumnInfo { tp: 8, pk_handle: false });
    }
    ExecutorContext { columns_info }
}

fn ints_of(batch: &LazyBatchColumnVec, col: usize) -> Vec<u64> {
    let c = batch.column(col);
    let mut out = Vec::new();
    for r in 0..c.len() {
        out.push(c.value_int(r).unwrap());
    }
    out
}

#[test]
fn scenario_single_chunk_filter() {
    // Upstream column = [1, 2, 3] in one raw chunk, drained after;
    // predicate "column > 1"; next(10) keeps [2, 3] with no error.
    let chunk = LazyBatchColumnVec::from_columns(vec![LazyBatchColumn::from_raw(vec![
        enc(1),
        enc(2),
        enc(3),
    ])]);
    let src = MockSrc::new(vec![false], vec![(chunk, None)]);
    let conditions = vec![Predicate { col: 0, op: CmpOp::Greater, rhs: 1 }];
    let mut ex = BatchSelectionExecutor::new(int_schema(1), src, conditions).unwrap();

    let r = ex.next_batch(10);
    assert_eq!(r.data.rows_len(), 2);
    assert_eq!(ints_of(&r.data, 0), vec![2, 3]);
    assert!(r.error.is_none());

    // Buffer is now empty and the upstream drained: a further call hands
    // back nothing, still without an error.
    let r2 = ex.next_batch(10);
    assert_eq!(r2.data.rows_len(), 0);
    assert!(r2.error.is_none());
}

#[test]
fn scenario_deferred_upstream_error() {
    // Chunk one: 3 rows, all passing.  Chunk two: an error and no rows.
    // next(4) returns the 3 buffered rows together with the error.
    let chunk1 = LazyBatchColumnVec::from_columns(vec![LazyBatchColumn::from_raw(vec![
        enc(1),
        enc(2),
        enc(3),
    ])]);
    let chunk2 = LazyBatchColumnVec::from_columns(vec![LazyBatchColumn::from_raw(Vec::new())]);
    let src = MockSrc::new(
        vec![false],
        vec![(chunk1, None), (chunk2, Some(Error::Other(7)))],
    );
    let conditions = vec![Predicate { col: 0, op: CmpOp::Greater, rhs: 0 }];
    let mut ex = BatchSelectionExecutor::new(int_schema(1), src, conditions).unwrap();

    let r = ex.next_batch(4);
    assert_eq!(r.data.rows_len(), 3);
    assert_eq!(ints_of(&r.data, 0), vec![1, 2, 3]);
    assert_eq!(r.error, Some(Error::Other(7)));
    // The operator is terminal now: calling next_batch again would be a
    // contract violation.
}

#[test]
fn scenario_empty_predicate_set() {
    // No conditions: every row passes; the output equals the upstream
    // output, modulo buffering granularity.  The primary-key column comes
    // decoded from upstream; the other column stays raw throughout, even
    // though its type code resolves to nothing.
    let chunk = LazyBatchColumnVec::from_columns(vec![
        LazyBatchColumn::from_ints(vec![10, 20]),
        LazyBatchColumn::from_raw(vec![b"x".to_vec(), b"yz".to_vec()]),
    ]);
    let src = MockSrc::new(vec![true, false], vec![(chunk, None)]);
    let context = ExecutorContext {
        columns_info: vec![
            ColumnInfo { tp: 8, pk_handle: true },
            ColumnInfo { tp: 255, pk_handle: false },
        ],
    };
    let mut ex = BatchSelectionExecutor::new(context, src, Vec::new()).unwrap();

    let r1 = ex.next_batch(1);
    assert_eq!(r1.data.rows_len(), 1);
    assert_eq!(ints_of(&r1.data, 0), vec![10]);
    assert_eq!(r1.data.column(1).value_bytes(0).unwrap(), &b"x".to_vec());
    assert!(r1.error.is_none());

    let r2 = ex.next_batch(5);
    assert_eq!(r2.data.rows_len(), 1);
    assert_eq!(ints_of(&r2.data, 0), vec![20]);
    assert_eq!(r2.data.column(1).value_bytes(0).unwrap(), &b"yz".to_vec());
    assert!(r2.error.is_none());
}

#[test]
fn bounded_output_and_order_across_calls() {
    // next(n) never returns more than n rows, and the concatenation of
    // successive results is the upstream order restricted to survivors.
    let chunk = LazyBatchColumnVec::from_columns(vec![LazyBatchColumn::from_raw(vec![
        enc(5),
        enc(1),
        enc(6),
        enc(7),
    ])]);
    let src = MockSrc::new(vec![false], vec![(chunk, None)]);
    let conditions = vec![Predicate { col: 0, op: CmpOp::GreaterEq, rhs: 5 }];
    let mut ex = BatchSelectionExecutor::new(int_schema(1), src, conditions).unwrap();

    let r1 = ex.next_batch(2);
    assert_eq!(r1.data.rows_len(), 2);
    assert_eq!(ints_of(&r1.data, 0), vec![5, 6]);
    assert!(r1.error.is_none());

    let r2 = ex.next_batch(2);
    assert_eq!(r2.data.rows_len(), 1);
    assert_eq!(ints_of(&r2.data, 0), vec![7]);
    assert!(r2.error.is_none());
}

#[test]
fn decode_failure_is_deferred_and_surfaced_once() {
    // A referenced column with a malformed cell: the chunk contributes no
    // rows and a decode error is surfaced with the short result.
    let chunk = LazyBatchColumnVec::from_columns(vec![LazyBatchColumn::from_raw(vec![vec![
        1, 2, 3,
    ]])]);
    let src = MockSrc::new(vec![false], vec![(chunk, None)]);
    let conditions = vec![Predicate { col: 0, op: CmpOp::Greater, rhs: 0 }];
    let mut ex = BatchSelectionExecutor::new(int_schema(1), src, conditions).unwrap();

    let r = ex.next_batch(10);
    assert_eq!(r.data.rows_len(), 0);
    assert_eq!(r.error, Some(Error::Decode));
}

#[test]
fn column_pruning_skips_undecodable_bytes() {
    // The unreferenced, non-primary-key column holds bytes that could
    // never decode; since it is never decoded, filtering still succeeds
    // and its bytes flow through unchanged.
    let chunk = LazyBatchColumnVec::from_columns(vec![
        LazyBatchColumn::from_raw(vec![enc(5), enc(1)]),
        LazyBatchColumn::from_raw(vec![b"garbage".to_vec(), b"!".to_vec()]),
    ]);
    let src = MockSrc::new(vec![false, false], vec![(chunk, None)]);
    let context = ExecutorContext {
        columns_info: vec![
            ColumnInfo { tp: 8, pk_handle: false },
            ColumnInfo { tp: 99, pk_handle: false },
        ],
    };
    let conditions = vec![Predicate { col: 0, op: CmpOp::Greater, rhs: 1 }];
    let mut ex = BatchSelectionExecutor::new(context, src, conditions).unwrap();

    let r = ex.next_batch(10);
    assert_eq!(r.data.rows_len(), 1);
    assert_eq!(ints_of(&r.data, 0), vec![5]);
    assert!(!r.data.column(1).is_decoded());
    assert_eq!(r.data.column(1).value_bytes(0).unwrap(), &b"garbage".to_vec());
    assert!(r.error.is_none());
}

#[test]
fn conjunction_applies_every_predicate() {
    // Two predicates over two columns: a row survives only when both hold.
    let chunk = LazyBatchColumnVec::from_columns(vec![
        LazyBatchColumn::from_raw(vec![enc(1), enc(4), enc(9), enc(6)]),
        LazyBatchColumn::from_raw(vec![enc(10), enc(10), enc(10), enc(0)]),
    ]);
    let src = MockSrc::new(vec![false, false], vec![(chunk, None)]);
    let conditions = vec![
        Predicate { col: 0, op: CmpOp::GreaterEq, rhs: 4 },
        Predicate { col: 1, op: CmpOp::Equal, rhs: 10 },
    ];
    let mut ex = BatchSelectionExecutor::new(int_schema(2), src, conditions).unwrap();

    let r = ex.next_batch(10);
    assert_eq!(r.data.rows_len(), 2);
    assert_eq!(ints_of(&r.data, 0), vec![4, 9]);
    assert_eq!(ints_of(&r.data, 1), vec![10, 10]);
    assert!(r.error.is_none());
}

#[test]
fn empty_upstream_drains_cleanly() {
    let src = MockSrc::new(vec![false], Vec::new());
    let conditions = vec![Predicate { col: 0, op: CmpOp::Less, rhs: 3 }];
    let mut ex = BatchSelectionExecutor::new(int_schema(1), src, conditions).unwrap();

    let r = ex.next_batch(3);
    assert_eq!(r.data.rows_len(), 0);
    assert!(r.error.is_none());
}

#[test]
fn zero_row_request_returns_nothing_and_defers_errors() {
    let chunk = LazyBatchColumnVec::from_columns(vec![LazyBatchColumn::from_raw(vec![enc(2)])]);
    let src = MockSrc::new(vec![false], vec![(chunk, None)]);
    let conditions = vec![Predicate { col: 0, op: CmpOp::Greater, rhs: 0 }];
    let mut ex = BatchSelectionExecutor::new(int_schema(1), src, conditions).unwrap();

    // Asking for zero rows neither pulls nor surfaces anything.
    let r0 = ex.next_batch(0);
    assert_eq!(r0.data.rows_len(), 0);
    assert!(r0.error.is_none());

    let r = ex.next_batch(1);
    assert_eq!(r.data.rows_len(), 1);
    assert_eq!(ints_of(&r.data, 0), vec![2]);
    assert!(r.error.is_none());
}

#[test]
fn construction_rejects_out_of_range_reference() {
    let src = MockSrc::new(vec![false], Vec::new());
    let conditions = vec![Predicate { col: 3, op: CmpOp::Equal, rhs: 0 }];
    let r = BatchSelectionExecutor::new(int_schema(1), src, conditions);
    assert!(matches!(r, Err(Error::SchemaResolution)));
}

#[test]
fn construction_rejects_unresolvable_referenced_column() {
    let src = MockSrc::new(vec![false], Vec::new());
    let context =
        ExecutorContext { columns_info: vec![ColumnInfo { tp: 99, pk_handle: false }] };
    let conditions = vec![Predicate { col: 0, op: CmpOp::Equal, rhs: 0 }];
    let r = BatchSelectionExecutor::new(context, src, conditions);
    assert!(matches!(r, Err(Error::SchemaResolution)));
}

#[test]
fn construction_rejects_unresolvable_pk_column() {
    let src = MockSrc::new(vec![true], Vec::new());
    let context = ExecutorContext { columns_info: vec![ColumnInfo { tp: 99, pk_handle: true }] };
    let r = BatchSelectionExecutor::new(context, src, Vec::new());
    assert!(matches!(r, Err(Error::SchemaResolution)));
}

#[test]
fn filter_rows_partial_and_on_evaluation_failure() {
    // Predicate 1 applies fully; predicate 2 cannot be evaluated (its
    // column is raw); predicate 3 is never reached.  The base bitmap
    // reflects exactly the predicates before the failing one, and the
    // failure is an evaluation error.
    let src = MockSrc::new(vec![false, false], Vec::new());
    let context = ExecutorContext {
        columns_info: vec![
            ColumnInfo { tp: 8, pk_handle: false },
            ColumnInfo { tp: 8, pk_handle: false },
        ],
    };
    let conditions = vec![
        Predicate { col: 0, op: CmpOp::Greater, rhs: 1 },
        Predicate { col: 1, op: CmpOp::Greater, rhs: 0 },
        Predicate { col: 0, op: CmpOp::Greater, rhs: 100 },
    ];
    let ex = BatchSelectionExecutor::new(context, src, conditions).unwrap();

    let data = LazyBatchColumnVec::from_columns(vec![
        LazyBatchColumn::from_ints(vec![5, 0, 7]),
        LazyBatchColumn::from_raw(vec![Vec::new(), Vec::new(), Vec::new()]),
    ]);
    let mut base = vec![true, true, false];
    let r = ex.filter_rows(&data, &mut base);
    assert!(matches!(r, Err(Error::Evaluation)));
    assert_eq!(base, vec![true, false, false]);
}
