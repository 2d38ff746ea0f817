//! Unit tests for the pieces beneath the operator: the error merge, type
//! resolution, the column codec, and vectorized predicate evaluation.

use batch_selection::batch::{LazyBatchColumn, LazyBatchColumnVec};
use batch_selection::error::{merge_pending_error, Error};
use batch_selection::expr::{CmpOp, Predicate};
use batch_selection::interface::{eval_type_of, EvalType};

#[test]
fn merge_keeps_first_failure() {
    assert_eq!(merge_pending_error(None, None), None);
    assert_eq!(merge_pending_error(None, Some(Error::Decode)), Some(Error::Decode));
    assert_eq!(
        merge_pending_error(Some(Error::Evaluation), Some(Error::Decode)),
        Some(Error::Evaluation)
    );
    assert_eq!(merge_pending_error(Some(Error::Other(3)), None), Some(Error::Other(3)));
}

#[test]
fn type_codes_resolve_to_int_or_fail() {
    assert_eq!(eval_type_of(1), Ok(EvalType::Int));
    assert_eq!(eval_type_of(2), Ok(EvalType::Int));
    assert_eq!(eval_type_of(3), Ok(EvalType::Int));
    assert_eq!(eval_type_of(8), Ok(EvalType::Int));
    assert_eq!(eval_type_of(0), Err(Error::SchemaResolution));
    assert_eq!(eval_type_of(4), Err(Error::SchemaResolution));
    assert_eq!(eval_type_of(255), Err(Error::SchemaResolution));
}

#[test]
fn decode_reads_big_endian_cells() {
    let mut batch = LazyBatchColumnVec::from_columns(vec![LazyBatchColumn::from_raw(vec![
        vec![1, 2, 3, 4, 5, 6, 7, 8],
        vec![0, 0, 0, 0, 0, 0, 0, 9],
        u64::MAX.to_be_bytes().to_vec(),
    ])]);
    assert!(batch.ensure_column_decoded(0).is_ok());
    let col = batch.column(0);
    assert!(col.is_decoded());
    assert_eq!(col.value_int(0), Some(0x0102030405060708));
    assert_eq!(col.value_int(1), Some(9));
    assert_eq!(col.value_int(2), Some(u64::MAX));
    assert_eq!(col.value_int(3), None);
}

#[test]
fn decode_rejects_malformed_cell_and_leaves_column_raw() {
    let mut batch = LazyBatchColumnVec::from_columns(vec![LazyBatchColumn::from_raw(vec![
        vec![0, 0, 0, 0, 0, 0, 0, 1],
        vec![1, 2, 3],
    ])]);
    assert_eq!(batch.ensure_column_decoded(0), Err(Error::Decode));
    let col = batch.column(0);
    assert!(!col.is_decoded());
    assert_eq!(col.value_bytes(1).unwrap(), &vec![1, 2, 3]);
}

#[test]
fn decode_is_a_no_op_on_decoded_columns() {
    let mut batch =
        LazyBatchColumnVec::from_columns(vec![LazyBatchColumn::from_ints(vec![4, 5])]);
    assert!(batch.ensure_column_decoded(0).is_ok());
    assert_eq!(batch.column(0).value_int(1), Some(5));
}

#[test]
fn eval_writes_one_bool_per_row() {
    let data =
        LazyBatchColumnVec::from_columns(vec![LazyBatchColumn::from_ints(vec![1, 5, 10])]);
    let pred = Predicate { col: 0, op: CmpOp::Greater, rhs: 4 };
    let mut out = vec![false; 3];
    assert!(pred.eval_as_bools(3, &data, &mut out).is_ok());
    assert_eq!(out, vec![false, true, true]);
}

#[test]
fn eval_covers_every_comparison() {
    let data = LazyBatchColumnVec::from_columns(vec![LazyBatchColumn::from_ints(vec![3, 4, 5])]);
    let cases = vec![
        (CmpOp::Greater, vec![false, false, true]),
        (CmpOp::Less, vec![true, false, false]),
        (CmpOp::GreaterEq, vec![false, true, true]),
        (CmpOp::LessEq, vec![true, true, false]),
        (CmpOp::Equal, vec![false, true, false]),
        (CmpOp::NotEqual, vec![true, false, true]),
    ];
    for (op, want) in cases {
        let pred = Predicate { col: 0, op, rhs: 4 };
        let mut out = vec![false; 3];
        assert!(pred.eval_as_bools(3, &data, &mut out).is_ok());
        assert_eq!(out, want);
    }
}

#[test]
fn eval_fails_on_raw_column_and_leaves_buffer() {
    let data = LazyBatchColumnVec::from_columns(vec![LazyBatchColumn::from_raw(vec![
        b"a".to_vec(),
    ])]);
    let pred = Predicate { col: 0, op: CmpOp::Equal, rhs: 0 };
    let mut out = vec![true];
    assert_eq!(pred.eval_as_bools(1, &data, &mut out), Err(Error::Evaluation));
    assert_eq!(out, vec![true]);
}

#[test]
fn eval_fails_on_missing_column() {
    let data = LazyBatchColumnVec::from_columns(vec![LazyBatchColumn::from_ints(vec![1])]);
    let pred = Predicate { col: 2, op: CmpOp::Equal, rhs: 0 };
    let mut out = vec![false];
    assert_eq!(pred.eval_as_bools(1, &data, &mut out), Err(Error::Evaluation));
}

#[test]
fn take_and_collect_splits_ownership() {
    let mut batch = LazyBatchColumnVec::from_columns(vec![
        LazyBatchColumn::from_ints(vec![1, 2, 3]),
        LazyBatchColumn::from_raw(vec![b"a".to_vec(), b"b".to_vec(), b"c".to_vec()]),
    ]);
    let taken = batch.take_and_collect(2);
    assert_eq!(taken.rows_len(), 2);
    assert_eq!(taken.column(0).value_int(1), Some(2));
    assert_eq!(taken.column(1).value_bytes(0).unwrap(), &b"a".to_vec());
    assert_eq!(batch.rows_len(), 1);
    assert_eq!(batch.column(0).value_int(0), Some(3));
    assert_eq!(batch.column(1).value_bytes(0).unwrap(), &b"c".to_vec());
}

#[test]
fn take_and_collect_caps_at_what_is_there() {
    let mut batch =
        LazyBatchColumnVec::from_columns(vec![LazyBatchColumn::from_ints(vec![7])]);
    let taken = batch.take_and_collect(10);
    assert_eq!(taken.rows_len(), 1);
    assert_eq!(batch.rows_len(), 0);
}
