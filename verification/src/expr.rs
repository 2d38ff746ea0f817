//! Predicates of the selection conjunction.
//!
//! A predicate compares one referenced column's decoded value against a
//! constant.  Predicates are evaluated vectorized: one boolean per row of a
//! batch, written into a caller-supplied buffer.

use vstd::prelude::*;

use crate::batch::{BatchCells, CellValue, LazyBatchColumn, LazyBatchColumnVec};
use crate::error::Error;

verus! {

/// The comparison a predicate applies.
#[derive(Clone, Copy, Debug, PartialEq, Eq, Structural)]
pub enum CmpOp {
    Greater,
    Less,
    GreaterEq,
    LessEq,
    Equal,
    NotEqual,
}

/// One compiled predicate of the conjunction: `column <op> rhs`.
#[derive(Clone, Copy, Debug, PartialEq, Eq, Structural)]
pub struct Predicate {
    /// Index of the referenced schema column.
    pub col: usize,
    pub op: CmpOp,
    pub rhs: u64,
}

/// What a comparison means on decoded values.
pub open spec fn cmp_holds(op: CmpOp, v: u64, rhs: u64) -> bool {
    match op {
        CmpOp::Greater => v > rhs,
        CmpOp::Less => v < rhs,
        CmpOp::GreaterEq => v >= rhs,
        CmpOp::LessEq => v <= rhs,
        CmpOp::Equal => v == rhs,
        CmpOp::NotEqual => v != rhs,
    }
}

/// Whether some predicate of the set references column `i`.
pub open spec fn references(preds: Seq<Predicate>, i: int) -> bool {
    exists|k: int| 0 <= k < preds.len() && (#[trigger] preds[k]).col == i
}

/// A predicate can be evaluated over a batch exactly when its column is
/// present and every cell of that column is decoded.
pub open spec fn pred_evaluable(p: Predicate, cols: BatchCells) -> bool {
    &&& p.col < cols.len()
    &&& forall|r: int| 0 <= r < cols[p.col as int].len()
        ==> (#[trigger] cols[p.col as int][r]) is Int
}

/// Whether the predicate holds of row `r` of the batch.
pub open spec fn pred_holds(p: Predicate, cols: BatchCells, r: int) -> bool {
    cmp_holds(p.op, cols[p.col as int][r]->Int_0, p.rhs)
}

/// Whether some predicate of the conjunction references column `i`.
pub fn is_referenced(conditions: &Vec<Predicate>, i: usize) -> (r: bool)
    ensures
        r == references(conditions@, i as int),
{
    let mut k: usize = 0;
    while k < conditions.len()
        invariant
            k <= conditions@.len(),
            forall|j: int| 0 <= j < k ==> (#[trigger] conditions@[j]).col != i,
        decreases conditions@.len() - k,
    {
        if conditions[k].col == i {
            return true;
        }
        k = k + 1;
    }
    false
}

impl Predicate {
    /// Applies this predicate's comparison to one decoded value.
    fn eval_one(&self, v: u64) -> (r: bool)
        ensures
            r == cmp_holds(self.op, v, self.rhs),
    {
        match self.op {
            CmpOp::Greater => v > self.rhs,
            CmpOp::Less => v < self.rhs,
            CmpOp::GreaterEq => v >= self.rhs,
            CmpOp::LessEq => v <= self.rhs,
            CmpOp::Equal => v == self.rhs,
            CmpOp::NotEqual => v != self.rhs,
        }
    }

    /// Evaluates this predicate over every row of `data`, writing one
    /// boolean per row into `out`.  On failure, `out` is not relied upon
    /// (it is in fact left unchanged).
    pub fn eval_as_bools(
        &self,
        rows: usize,
        data: &LazyBatchColumnVec,
        out: &mut Vec<bool>,
    ) -> (r: Result<(), Error>)
        requires
            rows == data.spec_rows(),
            data.uniform(),
            old(out)@.len() == rows,
        ensures
            final(out)@.len() == rows,
            r matches Ok(_) <==> pred_evaluable(*self, data@),
            r matches Err(e) ==> e == Error::Evaluation,
            r matches Ok(_) ==> forall|i: int| 0 <= i < rows
                ==> final(out)@[i] == pred_holds(*self, data@, i),
            r matches Err(_) ==> final(out)@ == old(out)@,
    {
        if self.col >= data.num_cols() {
            return Err(Error::Evaluation);
        }
        let col = data.column(self.col);
        match col {
            LazyBatchColumn::Raw(_) => {
                if rows == 0 {
                    proof {
                        assert(data@[self.col as int].len() == data.spec_rows());
                    }
                    Ok(())
                } else {
                    proof {
                        assert(data@[self.col as int].len() == data.spec_rows());
                        assert(!(data@[self.col as int][0] is Int));
                    }
                    Err(Error::Evaluation)
                }
            },
            LazyBatchColumn::Decoded(vals) => {
                proof {
                    assert(data@[self.col as int].len() == data.spec_rows());
                }
                let mut i: usize = 0;
                while i < rows
                    invariant
                        i <= rows,
                        rows == data.spec_rows(),
                        rows == vals@.len(),
                        col@ == data@[self.col as int],
                        col@ == crate::batch::int_cells(vals@),
                        self.col < data@.len(),
                        out@.len() == rows,
                        forall|j: int| 0 <= j < i ==> out@[j] == pred_holds(*self, data@, j),
                    decreases rows - i,
                {
                    let b = self.eval_one(vals[i]);
                    proof {
                        assert(data@[self.col as int][i as int] == CellValue::Int(vals@[i as int]));
                    }
                    out[i] = b;
                    i = i + 1;
                }
                Ok(())
            },
        }
    }
}

} // verus!
