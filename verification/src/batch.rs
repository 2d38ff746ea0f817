//! Columnar row batches.
//!
//! A batch is an ordered list of columns sharing one row count.  Each column
//! is either *raw* (one encoded byte string per row, decode deferred) or
//! *decoded* (one typed value per row).  The only evaluation type of this
//! engine is the unsigned integer; a raw cell decodes as eight big-endian
//! bytes.

use vstd::prelude::*;

use crate::error::Error;

verus! {

/// The mathematical value of one cell: either still-encoded bytes or a
/// decoded integer.  Columns are modelled as sequences of cells.
pub enum CellValue {
    Bytes(Seq<u8>),
    Int(u64),
}

/// The cells of one column.
pub type ColCells = Seq<CellValue>;

/// The cells of a whole batch, one sequence per column.
pub type BatchCells = Seq<ColCells>;

/// The integer encoded by `s` read as big-endian bytes.
pub open spec fn be_val(s: Seq<u8>) -> int
    decreases s.len(),
{
    if s.len() == 0 {
        0
    } else {
        be_val(s.drop_last()) * 256 + s.last()
    }
}

/// `256^n`, the number of byte strings of length `n`.
pub open spec fn pow256(n: nat) -> int
    decreases n,
{
    if n == 0 {
        1
    } else {
        256 * pow256((n - 1) as nat)
    }
}

pub proof fn lemma_pow256_pos(n: nat)
    ensures
        pow256(n) >= 1,
    decreases n,
{
    if n > 0 {
        lemma_pow256_pos((n - 1) as nat);
    }
}

pub proof fn lemma_pow256_mono(a: nat, b: nat)
    requires
        a <= b,
    ensures
        pow256(a) <= pow256(b),
    decreases b,
{
    if a < b {
        lemma_pow256_mono(a, (b - 1) as nat);
        lemma_pow256_pos((b - 1) as nat);
    }
}

pub proof fn lemma_pow256_64bit()
    ensures
        pow256(7) == 0x100_0000_0000_0000,
        pow256(8) == 0x1_0000_0000_0000_0000,
{
    assert(pow256(0) == 1);
    assert(pow256(1) == 256);
    assert(pow256(2) == 0x1_0000);
    assert(pow256(3) == 0x100_0000);
    assert(pow256(4) == 0x1_0000_0000);
    assert(pow256(5) == 0x100_0000_0000);
    assert(pow256(6) == 0x1_0000_0000_0000);
    assert(pow256(7) == 0x100_0000_0000_0000);
    assert(pow256(8) == 0x1_0000_0000_0000_0000);
}

/// A big-endian byte string encodes a value below `256^len`; for eight
/// bytes, one that fits in a `u64`.
pub proof fn lemma_be_val_bound(s: Seq<u8>)
    ensures
        0 <= be_val(s) < pow256(s.len()),
    decreases s.len(),
{
    if s.len() > 0 {
        lemma_be_val_bound(s.drop_last());
    }
}

/// A cell is decodable when it is eight raw bytes, or already decoded.
pub open spec fn cell_decodable(c: CellValue) -> bool {
    match c {
        CellValue::Bytes(b) => b.len() == 8,
        CellValue::Int(_) => true,
    }
}

/// The decoded form of a single decodable cell.
pub open spec fn cell_decoded(c: CellValue) -> CellValue {
    match c {
        CellValue::Bytes(b) => CellValue::Int(be_val(b) as u64),
        CellValue::Int(v) => CellValue::Int(v),
    }
}

/// Whether every cell of a column can be decoded.
pub open spec fn col_decodable(col: ColCells) -> bool {
    forall|r: int| 0 <= r < col.len() ==> cell_decodable(#[trigger] col[r])
}

/// What decoding leaves of a column: the decoded cells when the whole
/// column is decodable, the column unchanged otherwise.
pub open spec fn decode_col(col: ColCells) -> ColCells {
    if col_decodable(col) {
        col.map(|r: int, c: CellValue| cell_decoded(c))
    } else {
        col
    }
}

/// Decoding preserves a column's row count.
pub proof fn lemma_decode_col_len(col: ColCells)
    ensures
        decode_col(col).len() == col.len(),
{
}

/// Decoding an already decoded column changes nothing.
pub proof fn lemma_decode_col_idempotent(col: ColCells)
    ensures
        decode_col(decode_col(col)) == decode_col(col),
{
    if col_decodable(col) {
        let d = decode_col(col);
        assert forall|r: int| 0 <= r < d.len() implies cell_decodable(#[trigger] d[r])
            && cell_decoded(d[r]) == d[r] by {
            assert(d[r] == cell_decoded(col[r]));
        }
        assert(col_decodable(d));
        assert(decode_col(d) =~= d);
    }
}

/// The rows of `s` that a retain bitmap keeps: cell `r` survives exactly
/// when `keep[r]` is true.
pub open spec fn mask(s: ColCells, keep: Seq<bool>) -> ColCells
    decreases s.len(),
{
    if s.len() == 0 {
        Seq::empty()
    } else {
        let m = mask(s.drop_last(), keep);
        if s.len() - 1 < keep.len() && keep[s.len() - 1] {
            m.push(s.last())
        } else {
            m
        }
    }
}

/// Masking two equally long columns with one bitmap keeps equally many cells.
pub proof fn lemma_mask_len_eq(a: ColCells, b: ColCells, keep: Seq<bool>)
    requires
        a.len() == b.len(),
    ensures
        mask(a, keep).len() == mask(b, keep).len(),
    decreases a.len(),
{
    if a.len() > 0 {
        lemma_mask_len_eq(a.drop_last(), b.drop_last(), keep);
    }
}

/// A mask keeps at most every cell.
pub proof fn lemma_mask_len_le(a: ColCells, keep: Seq<bool>)
    ensures
        mask(a, keep).len() <= a.len(),
    decreases a.len(),
{
    if a.len() > 0 {
        lemma_mask_len_le(a.drop_last(), keep);
    }
}

/// The batch with `n` columns and no rows.
pub open spec fn empty_batch(n: nat) -> BatchCells {
    Seq::new(n, |i: int| Seq::<CellValue>::empty())
}

/// Column-wise concatenation of two batches of equal width.
pub open spec fn colcat(a: BatchCells, b: BatchCells) -> BatchCells {
    Seq::new(a.len(), |i: int| a[i] + b[i])
}

pub proof fn lemma_colcat_empty_left(a: BatchCells)
    ensures
        colcat(empty_batch(a.len()), a) == a,
{
    assert(colcat(empty_batch(a.len()), a) =~= a);
}

pub proof fn lemma_colcat_empty_right(a: BatchCells)
    ensures
        colcat(a, empty_batch(a.len())) == a,
{
    assert(colcat(a, empty_batch(a.len())) =~= a);
}

pub proof fn lemma_colcat_assoc(a: BatchCells, b: BatchCells, c: BatchCells)
    requires
        a.len() == b.len(),
        b.len() == c.len(),
    ensures
        colcat(colcat(a, b), c) == colcat(a, colcat(b, c)),
{
    assert(colcat(colcat(a, b), c) =~~= colcat(a, colcat(b, c)));
}

/// Column-wise concatenation of a whole sequence of batches of width `n`,
/// oldest first.
pub open spec fn colcat_all(chunks: Seq<BatchCells>, n: nat) -> BatchCells
    decreases chunks.len(),
{
    if chunks.len() == 0 {
        empty_batch(n)
    } else {
        colcat(colcat_all(chunks.drop_last(), n), chunks.last())
    }
}

pub proof fn lemma_colcat_all_len(chunks: Seq<BatchCells>, n: nat)
    ensures
        colcat_all(chunks, n).len() == n,
    decreases chunks.len(),
{
    if chunks.len() > 0 {
        lemma_colcat_all_len(chunks.drop_last(), n);
    }
}

pub proof fn lemma_colcat_all_push(chunks: Seq<BatchCells>, c: BatchCells, n: nat)
    ensures
        colcat_all(chunks.push(c), n) == colcat(colcat_all(chunks, n), c),
{
    assert(chunks.push(c).drop_last() =~= chunks);
}

/// Splitting the first `k` rows off a batch and putting them back changes
/// nothing.
pub proof fn lemma_take_drop(cols: BatchCells, k: int)
    requires
        forall|i: int| 0 <= i < cols.len() ==> 0 <= k <= (#[trigger] cols[i]).len(),
    ensures
        colcat(take_rows(cols, k), drop_rows(cols, k)) == cols,
{
    assert(colcat(take_rows(cols, k), drop_rows(cols, k)) =~~= cols);
}

/// Whether the cells of a batch agree with a layout: decoded columns hold
/// typed values, raw columns hold byte strings.
pub open spec fn cells_fit_layout(cols: BatchCells, lay: Seq<bool>) -> bool {
    &&& cols.len() == lay.len()
    &&& forall|i: int, r: int|
        0 <= i < cols.len() && 0 <= r < cols[i].len()
            ==> ((#[trigger] cols[i][r]) is Int <==> lay[i])
}

/// Copies a byte string.
fn clone_bytes(v: &Vec<u8>) -> (r: Vec<u8>)
    ensures
        r@ == v@,
{
    let mut r: Vec<u8> = Vec::new();
    let mut i: usize = 0;
    while i < v.len()
        invariant
            i <= v.len(),
            r@ == v@.subrange(0, i as int),
        decreases v.len() - i,
    {
        r.push(v[i]);
        i = i + 1;
        assert(r@ =~= v@.subrange(0, i as int));
    }
    assert(r@ =~= v@);
    r
}

/// Decodes one raw cell: exactly eight bytes, big-endian.
fn decode_cell(bytes: &Vec<u8>) -> (r: Result<u64, Error>)
    ensures
        bytes@.len() == 8 ==> (r matches Ok(v) && v == be_val(bytes@)),
        bytes@.len() != 8 ==> r == Result::<u64, Error>::Err(Error::Decode),
{
    if bytes.len() != 8 {
        return Err(Error::Decode);
    }
    let mut acc: u64 = 0;
    let mut i: usize = 0;
    while i < 8
        invariant
            i <= 8,
            bytes@.len() == 8,
            acc == be_val(bytes@.subrange(0, i as int)),
            acc < pow256(i as nat),
        decreases 8 - i,
    {
        proof {
            lemma_pow256_mono(i as nat, 7);
            lemma_pow256_64bit();
        }
        let b = bytes[i];
        let next: u64 = acc * 256 + (b as u64);
        proof {
            let s = bytes@;
            assert(s.subrange(0, i + 1).drop_last() =~= s.subrange(0, i as int));
            assert(s.subrange(0, i + 1).last() == s[i as int]);
            assert(be_val(s.subrange(0, i + 1)) == be_val(s.subrange(0, i as int)) * 256 + s[i as int]);
        }
        acc = next;
        i = i + 1;
    }
    proof {
        assert(bytes@.subrange(0, 8) =~= bytes@);
    }
    Ok(acc)
}

/// The cells of a raw column holding the given byte strings.
pub open spec fn raw_cells(cells: Seq<Vec<u8>>) -> ColCells {
    cells.map(|r: int, c: Vec<u8>| CellValue::Bytes(c@))
}

/// The cells of a decoded column holding the given values.
pub open spec fn int_cells(vals: Seq<u64>) -> ColCells {
    vals.map(|r: int, v: u64| CellValue::Int(v))
}

/// One column of a batch: raw encoded bytes per row, or decoded values.
pub enum LazyBatchColumn {
    Raw(Vec<Vec<u8>>),
    Decoded(Vec<u64>),
}

impl View for LazyBatchColumn {
    type V = ColCells;

    open spec fn view(&self) -> ColCells {
        match self {
            LazyBatchColumn::Raw(cells) => raw_cells(cells@),
            LazyBatchColumn::Decoded(vals) => int_cells(vals@),
        }
    }
}

impl LazyBatchColumn {
    /// Whether the column holds decoded values.
    pub open spec fn spec_is_decoded(&self) -> bool {
        self is Decoded
    }

    pub fn is_decoded(&self) -> (r: bool)
        ensures
            r == self.spec_is_decoded(),
    {
        match self {
            LazyBatchColumn::Decoded(_) => true,
            LazyBatchColumn::Raw(_) => false,
        }
    }

    pub fn len(&self) -> (n: usize)
        ensures
            n == self@.len(),
    {
        match self {
            LazyBatchColumn::Raw(cells) => cells.len(),
            LazyBatchColumn::Decoded(vals) => vals.len(),
        }
    }

    /// An empty raw column with room for `cap` rows.
    pub fn raw_with_capacity(cap: usize) -> (c: Self)
        ensures
            c@ =~= Seq::<CellValue>::empty(),
            !c.spec_is_decoded(),
    {
        LazyBatchColumn::Raw(Vec::with_capacity(cap))
    }

    /// An empty decoded column with room for `cap` rows.
    pub fn decoded_with_capacity(cap: usize) -> (c: Self)
        ensures
            c@ =~= Seq::<CellValue>::empty(),
            c.spec_is_decoded(),
    {
        LazyBatchColumn::Decoded(Vec::with_capacity(cap))
    }

    /// A decoded column holding the given values.
    pub fn from_ints(vals: Vec<u64>) -> (c: Self)
        ensures
            c@ == int_cells(vals@),
            c.spec_is_decoded(),
    {
        LazyBatchColumn::Decoded(vals)
    }

    /// A raw column holding the given encoded cells.
    pub fn from_raw(cells: Vec<Vec<u8>>) -> (c: Self)
        ensures
            c@ == raw_cells(cells@),
            !c.spec_is_decoded(),
    {
        LazyBatchColumn::Raw(cells)
    }

    /// The decoded value of row `r`, if the column is decoded and holds
    /// that row.
    pub fn value_int(&self, r: usize) -> (x: Option<u64>)
        ensures
            x matches Some(v) ==> r < self@.len() && self@[r as int] == CellValue::Int(v),
            x is None ==> !(self.spec_is_decoded() && r < self@.len()),
    {
        match self {
            LazyBatchColumn::Decoded(vals) => {
                if r < vals.len() {
                    Some(vals[r])
                } else {
                    None
                }
            },
            LazyBatchColumn::Raw(_) => None,
        }
    }

    /// The raw bytes of row `r`, if the column is raw and holds that row.
    pub fn value_bytes(&self, r: usize) -> (x: Option<&Vec<u8>>)
        ensures
            x matches Some(b) ==> r < self@.len() && self@[r as int] == CellValue::Bytes(b@),
            x is None ==> !(!self.spec_is_decoded() && r < self@.len()),
    {
        match self {
            LazyBatchColumn::Raw(cells) => {
                if r < cells.len() {
                    Some(&cells[r])
                } else {
                    None
                }
            },
            LazyBatchColumn::Decoded(_) => None,
        }
    }

    /// Decodes the column in place.  A no-op on an already decoded column;
    /// on a raw column, all cells are decoded or, if any cell is malformed,
    /// the column is left untouched and a decode error is returned.
    pub fn ensure_decoded(&mut self) -> (r: Result<(), Error>)
        ensures
            r matches Ok(_) <==> col_decodable(old(self)@),
            r matches Err(e) ==> e == Error::Decode,
            final(self)@ == decode_col(old(self)@),
            final(self).spec_is_decoded() == (old(self).spec_is_decoded()
                || col_decodable(old(self)@)),
    {
        if self.is_decoded() {
            proof {
                assert(col_decodable(self@));
                assert(decode_col(self@) =~= self@);
            }
            return Ok(());
        }
        let vals = match &*self {
            LazyBatchColumn::Raw(cells) => decode_raw_cells(cells),
            LazyBatchColumn::Decoded(_) => vstd::pervasive::unreached(),
        };
        match vals {
            Ok(vals) => {
                proof {
                    assert(decode_col(old(self)@) =~= int_cells(vals@));
                }
                *self = LazyBatchColumn::Decoded(vals);
                Ok(())
            },
            Err(e) => {
                proof {
                    assert(decode_col(old(self)@) =~= old(self)@);
                }
                Err(e)
            },
        }
    }
}

pub proof fn lemma_int_cells_push(v: Seq<u64>, x: u64)
    ensures
        int_cells(v.push(x)) == int_cells(v).push(CellValue::Int(x)),
{
    assert(int_cells(v.push(x)) =~= int_cells(v).push(CellValue::Int(x)));
}

pub proof fn lemma_raw_cells_push(v: Seq<Vec<u8>>, x: Vec<u8>)
    ensures
        raw_cells(v.push(x)) == raw_cells(v).push(CellValue::Bytes(x@)),
{
    assert(raw_cells(v.push(x)) =~= raw_cells(v).push(CellValue::Bytes(x@)));
}

pub proof fn lemma_add_push(a: ColCells, b: ColCells, x: CellValue)
    ensures
        (a + b).push(x) == a + b.push(x),
{
    assert((a + b).push(x) =~= a + b.push(x));
}

/// Appends the retained values of `s` onto `d`.
fn append_selected_ints(d: &mut Vec<u64>, s: &Vec<u64>, retain: &Vec<bool>)
    requires
        retain@.len() == s@.len(),
    ensures
        int_cells(final(d)@) == int_cells(old(d)@) + mask(int_cells(s@), retain@),
{
    let ghost base = int_cells(old(d)@);
    proof {
        assert(int_cells(s@).subrange(0, 0) =~= Seq::<CellValue>::empty());
        assert(base + mask(int_cells(s@).subrange(0, 0), retain@) =~= base);
    }
    let mut r: usize = 0;
    while r < s.len()
        invariant
            r <= s@.len(),
            retain@.len() == s@.len(),
            int_cells(d@) == base + mask(int_cells(s@).subrange(0, r as int), retain@),
        decreases s@.len() - r,
    {
        let ghost pre = int_cells(s@).subrange(0, r as int);
        let ghost post = int_cells(s@).subrange(0, r + 1);
        let ghost dpre = d@;
        proof {
            assert(post.drop_last() =~= pre);
            assert(post.last() == int_cells(s@)[r as int]);
        }
        if retain[r] {
            d.push(s[r]);
            proof {
                assert(mask(post, retain@) == mask(pre, retain@).push(int_cells(s@)[r as int]));
                lemma_int_cells_push(dpre, s@[r as int]);
                lemma_add_push(base, mask(pre, retain@), int_cells(s@)[r as int]);
                assert(int_cells(d@) == base + mask(post, retain@));
            }
        } else {
            proof {
                assert(mask(post, retain@) == mask(pre, retain@));
            }
        }
        r = r + 1;
    }
    proof {
        assert(int_cells(s@).subrange(0, s@.len() as int) =~= int_cells(s@));
    }
}

/// Appends copies of the retained byte strings of `s` onto `d`.
fn append_selected_bytes(d: &mut Vec<Vec<u8>>, s: &Vec<Vec<u8>>, retain: &Vec<bool>)
    requires
        retain@.len() == s@.len(),
    ensures
        raw_cells(final(d)@) == raw_cells(old(d)@) + mask(raw_cells(s@), retain@),
{
    let ghost base = raw_cells(old(d)@);
    proof {
        assert(raw_cells(s@).subrange(0, 0) =~= Seq::<CellValue>::empty());
        assert(base + mask(raw_cells(s@).subrange(0, 0), retain@) =~= base);
    }
    let mut r: usize = 0;
    while r < s.len()
        invariant
            r <= s@.len(),
            retain@.len() == s@.len(),
            raw_cells(d@) == base + mask(raw_cells(s@).subrange(0, r as int), retain@),
        decreases s@.len() - r,
    {
        let ghost pre = raw_cells(s@).subrange(0, r as int);
        let ghost post = raw_cells(s@).subrange(0, r + 1);
        let ghost dpre = d@;
        proof {
            assert(post.drop_last() =~= pre);
            assert(post.last() == raw_cells(s@)[r as int]);
        }
        if retain[r] {
            let copy = clone_bytes(&s[r]);
            let ghost cv = copy;
            d.push(copy);
            proof {
                assert(raw_cells(s@)[r as int] == CellValue::Bytes(cv@));
                assert(mask(post, retain@) == mask(pre, retain@).push(raw_cells(s@)[r as int]));
                lemma_raw_cells_push(dpre, cv);
                lemma_add_push(base, mask(pre, retain@), raw_cells(s@)[r as int]);
                assert(raw_cells(d@) == base + mask(post, retain@));
            }
        } else {
            proof {
                assert(mask(post, retain@) == mask(pre, retain@));
            }
        }
        r = r + 1;
    }
    proof {
        assert(raw_cells(s@).subrange(0, s@.len() as int) =~= raw_cells(s@));
    }
}

/// Splits the first `k` values off into a new vector, keeping the rest.
fn split_ints(s: &Vec<u64>, k: usize) -> (r: (Vec<u64>, Vec<u64>))
    requires
        k <= s@.len(),
    ensures
        r.0@ == s@.subrange(0, k as int),
        r.1@ == s@.subrange(k as int, s@.len() as int),
{
    let mut head: Vec<u64> = Vec::with_capacity(k);
    let mut i: usize = 0;
    while i < k
        invariant
            i <= k <= s@.len(),
            head@ =~= s@.subrange(0, i as int),
        decreases k - i,
    {
        head.push(s[i]);
        i = i + 1;
        assert(head@ =~= s@.subrange(0, i as int));
    }
    let mut tail: Vec<u64> = Vec::new();
    let mut j: usize = k;
    while j < s.len()
        invariant
            k <= j <= s@.len(),
            tail@ =~= s@.subrange(k as int, j as int),
        decreases s@.len() - j,
    {
        tail.push(s[j]);
        j = j + 1;
        assert(tail@ =~= s@.subrange(k as int, j as int));
    }
    (head, tail)
}

/// Splits the first `k` byte strings off into a new vector, keeping the rest.
fn split_bytes(s: &Vec<Vec<u8>>, k: usize) -> (r: (Vec<Vec<u8>>, Vec<Vec<u8>>))
    requires
        k <= s@.len(),
    ensures
        raw_cells(r.0@) == raw_cells(s@).subrange(0, k as int),
        raw_cells(r.1@) == raw_cells(s@).subrange(k as int, s@.len() as int),
{
    let ghost rs = raw_cells(s@);
    let mut head: Vec<Vec<u8>> = Vec::with_capacity(k);
    proof {
        assert(raw_cells(head@) =~= rs.subrange(0, 0));
    }
    let mut i: usize = 0;
    while i < k
        invariant
            i <= k <= s@.len(),
            rs == raw_cells(s@),
            raw_cells(head@) == rs.subrange(0, i as int),
        decreases k - i,
    {
        let ghost hpre = head@;
        let copy = clone_bytes(&s[i]);
        let ghost cv = copy;
        head.push(copy);
        proof {
            lemma_raw_cells_push(hpre, cv);
            assert(rs[i as int] == CellValue::Bytes(cv@));
            assert(rs.subrange(0, i + 1) =~= rs.subrange(0, i as int).push(rs[i as int]));
        }
        i = i + 1;
    }
    let mut tail: Vec<Vec<u8>> = Vec::new();
    proof {
        assert(raw_cells(tail@) =~= rs.subrange(k as int, k as int));
    }
    let mut j: usize = k;
    while j < s.len()
        invariant
            k <= j <= s@.len(),
            rs == raw_cells(s@),
            raw_cells(tail@) == rs.subrange(k as int, j as int),
        decreases s@.len() - j,
    {
        let ghost tpre = tail@;
        let copy = clone_bytes(&s[j]);
        let ghost cv = copy;
        tail.push(copy);
        proof {
            lemma_raw_cells_push(tpre, cv);
            assert(rs[j as int] == CellValue::Bytes(cv@));
            assert(rs.subrange(k as int, j + 1) =~= rs.subrange(k as int, j as int).push(
                rs[j as int],
            ));
        }
        j = j + 1;
    }
    (head, tail)
}

/// Decodes every cell of a raw column, or reports the first malformed one.
fn decode_raw_cells(cells: &Vec<Vec<u8>>) -> (r: Result<Vec<u64>, Error>)
    ensures
        r matches Ok(_) <==> col_decodable(raw_cells(cells@)),
        r matches Err(e) ==> e == Error::Decode,
        r matches Ok(vals) ==> int_cells(vals@) =~= raw_cells(cells@).map(
            |q: int, c: CellValue| cell_decoded(c),
        ),
{
    let ghost orig = raw_cells(cells@);
    let mut vals: Vec<u64> = Vec::with_capacity(cells.len());
    let mut i: usize = 0;
    while i < cells.len()
        invariant
            i <= cells@.len(),
            orig == raw_cells(cells@),
            vals@.len() == i,
            forall|r: int| 0 <= r < i ==> cell_decodable(#[trigger] orig[r]),
            forall|r: int| 0 <= r < i ==> #[trigger] vals@[r] == be_val(cells@[r]@),
        decreases cells@.len() - i,
    {
        match decode_cell(&cells[i]) {
            Ok(v) => {
                vals.push(v);
            },
            Err(e) => {
                proof {
                    assert(orig[i as int] == CellValue::Bytes(cells@[i as int]@));
                    assert(!cell_decodable(orig[i as int]));
                    assert(!col_decodable(orig));
                }
                return Err(e);
            },
        }
        i = i + 1;
    }
    proof {
        assert(col_decodable(orig));
        assert forall|r: int| 0 <= r < cells@.len() implies 0 <= be_val(#[trigger] cells@[r]@)
            < 0x1_0000_0000_0000_0000 by {
            assert(orig[r] == CellValue::Bytes(cells@[r]@));
            assert(cell_decodable(orig[r]));
            lemma_be_val_bound(cells@[r]@);
            lemma_pow256_64bit();
        }
        assert(int_cells(vals@) =~= orig.map(|q: int, c: CellValue| cell_decoded(c)));
    }
    Ok(vals)
}

/// The cells of each column of a sequence of columns.
pub open spec fn cols_view(cols: Seq<LazyBatchColumn>) -> BatchCells {
    cols.map(|i: int, c: LazyBatchColumn| c@)
}

/// Which columns of a sequence are decoded.
pub open spec fn cols_layout(cols: Seq<LazyBatchColumn>) -> Seq<bool> {
    cols.map(|i: int, c: LazyBatchColumn| c.spec_is_decoded())
}

/// The row count shared by the columns of a batch.
pub open spec fn batch_rows(cols: BatchCells) -> nat {
    if cols.len() == 0 {
        0
    } else {
        cols[0].len()
    }
}

/// The first `k` rows of every column.
pub open spec fn take_rows(cols: BatchCells, k: int) -> BatchCells {
    cols.map(|i: int, c: ColCells| c.subrange(0, k))
}

/// Every row of every column but the first `k`.
pub open spec fn drop_rows(cols: BatchCells, k: int) -> BatchCells {
    cols.map(|i: int, c: ColCells| c.subrange(k, c.len() as int))
}

/// A batch: an ordered list of lazy columns sharing one row count.
pub struct LazyBatchColumnVec {
    columns: Vec<LazyBatchColumn>,
}

impl View for LazyBatchColumnVec {
    type V = BatchCells;

    closed spec fn view(&self) -> BatchCells {
        cols_view(self.columns@)
    }
}

impl LazyBatchColumnVec {
    /// The row count, read from the first column.
    pub open spec fn spec_rows(&self) -> nat {
        batch_rows(self@)
    }

    /// All columns hold the same number of rows.
    pub open spec fn uniform(&self) -> bool {
        forall|i: int| 0 <= i < self@.len() ==> (#[trigger] self@[i]).len() == self.spec_rows()
    }

    /// Which columns are decoded.
    pub closed spec fn layout(&self) -> Seq<bool> {
        cols_layout(self.columns@)
    }

    /// A batch made of the given columns.
    pub fn from_columns(columns: Vec<LazyBatchColumn>) -> (b: Self)
        ensures
            b@ == cols_view(columns@),
            b.layout() == cols_layout(columns@),
    {
        LazyBatchColumnVec { columns }
    }

    pub fn num_cols(&self) -> (n: usize)
        ensures
            n == self@.len(),
    {
        self.columns.len()
    }

    pub fn rows_len(&self) -> (n: usize)
        ensures
            n == self.spec_rows(),
    {
        if self.columns.len() == 0 {
            0
        } else {
            self.columns[0].len()
        }
    }

    /// Read access to one column.
    pub fn column(&self, i: usize) -> (c: &LazyBatchColumn)
        requires
            i < self@.len(),
        ensures
            c@ == self@[i as int],
            c.spec_is_decoded() == self.layout()[i as int],
    {
        &self.columns[i]
    }

    /// Decodes column `idx` in place, leaving every other column untouched.
    pub fn ensure_column_decoded(&mut self, idx: usize) -> (r: Result<(), Error>)
        requires
            idx < old(self)@.len(),
        ensures
            r matches Ok(_) <==> col_decodable(old(self)@[idx as int]),
            r matches Err(e) ==> e == Error::Decode,
            final(self)@ == old(self)@.update(idx as int, decode_col(old(self)@[idx as int])),
            final(self).layout() == old(self).layout().update(
                idx as int,
                old(self).layout()[idx as int] || col_decodable(old(self)@[idx as int]),
            ),
            final(self)@.len() == old(self)@.len(),
            final(self).spec_rows() == old(self).spec_rows(),
    {
        let col = &mut self.columns[idx];
        let r = col.ensure_decoded();
        proof {
            assert(self@ =~= old(self)@.update(idx as int, decode_col(old(self)@[idx as int])));
            assert(self.layout() =~= old(self).layout().update(
                idx as int,
                old(self).layout()[idx as int] || col_decodable(old(self)@[idx as int]),
            ));
        }
        r
    }

    /// Appends the rows of `other` kept by `retain` onto this batch,
    /// column by column, consuming `other`.
    #[verifier::loop_isolation(false)]
    pub fn append_selected(&mut self, other: LazyBatchColumnVec, retain: &Vec<bool>)
        requires
            old(self)@.len() == other@.len(),
            retain@.len() == other.spec_rows(),
            other.uniform(),
            forall|i: int| 0 <= i < old(self)@.len()
                ==> old(self).layout()[i] == other.layout()[i],
        ensures
            final(self)@.len() == old(self)@.len(),
            forall|i: int| 0 <= i < old(self)@.len() ==> final(self)@[i] == old(self)@[i] + mask(
                other@[i],
                retain@,
            ),
            final(self).layout() == old(self).layout(),
    {
        let n = self.columns.len();
        let mut i: usize = 0;
        while i < n
            invariant
                i <= n,
                self.columns@.len() == n,
                forall|j: int| i <= j < n ==> self.columns@[j] == old(self).columns@[j],
                forall|j: int| 0 <= j < i ==> (#[trigger] self.columns@[j])@ == old(self)@[j]
                    + mask(other@[j], retain@),
                forall|j: int| 0 <= j < i ==> (#[trigger] self.columns@[j]).spec_is_decoded()
                    == old(self).columns@[j].spec_is_decoded(),
            decreases n - i,
        {
            proof {
                assert(old(self)@[i as int] == old(self).columns@[i as int]@);
                assert(old(self).layout()[i as int]
                    == old(self).columns@[i as int].spec_is_decoded());
                assert(other@[i as int] == other.columns@[i as int]@);
                assert(other.layout()[i as int] == other.columns@[i as int].spec_is_decoded());
                assert(other@[i as int].len() == other.spec_rows());
            }
            let dst = &mut self.columns[i];
            match dst {
                LazyBatchColumn::Decoded(dvals) => {
                    match &other.columns[i] {
                        LazyBatchColumn::Decoded(svals) => {
                            append_selected_ints(dvals, svals, retain);
                        },
                        LazyBatchColumn::Raw(_) => {
                            vstd::pervasive::unreached::<()>();
                        },
                    }
                },
                LazyBatchColumn::Raw(dcells) => {
                    match &other.columns[i] {
                        LazyBatchColumn::Raw(scells) => {
                            append_selected_bytes(dcells, scells, retain);
                        },
                        LazyBatchColumn::Decoded(_) => {
                            vstd::pervasive::unreached::<()>();
                        },
                    }
                },
            }
            proof {
                assert(self.columns@[i as int]@ == old(self)@[i as int] + mask(
                    other@[i as int],
                    retain@,
                ));
                assert(self.columns@[i as int].spec_is_decoded()
                    == old(self).columns@[i as int].spec_is_decoded());
            }
            i = i + 1;
        }
        proof {
            assert(self.layout() =~= old(self).layout());
        }
    }

    /// A batch's cells always agree with its layout: a decoded column holds
    /// typed values, a raw column holds byte strings.
    pub proof fn lemma_cells_fit_layout(&self)
        ensures
            cells_fit_layout(self@, self.layout()),
    {
        assert forall|i: int, r: int|
            0 <= i < self@.len() && 0 <= r < self@[i].len() implies ((#[trigger] self@[i][r])
            is Int <==> self.layout()[i]) by {
            assert(self@[i] == self.columns@[i]@);
            assert(self.layout()[i] == self.columns@[i].spec_is_decoded());
            match self.columns@[i] {
                LazyBatchColumn::Raw(cells) => {
                    assert(self@[i][r] == CellValue::Bytes(cells@[r]@));
                },
                LazyBatchColumn::Decoded(vals) => {
                    assert(self@[i][r] == CellValue::Int(vals@[r]));
                },
            }
        }
    }

    /// Removes and returns the first `expect` rows (or as many as there
    /// are), transferring their ownership to the caller.
    #[verifier::loop_isolation(false)]
    pub fn take_and_collect(&mut self, expect: usize) -> (taken: LazyBatchColumnVec)
        requires
            old(self).uniform(),
        ensures
            taken@ == take_rows(old(self)@, take_count(old(self).spec_rows(), expect as nat)),
            final(self)@ == drop_rows(old(self)@, take_count(old(self).spec_rows(), expect as nat)),
            taken@.len() == old(self)@.len(),
            final(self)@.len() == old(self)@.len(),
            taken.layout() == old(self).layout(),
            final(self).layout() == old(self).layout(),
            taken.uniform(),
            final(self).uniform(),
            taken.spec_rows() == take_count(old(self).spec_rows(), expect as nat),
            final(self).spec_rows() == old(self).spec_rows() - take_count(
                old(self).spec_rows(),
                expect as nat,
            ),
    {
        let rows = self.rows_len();
        let k: usize = if expect < rows {
            expect
        } else {
            rows
        };
        let ghost kk = take_count(old(self).spec_rows(), expect as nat);
        proof {
            assert(k == kk);
        }
        let n = self.columns.len();
        let mut taken_cols: Vec<LazyBatchColumn> = Vec::with_capacity(n);
        let mut rest_cols: Vec<LazyBatchColumn> = Vec::with_capacity(n);
        let mut i: usize = 0;
        while i < n
            invariant
                i <= n,
                taken_cols@.len() == i,
                rest_cols@.len() == i,
                forall|j: int| 0 <= j < i ==> (#[trigger] taken_cols@[j])@ == self@[j].subrange(
                    0,
                    k as int,
                ),
                forall|j: int| 0 <= j < i ==> (#[trigger] rest_cols@[j])@ == self@[j].subrange(
                    k as int,
                    self@[j].len() as int,
                ),
                forall|j: int| 0 <= j < i ==> (#[trigger] taken_cols@[j]).spec_is_decoded()
                    == self.layout()[j],
                forall|j: int| 0 <= j < i ==> (#[trigger] rest_cols@[j]).spec_is_decoded()
                    == self.layout()[j],
            decreases n - i,
        {
            proof {
                assert(self@[i as int] == self.columns@[i as int]@);
                assert(self@[i as int].len() == self.spec_rows());
                assert(self.layout()[i as int] == self.columns@[i as int].spec_is_decoded());
            }
            match &self.columns[i] {
                LazyBatchColumn::Decoded(vals) => {
                    let (h, t) = split_ints(vals, k);
                    proof {
                        assert(int_cells(h@) =~= int_cells(vals@).subrange(0, k as int));
                        assert(int_cells(t@) =~= int_cells(vals@).subrange(
                            k as int,
                            int_cells(vals@).len() as int,
                        ));
                    }
                    taken_cols.push(LazyBatchColumn::Decoded(h));
                    rest_cols.push(LazyBatchColumn::Decoded(t));
                },
                LazyBatchColumn::Raw(cells) => {
                    let (h, t) = split_bytes(cells, k);
                    taken_cols.push(LazyBatchColumn::Raw(h));
                    rest_cols.push(LazyBatchColumn::Raw(t));
                },
            }
            i = i + 1;
        }
        self.columns = rest_cols;
        let taken = LazyBatchColumnVec { columns: taken_cols };
        proof {
            assert(taken@ =~= take_rows(old(self)@, kk));
            assert(self@ =~= drop_rows(old(self)@, kk));
            assert(taken.layout() =~= old(self).layout());
            assert(self.layout() =~= old(self).layout());
            if old(self)@.len() > 0 {
                assert(taken@[0] == old(self)@[0].subrange(0, kk));
                assert(self@[0] == old(self)@[0].subrange(kk, old(self)@[0].len() as int));
            }
        }
        taken
    }
}

/// How many rows a request for `expect` rows takes from a buffer of
/// `rows` rows: all it asks for, capped by what is there.
pub open spec fn take_count(rows: nat, expect: nat) -> int {
    if expect < rows {
        expect as int
    } else {
        rows as int
    }
}

} // verus!
