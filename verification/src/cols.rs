//! Access to the column structure of a sparse matrix.

use vstd::prelude::*;

verus! {

/// A half-open index range `[begin, end)` into a shared storage array,
/// marking where one column's row indices live.
#[derive(Clone, Debug)]
pub struct Slice {
    pub begin: usize,
    pub end: usize,
}

impl Slice {
    /// The elements of this range within `storage`.
    pub fn elems<'a>(&self, storage: &'a [usize]) -> (r: &'a [usize])
        requires
            self.begin <= self.end <= storage@.len(),
        ensures
            r@ == storage@.subrange(self.begin as int, self.end as int),
    {
        vstd::slice::slice_subrange(storage, self.begin, self.end)
    }
}

/// Read access to the column structure of a sparse matrix: for each column,
/// the ordered row indices of its nonzero entries. The ordering core never
/// mutates or retains the structure; it only reads column lengths.
pub trait ColAccessor {
    /// The structure is internally consistent, so that `col` may be called.
    spec fn wf(&self) -> bool;

    /// Number of columns the accessor can answer for.
    spec fn num_cols(&self) -> nat;

    /// The row indices of the nonzero entries of column `c`.
    spec fn col_rows(&self, c: int) -> Seq<usize>;

    /// Returns the row indices of the nonzero entries of column `c`.
    fn col(&self, c: usize) -> (r: &[usize])
        requires
            self.wf(),
            (c as nat) < self.num_cols(),
        ensures
            r@ == self.col_rows(c as int),
    ;
}

/// A compressed column structure: all row indices concatenated in
/// `row_storage`, with `cols[c]` marking column `c`'s range.
#[derive(Clone, Debug)]
pub struct ColStorage {
    pub row_storage: Vec<usize>,
    pub cols: Vec<Slice>,
}

impl ColAccessor for ColStorage {
    open spec fn wf(&self) -> bool {
        forall|c: int|
            0 <= c < self.cols@.len() ==> (#[trigger] self.cols@[c]).begin <= self.cols@[c].end
                <= self.row_storage@.len()
    }

    open spec fn num_cols(&self) -> nat {
        self.cols@.len()
    }

    open spec fn col_rows(&self, c: int) -> Seq<usize> {
        self.row_storage@.subrange(self.cols@[c].begin as int, self.cols@[c].end as int)
    }

    fn col(&self, c: usize) -> (r: &[usize]) {
        let s = &self.cols[c];
        let begin = s.begin;
        let end = s.end;
        vstd::slice::slice_subrange(self.row_storage.as_slice(), begin, end)
    }
}

/// Lower block triangular form of a matrix. This crate only fixes the data
/// shape for downstream consumers; nothing here populates it.
#[derive(Clone, Debug)]
pub struct BlockDiagForm {
    /// Row permutation: for each original row its new row number so that the
    /// diagonal is nonzero.
    pub row2col: Vec<usize>,
    /// For each block its set of columns (the order of blocks is lower block
    /// triangular).
    pub block_cols: Vec<Vec<usize>>,
}

} // verus!
