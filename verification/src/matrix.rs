//! Two-dimensional arrays, row by row.

use vstd::prelude::*;

verus! {

/// A two-dimensional array: rows of one length.
pub struct Matrix<T> {
    pub cols: usize,
    pub rows: Vec<Vec<T>>,
}

impl<T> Matrix<T> {
    /// All rows have `cols` entries.
    pub open spec fn wf(&self) -> bool {
        forall|i: int| 0 <= i < self.rows@.len() ==> (#[trigger] self.rows@[i])@.len() == self.cols
    }

    /// The entry in row `i` and column `j`.
    pub open spec fn at(&self, i: int, j: int) -> T {
        self.rows@[i]@[j]
    }

    /// The number of rows.
    pub open spec fn height(&self) -> nat {
        self.rows@.len()
    }
}

} // verus!
