//! The mathematical model: matrices over the integers and the operations on
//! them that the contracts of the executable code are stated in.

use crate::wrap::wrap32;
use vstd::prelude::*;

verus! {

/// A matrix over the unbounded integers, with its shape. The shape is kept
/// beside the rows so that a matrix without rows still has a column count.
#[verifier::ext_equal]
pub struct IntMatrix {
    pub rows: nat,
    pub cols: nat,
    pub cells: Seq<Seq<int>>,
}

impl IntMatrix {
    /// The rows agree with the shape.
    pub open spec fn wf(self) -> bool {
        &&& self.cells.len() == self.rows
        &&& forall|i: int| 0 <= i < self.rows ==> (#[trigger] self.cells[i]).len() == self.cols
    }

    /// The entry in row `i`, column `j`.
    pub open spec fn at(self, i: int, j: int) -> int {
        self.cells[i][j]
    }

    /// The matrix of the given shape whose entry at `(i, j)` is `f(i, j)`.
    pub open spec fn new(rows: nat, cols: nat, f: spec_fn(int, int) -> int) -> IntMatrix {
        IntMatrix { rows, cols, cells: Seq::new(rows, |i: int| Seq::new(cols, |j: int| f(i, j))) }
    }

    /// Every entry lies in the range of `i32`.
    pub open spec fn fits_i32(self) -> bool {
        forall|i: int, j: int|
            0 <= i < self.rows && 0 <= j < self.cols ==> i32::MIN <= #[trigger] self.at(i, j)
                <= i32::MAX
    }
}

/// The sum of `f(k)` for `lo <= k < hi`.
pub open spec fn sum_over(f: spec_fn(int) -> int, lo: int, hi: int) -> int
    decreases hi - lo,
{
    if hi <= lo {
        0
    } else {
        sum_over(f, lo, hi - 1) + f(hi - 1)
    }
}

/// The `k`-th term of the inner product of row `i` of `a` with column `j` of `b`.
pub open spec fn term(a: IntMatrix, b: IntMatrix, i: int, j: int) -> spec_fn(int) -> int {
    |k: int| a.at(i, k) * b.at(k, j)
}

/// The inner product of row `i` of `a` with column `j` of `b`.
pub open spec fn dot(a: IntMatrix, b: IntMatrix, i: int, j: int) -> int {
    sum_over(term(a, b, i, j), 0, a.cols as int)
}

/// The matrix product over the integers.
pub open spec fn product(a: IntMatrix, b: IntMatrix) -> IntMatrix {
    IntMatrix::new(a.rows, b.cols, |i: int, j: int| dot(a, b, i, j))
}

/// The entrywise sum over the integers.
pub open spec fn sum(a: IntMatrix, b: IntMatrix) -> IntMatrix {
    IntMatrix::new(a.rows, a.cols, |i: int, j: int| a.at(i, j) + b.at(i, j))
}

/// The entrywise difference over the integers.
pub open spec fn difference(a: IntMatrix, b: IntMatrix) -> IntMatrix {
    IntMatrix::new(a.rows, a.cols, |i: int, j: int| a.at(i, j) - b.at(i, j))
}

/// Every entry reduced to its 32-bit word.
pub open spec fn wrapped(a: IntMatrix) -> IntMatrix {
    IntMatrix::new(a.rows, a.cols, |i: int, j: int| wrap32(a.at(i, j)))
}

/// The window of `m` of the given shape whose top-left entry is `m.at(r0, c0)`.
pub open spec fn block(m: IntMatrix, r0: int, c0: int, rows: nat, cols: nat) -> IntMatrix {
    IntMatrix::new(rows, cols, |i: int, j: int| m.at(r0 + i, c0 + j))
}

/// The matrix made of four quadrants of one shape: `q11` top-left, `q12`
/// top-right, `q21` bottom-left and `q22` bottom-right.
pub open spec fn assemble(q11: IntMatrix, q12: IntMatrix, q21: IntMatrix, q22: IntMatrix)
    -> IntMatrix {
    IntMatrix::new(
        2 * q11.rows,
        2 * q11.cols,
        |i: int, j: int|
            if i < q11.rows {
                if j < q11.cols {
                    q11.at(i, j)
                } else {
                    q12.at(i, j - q11.cols)
                }
            } else {
                if j < q11.cols {
                    q21.at(i - q11.rows, j)
                } else {
                    q22.at(i - q11.rows, j - q11.cols)
                }
            },
    )
}

/// The matrix of the given shape with every entry zero.
pub open spec fn zero_matrix(rows: nat, cols: nat) -> IntMatrix {
    IntMatrix::new(rows, cols, |i: int, j: int| 0int)
}

/// The square matrix with ones on the diagonal and zeros elsewhere.
pub open spec fn identity_matrix(n: nat) -> IntMatrix {
    IntMatrix::new(
        n,
        n,
        |i: int, j: int|
            if i == j {
                1int
            } else {
                0int
            },
    )
}

/// Two matrices of one shape with the same entries are the same matrix.
pub proof fn lemma_same_entries(a: IntMatrix, b: IntMatrix)
    requires
        a.wf(),
        b.wf(),
        a.rows == b.rows,
        a.cols == b.cols,
        forall|i: int, j: int| 0 <= i < a.rows && 0 <= j < a.cols ==> a.at(i, j) == b.at(i, j),
    ensures
        a == b,
{
    assert forall|i: int| 0 <= i < a.rows implies a.cells[i] =~= b.cells[i] by {
        assert forall|j: int| 0 <= j < a.cols implies a.cells[i][j] == b.cells[i][j] by {
            assert(a.at(i, j) == b.at(i, j));
        }
    }
    assert(a.cells =~= b.cells);
}

} // verus!
