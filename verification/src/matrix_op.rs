//! Entrywise subtraction of windows.

use crate::error::MatrixError;
use crate::matrix::{lemma_whole_window, lemma_window_update, outcome, pos, Matrix, MatrixView};
use crate::model::{difference, lemma_same_entries, wrapped, IntMatrix};
use crate::wrap::{lemma_wrapping_sub, wrap32};
use vstd::prelude::*;

verus! {

/// What `sub_vec` returns for operands `a` and `b`: their entrywise
/// difference with every entry reduced to its 32-bit word, or `ShapeMismatch`
/// where the shapes differ.
pub open spec fn sub_spec(a: IntMatrix, b: IntMatrix) -> Result<IntMatrix, MatrixError> {
    if a.rows != b.rows || a.cols != b.cols {
        Err(MatrixError::ShapeMismatch)
    } else {
        Ok(wrapped(difference(a, b)))
    }
}

/// The entrywise difference `a - b` of two windows of one shape, with
/// wrapping arithmetic.
pub fn sub_vec(a: &MatrixView, b: &MatrixView) -> (r: Result<Matrix, MatrixError>)
    requires
        a.wf(),
        b.wf(),
    ensures
        outcome(r) == sub_spec(a.model(), b.model()),
        r matches Ok(m) ==> m.wf(),
{
    if a.rows != b.rows || a.cols != b.cols {
        return Err(MatrixError::ShapeMismatch);
    }
    let ghost n = a.cols as int;
    let ghost sa = a.stride as int;
    let ghost sb = b.stride as int;
    proof {
        a.lemma_size();
        assert(a.data@.len() == a.data.len());
    }
    let mut result = Matrix::new(a.rows, a.cols);
    for i in 0..a.rows
        invariant
            a.wf(),
            b.wf(),
            result.wf(),
            n == a.cols,
            sa == a.stride,
            sb == b.stride,
            a.rows == b.rows,
            a.cols == b.cols,
            result.rows == a.rows,
            result.cols == a.cols,
            forall|i2: int, j2: int|
                0 <= i2 < i && 0 <= j2 < n ==> result.data@[#[trigger] pos(i2, j2, n)] == wrap32(
                    a.data@[pos(i2, j2, sa)] - b.data@[pos(i2, j2, sb)],
                ),
    {
        for j in 0..a.cols
            invariant
                a.wf(),
                b.wf(),
                result.wf(),
                n == a.cols,
                sa == a.stride,
                sb == b.stride,
                a.rows == b.rows,
                a.cols == b.cols,
                result.rows == a.rows,
                result.cols == a.cols,
                0 <= i < a.rows,
                forall|i2: int, j2: int|
                    0 <= i2 < i && 0 <= j2 < n ==> result.data@[#[trigger] pos(i2, j2, n)]
                        == wrap32(a.data@[pos(i2, j2, sa)] - b.data@[pos(i2, j2, sb)]),
                forall|j2: int|
                    0 <= j2 < j ==> result.data@[#[trigger] pos(i as int, j2, n)] == wrap32(
                        a.data@[pos(i as int, j2, sa)] - b.data@[pos(i as int, j2, sb)],
                    ),
        {
            proof {
                assert(a.data@.len() == a.data.len());
                assert(b.data@.len() == b.data.len());
                a.lemma_entry(i as int, j as int);
                b.lemma_entry(i as int, j as int);
                lemma_whole_window(a.rows as int, n);
            }
            let idx_a = i * a.stride + j;
            let idx_b = i * b.stride + j;
            let v = a.data[idx_a].wrapping_sub(b.data[idx_b]);
            proof {
                lemma_wrapping_sub(a.data@[idx_a as int], b.data@[idx_b as int]);
                lemma_window_update(result.data@, a.rows as int, n, n, i as int, j as int, v);
            }
            result.set(i, j, v);
        }
    }
    proof {
        let want = wrapped(difference(a.model(), b.model()));
        assert forall|i2: int, j2: int|
            0 <= i2 < a.rows && 0 <= j2 < a.cols implies result.model().at(i2, j2) == want.at(
            i2,
            j2,
        ) by {
            assert(result.data@[pos(i2, j2, n)] == wrap32(
                a.data@[pos(i2, j2, sa)] - b.data@[pos(i2, j2, sb)],
            ));
        }
        lemma_same_entries(result.model(), want);
    }
    Ok(result)
}

} // verus!
