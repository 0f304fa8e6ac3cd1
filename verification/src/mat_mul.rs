//! The iterative kernel: the product of two windows by the triple loop, into
//! a new matrix or added onto an existing window.

use crate::error::MatrixError;
use crate::matrix::{
    lemma_whole_window, lemma_window_update, outcome, outside_window, pos, Matrix, MatrixView,
    MatrixViewMut,
};
use crate::model::{
    dot, lemma_same_entries, product, sum, sum_over, term, wrapped, zero_matrix, IntMatrix,
};
use crate::wrap::{lemma_wrap32_range, lemma_wrapping_mul_add, wrap32};
use vstd::prelude::*;

verus! {

/// What a multiplication returns for factors `a` and `b`: their product with
/// every entry reduced to its 32-bit word, or `DimensionMismatch` where the
/// column count of `a` is not the row count of `b`.
pub open spec fn multiply_spec(a: IntMatrix, b: IntMatrix) -> Result<IntMatrix, MatrixError> {
    if a.cols != b.rows {
        Err(MatrixError::DimensionMismatch)
    } else {
        Ok(wrapped(product(a, b)))
    }
}

/// The output with contents `c` after the product of `a` and `b` has been
/// added onto it: the entries in the first `a.rows` rows and `b.cols` columns
/// are `c + a * b` reduced to 32-bit words, the others are those of `c`.
pub open spec fn added_onto(c: IntMatrix, a: IntMatrix, b: IntMatrix) -> IntMatrix {
    IntMatrix::new(
        c.rows,
        c.cols,
        |i: int, j: int|
            if i < a.rows && j < b.cols {
                wrap32(c.at(i, j) + dot(a, b, i, j))
            } else {
                c.at(i, j)
            },
    )
}

/// What a multiplication onto an output with contents `c` leaves there for
/// factors `a` and `b`: the product added onto the top-left entries of `c`,
/// or `DimensionMismatch` where the column count of `a` is not the row count
/// of `b` or `c` has fewer rows or columns than the product.
pub open spec fn multiply_onto_spec(c: IntMatrix, a: IntMatrix, b: IntMatrix) -> Result<
    IntMatrix,
    MatrixError,
> {
    if a.cols != b.rows || c.rows < a.rows || c.cols < b.cols {
        Err(MatrixError::DimensionMismatch)
    } else {
        Ok(added_onto(c, a, b))
    }
}

/// Onto an output of the shape of the product, adding the product is adding
/// two matrices; onto an output of zeros of that shape it leaves the wrapped
/// product.
pub proof fn lemma_added_onto_exact(c: IntMatrix, a: IntMatrix, b: IntMatrix)
    requires
        c.rows == a.rows,
        c.cols == b.cols,
    ensures
        added_onto(c, a, b) == wrapped(sum(c, product(a, b))),
        c == zero_matrix(c.rows, c.cols) ==> added_onto(c, a, b) == wrapped(product(a, b)),
{
    assert(added_onto(c, a, b) =~~= wrapped(sum(c, product(a, b))));
    if c == zero_matrix(c.rows, c.cols) {
        assert(added_onto(c, a, b) =~~= wrapped(product(a, b)));
    }
}

/// The entry `(i, j)` of the output after the first `k` terms of the inner
/// product have been added to what the buffer `c0` held there.
pub open spec fn partial(
    c0: Seq<i32>,
    stride: int,
    a: IntMatrix,
    b: IntMatrix,
    i: int,
    j: int,
    k: int,
) -> int {
    wrap32(c0[pos(i, j, stride)] + sum_over(term(a, b, i, j), 0, k))
}

/// Adds the product of `a` and `b` onto the top-left entries of the window
/// `c`, entry by entry with wrapping arithmetic. The window may have more rows
/// or columns than the product; its other entries, and everything outside the
/// window, are not written. Where the inner dimensions differ or the window is
/// smaller than the product, `c` is left as it was.
pub fn matmul(a: MatrixView, b: MatrixView, c: &mut MatrixViewMut) -> (r: Result<(), MatrixError>)
    requires
        a.wf(),
        b.wf(),
        old(c).wf(),
    ensures
        final(c).same_window(old(c)),
        final(final(c).data)@ == final(old(c).data)@,
        match r {
            Ok(_) => multiply_onto_spec(old(c).model(), a.model(), b.model()) == Ok::<
                IntMatrix,
                MatrixError,
            >(final(c).model()),
            Err(e) => multiply_onto_spec(old(c).model(), a.model(), b.model()) == Err::<
                IntMatrix,
                MatrixError,
            >(e) && final(c).buffer() == old(c).buffer(),
        },
{
    if a.cols != b.rows || c.rows < a.rows || c.cols < b.cols {
        return Err(MatrixError::DimensionMismatch);
    }
    let ghost c0 = c.data@;
    let ghost am = a.model();
    let ghost bm = b.model();
    let ghost s = c.stride as int;
    let ghost n = a.cols as int;
    for i in 0..a.rows
        invariant
            a.wf(),
            b.wf(),
            c.wf(),
            a.cols == b.rows,
            c.rows >= a.rows,
            c.cols >= b.cols,
            am == a.model(),
            bm == b.model(),
            s == c.stride,
            n == a.cols,
            c0 == old(c).data@,
            c.rows == old(c).rows,
            c.cols == old(c).cols,
            c.stride == old(c).stride,
            c.data@.len() == c0.len(),
            final(c.data)@ == final(old(c).data)@,
            forall|k: int|
                0 <= k < c0.len() && outside_window(k, c.rows as int, c.cols as int, s)
                    ==> c.data@[k] == c0[k],
            forall|i2: int, j2: int|
                0 <= i2 < i && 0 <= j2 < b.cols ==> c.data@[#[trigger] pos(i2, j2, s)] == partial(
                    c0,
                    s,
                    am,
                    bm,
                    i2,
                    j2,
                    n,
                ),
            forall|i2: int, j2: int|
                0 <= i2 < c.rows && 0 <= j2 < c.cols && (i2 >= i || j2 >= b.cols)
                    ==> c.data@[#[trigger] pos(i2, j2, s)] == c0[pos(i2, j2, s)],
    {
        for k in 0..a.cols
            invariant
                a.wf(),
                b.wf(),
                c.wf(),
                a.cols == b.rows,
                c.rows >= a.rows,
                c.cols >= b.cols,
                am == a.model(),
                bm == b.model(),
                s == c.stride,
                n == a.cols,
                0 <= i < a.rows,
                c.data@.len() == c0.len(),
                c.rows == old(c).rows,
                c.cols == old(c).cols,
                c.stride == old(c).stride,
                final(c.data)@ == final(old(c).data)@,
                forall|k2: int|
                    0 <= k2 < c0.len() && outside_window(k2, c.rows as int, c.cols as int, s)
                        ==> c.data@[k2] == c0[k2],
                forall|i2: int, j2: int|
                    0 <= i2 < i && 0 <= j2 < b.cols ==> c.data@[#[trigger] pos(i2, j2, s)]
                        == partial(c0, s, am, bm, i2, j2, n),
                forall|i2: int, j2: int|
                    0 <= i2 < c.rows && 0 <= j2 < c.cols && (i2 > i || j2 >= b.cols)
                        ==> c.data@[#[trigger] pos(i2, j2, s)] == c0[pos(i2, j2, s)],
                forall|j2: int|
                    0 <= j2 < b.cols ==> c.data@[#[trigger] pos(i as int, j2, s)] == partial(
                        c0,
                        s,
                        am,
                        bm,
                        i as int,
                        j2,
                        k as int,
                    ),
        {
            for j in 0..b.cols
                invariant
                    a.wf(),
                    b.wf(),
                    c.wf(),
                    a.cols == b.rows,
                    c.rows >= a.rows,
                    c.cols >= b.cols,
                    am == a.model(),
                    bm == b.model(),
                    s == c.stride,
                    n == a.cols,
                    0 <= i < a.rows,
                    0 <= k < a.cols,
                    c.data@.len() == c0.len(),
                    c.rows == old(c).rows,
                    c.cols == old(c).cols,
                    c.stride == old(c).stride,
                    final(c.data)@ == final(old(c).data)@,
                    forall|k2: int|
                        0 <= k2 < c0.len() && outside_window(k2, c.rows as int, c.cols as int, s)
                            ==> c.data@[k2] == c0[k2],
                    forall|i2: int, j2: int|
                        0 <= i2 < i && 0 <= j2 < b.cols ==> c.data@[#[trigger] pos(i2, j2, s)]
                            == partial(c0, s, am, bm, i2, j2, n),
                    forall|i2: int, j2: int|
                        0 <= i2 < c.rows && 0 <= j2 < c.cols && (i2 > i || j2 >= b.cols)
                            ==> c.data@[#[trigger] pos(i2, j2, s)] == c0[pos(i2, j2, s)],
                    forall|j2: int|
                        0 <= j2 < j ==> c.data@[#[trigger] pos(i as int, j2, s)] == partial(
                            c0,
                            s,
                            am,
                            bm,
                            i as int,
                            j2,
                            k + 1,
                        ),
                    forall|j2: int|
                        j <= j2 < b.cols ==> c.data@[#[trigger] pos(i as int, j2, s)] == partial(
                            c0,
                            s,
                            am,
                            bm,
                            i as int,
                            j2,
                            k as int,
                        ),
            {
                proof {
                    a.lemma_entry(i as int, k as int);
                    b.lemma_entry(k as int, j as int);
                    c.lemma_entry(i as int, j as int);
                }
                let x = a.get(i, k);
                let y = b.get(k, j);
                let old_v = c.get(i, j);
                let v = old_v.wrapping_add(x.wrapping_mul(y));
                proof {
                    let acc = c0[pos(i as int, j as int, s)] + sum_over(
                        term(am, bm, i as int, j as int),
                        0,
                        k as int,
                    );
                    assert(old_v == partial(c0, s, am, bm, i as int, j as int, k as int));
                    lemma_wrap32_range(acc);
                    lemma_wrapping_mul_add(old_v, acc, x, y);
                    assert(term(am, bm, i as int, j as int)(k as int) == x * y);
                    assert(v == partial(c0, s, am, bm, i as int, j as int, k + 1));
                    lemma_window_update(
                        c.data@,
                        c.rows as int,
                        c.cols as int,
                        s,
                        i as int,
                        j as int,
                        v,
                    );
                }
                c.set(i, j, v);
            }
        }
    }
    proof {
        let want = added_onto(old(c).model(), am, bm);
        assert forall|i2: int, j2: int|
            0 <= i2 < c.rows && 0 <= j2 < c.cols implies c.model().at(i2, j2) == want.at(
            i2,
            j2,
        ) by {
            if i2 < a.rows && j2 < b.cols {
                assert(c.data@[pos(i2, j2, s)] == partial(c0, s, am, bm, i2, j2, n));
            } else {
                assert(c.data@[pos(i2, j2, s)] == c0[pos(i2, j2, s)]);
            }
        }
        lemma_same_entries(c.model(), want);
    }
    Ok(())
}

/// The product of `a` and `b` as a new matrix, computed by the triple loop
/// with wrapping arithmetic.
pub fn multiply_matrix(a: MatrixView, b: MatrixView) -> (r: Result<Matrix, MatrixError>)
    requires
        a.wf(),
        b.wf(),
        a.rows * b.cols <= usize::MAX,
    ensures
        outcome(r) == multiply_spec(a.model(), b.model()),
        r matches Ok(m) ==> m.wf(),
{
    if a.cols != b.rows {
        return Err(MatrixError::DimensionMismatch);
    }
    let mut c = Matrix::new(a.rows, b.cols);
    let ghost zero = c.model();
    proof {
        lemma_whole_window(a.rows as int, b.cols as int);
    }
    let mut out = MatrixViewMut {
        data: c.data.as_mut_slice(),
        rows: a.rows,
        cols: b.cols,
        stride: b.cols,
    };
    assert(out.model() =~~= zero);
    let _ = matmul(a, b, &mut out);
    proof {
        assert(c.model() =~~= out.model());
        lemma_added_onto_exact(zero, a.model(), b.model());
    }
    Ok(c)
}

/// The product of two owned matrices as a new matrix.
pub fn matrix_matmul(a: Matrix, b: Matrix) -> (r: Result<Matrix, MatrixError>)
    requires
        a.wf(),
        b.wf(),
        a.rows * b.cols <= usize::MAX,
    ensures
        outcome(r) == multiply_spec(a.model(), b.model()),
        r matches Ok(m) ==> m.wf(),
{
    multiply_matrix(a.view(), b.view())
}

} // verus!
