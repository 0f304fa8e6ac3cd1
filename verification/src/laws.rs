//! Laws that relate the operations of the library to each other.

use crate::algebra::{lemma_mul32_entry, mul32};
use crate::error::MatrixError;
use crate::mat_mul::{multiply_onto_spec, multiply_spec};
use crate::matrix::{merge_spec, MatrixView, THRESHOLD};
use crate::model::{
    assemble, dot, identity_matrix, lemma_same_entries, product, sum_over, term, zero_matrix,
    IntMatrix,
};
use crate::recursive::{recursive_multiply_onto_spec, recursive_multiply_spec};
use crate::sums::{
    at_first, at_second, inner, lemma_sum_equal, lemma_sum_exchange, lemma_sum_scale,
    lemma_sum_single, lemma_sum_zero, sums_over_first, sums_over_second, times,
};
use crate::wrap::{congruent, lemma_wrap32_range};
use vstd::arithmetic::power2::is_pow2;
use vstd::prelude::*;

verus! {

/// The three algorithms agree. On square factors of one side, that side a
/// power of two, what the recursive multipliers return (block recursion and
/// Strassen's algorithm, sequential or forked) is what the iterative kernel
/// returns: the product with every entry reduced to its 32-bit word. The same
/// holds of the variants that add the product onto an output of that shape.
pub proof fn law_algorithms_agree(a: IntMatrix, b: IntMatrix, c: IntMatrix)
    requires
        a.rows == a.cols,
        b.rows == b.cols,
        a.rows == b.rows,
        is_pow2(a.rows as int),
    ensures
        recursive_multiply_spec(a, b) == multiply_spec(a, b),
        multiply_spec(a, b) == Ok::<IntMatrix, MatrixError>(mul32(a, b)),
        recursive_multiply_onto_spec(c, a, b) == multiply_onto_spec(c, a, b),
{
}

/// The arithmetic is exact where the result fits: a product whose entries
/// over the integers all lie in the range of `i32` is returned as it is.
pub proof fn law_exact_when_it_fits(a: IntMatrix, b: IntMatrix)
    requires
        product(a, b).fits_i32(),
    ensures
        mul32(a, b) == product(a, b),
        a.cols == b.rows ==> multiply_spec(a, b) == Ok::<IntMatrix, MatrixError>(product(a, b)),
{
    let exact = product(a, b);
    assert forall|i: int, j: int| 0 <= i < exact.rows && 0 <= j < exact.cols implies mul32(
        a,
        b,
    ).at(i, j) == exact.at(i, j) by {
        assert(i32::MIN <= exact.at(i, j) <= i32::MAX);
        lemma_wrap32_range(exact.at(i, j));
    }
    lemma_same_entries(mul32(a, b), exact);
}

/// Up to the threshold the recursive multipliers are the iterative kernel:
/// on any factors whose left one has no more rows than the threshold, they
/// return what the kernel returns, the product or the error.
pub proof fn law_threshold_is_kernel(a: IntMatrix, b: IntMatrix, c: IntMatrix)
    requires
        a.rows <= THRESHOLD,
    ensures
        recursive_multiply_spec(a, b) == multiply_spec(a, b),
        recursive_multiply_onto_spec(c, a, b) == multiply_onto_spec(c, a, b),
{
}

/// The identity is neutral on the right: the product of a matrix of `i32`
/// entries with the identity of matching size is the matrix, by the kernel
/// and, where they accept the shape, by the recursive multipliers.
pub proof fn law_identity(a: IntMatrix)
    requires
        a.wf(),
        a.fits_i32(),
    ensures
        multiply_spec(a, identity_matrix(a.cols)) == Ok::<IntMatrix, MatrixError>(a),
        a.rows == a.cols && (a.rows <= THRESHOLD || is_pow2(a.rows as int))
            ==> recursive_multiply_spec(a, identity_matrix(a.cols)) == Ok::<
            IntMatrix,
            MatrixError,
        >(a),
{
    let id = identity_matrix(a.cols);
    let got = mul32(a, id);
    assert forall|i: int, j: int| 0 <= i < a.rows && 0 <= j < a.cols implies got.at(i, j) == a.at(
        i,
        j,
    ) by {
        let t = term(a, id, i, j);
        assert forall|k: int| 0 <= k < a.cols && k != j implies #[trigger] t(k) == 0 by {
            assert(id.at(k, j) == 0);
            assert(a.at(i, k) * 0 == 0);
        }
        lemma_sum_single(t, 0, a.cols as int, j);
        assert(id.at(j, j) == 1);
        assert(t(j) == a.at(i, j) * 1);
        lemma_wrap32_range(a.at(i, j));
    }
    lemma_same_entries(got, a);
}

/// The zero matrix absorbs on the right: the product of a matrix with a zero
/// matrix of matching size is a zero matrix, by the kernel and, where they
/// accept the shape, by the recursive multipliers.
pub proof fn law_zero(a: IntMatrix, cols: nat)
    ensures
        multiply_spec(a, zero_matrix(a.cols, cols)) == Ok::<IntMatrix, MatrixError>(
            zero_matrix(a.rows, cols),
        ),
        a.rows == a.cols && a.cols == cols && (a.rows <= THRESHOLD || is_pow2(a.rows as int))
            ==> recursive_multiply_spec(a, zero_matrix(a.cols, cols)) == Ok::<
            IntMatrix,
            MatrixError,
        >(zero_matrix(a.rows, cols)),
{
    let z = zero_matrix(a.cols, cols);
    let got = mul32(a, z);
    let want = zero_matrix(a.rows, cols);
    assert forall|i: int, j: int| 0 <= i < a.rows && 0 <= j < cols implies got.at(i, j)
        == want.at(i, j) by {
        let t = term(a, z, i, j);
        assert forall|k: int| 0 <= k < a.cols implies #[trigger] t(k) == 0 by {
            assert(z.at(k, j) == 0);
            assert(a.at(i, k) * 0 == 0);
        }
        lemma_sum_zero(t, 0, a.cols as int);
    }
    lemma_same_entries(got, want);
}

/// Splitting and merging are inverse: the four quadrants into which
/// `split_view` splits a window of even numbers of rows and of columns,
/// merged by `merge_quadrants`, are the window.
pub proof fn law_split_merge(
    m: MatrixView,
    q11: MatrixView,
    q12: MatrixView,
    q21: MatrixView,
    q22: MatrixView,
)
    requires
        m.wf(),
        m.rows % 2 == 0,
        m.cols % 2 == 0,
        q11.is_window_of(&m, 0, 0, m.rows as int / 2, m.cols as int / 2),
        q12.is_window_of(&m, 0, m.cols as int / 2, m.rows as int / 2, m.cols - m.cols as int / 2),
        q21.is_window_of(&m, m.rows as int / 2, 0, m.rows - m.rows as int / 2, m.cols as int / 2),
        q22.is_window_of(
            &m,
            m.rows as int / 2,
            m.cols as int / 2,
            m.rows - m.rows as int / 2,
            m.cols - m.cols as int / 2,
        ),
    ensures
        merge_spec(q11.model(), q12.model(), q21.model(), q22.model()) == Ok::<
            IntMatrix,
            MatrixError,
        >(m.model()),
{
    let mm = m.model();
    let got = assemble(q11.model(), q12.model(), q21.model(), q22.model());
    assert forall|i: int, j: int| 0 <= i < mm.rows && 0 <= j < mm.cols implies got.at(i, j)
        == mm.at(i, j) by {}
    lemma_same_entries(got, mm);
}

/// The term `a[i][l] * b[l][k] * c[k][j]` of the entry `(i, j)` of a product
/// of three matrices, as a function of `k` and `l`.
pub open spec fn triple_term(a: IntMatrix, b: IntMatrix, c: IntMatrix, i: int, j: int) -> spec_fn(
    int,
    int,
) -> int {
    |k: int, l: int| a.at(i, l) * b.at(l, k) * c.at(k, j)
}

/// The entry `(i, j)` of `(a * b) * c` over the integers is the double sum of
/// the terms of the three factors, summed over the columns of `a` first.
pub proof fn lemma_left_grouping(a: IntMatrix, b: IntMatrix, c: IntMatrix, i: int, j: int)
    ensures
        inner(|k: int| dot(a, b, i, k), |k: int| c.at(k, j), b.cols as int) == sum_over(
            sums_over_second(triple_term(a, b, c, i, j), a.cols as int),
            0,
            b.cols as int,
        ),
{
    let f = triple_term(a, b, c, i, j);
    let lhs = times(|k: int| dot(a, b, i, k), |k: int| c.at(k, j));
    let rhs = sums_over_second(f, a.cols as int);
    assert forall|k: int| 0 <= k < b.cols implies #[trigger] lhs(k) == rhs(k) by {
        let t = term(a, b, i, k);
        let x = c.at(k, j);
        assert forall|l: int| 0 <= l < a.cols implies #[trigger] at_first(f, k)(l) == x * t(l) by {
            let (u, v) = (a.at(i, l), b.at(l, k));
            assert(u * v * x == x * (u * v)) by (nonlinear_arith);
        }
        lemma_sum_scale(t, at_first(f, k), x, 0, a.cols as int);
        let d = dot(a, b, i, k);
        assert(d * x == x * d) by (nonlinear_arith);
    }
    lemma_sum_equal(lhs, rhs, 0, b.cols as int);
}

/// The entry `(i, j)` of `a * (b * c)` over the integers is the double sum of
/// the terms of the three factors, summed over the rows of `c` first.
pub proof fn lemma_right_grouping(a: IntMatrix, b: IntMatrix, c: IntMatrix, i: int, j: int)
    ensures
        inner(|l: int| a.at(i, l), |l: int| dot(b, c, l, j), a.cols as int) == sum_over(
            sums_over_first(triple_term(a, b, c, i, j), b.cols as int),
            0,
            a.cols as int,
        ),
{
    let f = triple_term(a, b, c, i, j);
    let lhs = times(|l: int| a.at(i, l), |l: int| dot(b, c, l, j));
    let rhs = sums_over_first(f, b.cols as int);
    assert forall|l: int| 0 <= l < a.cols implies #[trigger] lhs(l) == rhs(l) by {
        let t = term(b, c, l, j);
        let x = a.at(i, l);
        assert forall|k: int| 0 <= k < b.cols implies #[trigger] at_second(f, l)(k) == x * t(
            k,
        ) by {
            let (u, v) = (b.at(l, k), c.at(k, j));
            assert(x * u * v == x * (u * v)) by (nonlinear_arith);
        }
        lemma_sum_scale(t, at_second(f, l), x, 0, b.cols as int);
    }
    lemma_sum_equal(lhs, rhs, 0, a.cols as int);
}

/// Multiplication is associative: for matrices whose shapes fit, the product
/// of the product of the first two with the third is the product of the
/// first with the product of the last two, every product with its entries
/// reduced to 32-bit words. That holds of the kernel and, on square factors
/// that they accept, of the recursive multipliers.
pub proof fn law_associative(a: IntMatrix, b: IntMatrix, c: IntMatrix)
    requires
        a.cols == b.rows,
        b.cols == c.rows,
    ensures
        mul32(mul32(a, b), c) == mul32(a, mul32(b, c)),
        multiply_spec(mul32(a, b), c) == multiply_spec(a, mul32(b, c)),
        a.rows == a.cols && b.rows == b.cols && c.rows == c.cols
            ==> recursive_multiply_spec(mul32(a, b), c) == recursive_multiply_spec(
            a,
            mul32(b, c),
        ),
{
    let left = mul32(mul32(a, b), c);
    let right = mul32(a, mul32(b, c));
    assert forall|i: int, j: int| 0 <= i < a.rows && 0 <= j < c.cols implies left.at(i, j)
        == right.at(i, j) by {
        let f1 = |k: int| dot(a, b, i, k);
        let g1 = |k: int| c.at(k, j);
        let f2 = |l: int| a.at(i, l);
        let g2 = |l: int| dot(b, c, l, j);
        assert forall|k: int| 0 <= k < b.cols implies congruent(
            mul32(a, b).at(i, k),
            #[trigger] f1(k),
        ) by {
            lemma_wrap32_range(dot(a, b, i, k));
        }
        assert forall|k: int| 0 <= k < b.cols implies congruent(c.at(k, j), #[trigger] g1(k)) by {}
        lemma_mul32_entry(mul32(a, b), c, f1, g1, i, j);
        assert forall|l: int| 0 <= l < a.cols implies congruent(a.at(i, l), #[trigger] f2(l)) by {}
        assert forall|l: int| 0 <= l < a.cols implies congruent(
            mul32(b, c).at(l, j),
            #[trigger] g2(l),
        ) by {
            lemma_wrap32_range(dot(b, c, l, j));
        }
        lemma_mul32_entry(a, mul32(b, c), f2, g2, i, j);
        lemma_left_grouping(a, b, c, i, j);
        lemma_right_grouping(a, b, c, i, j);
        lemma_sum_exchange(triple_term(a, b, c, i, j), b.cols as int, a.cols as int);
        lemma_wrap32_range(dot(mul32(a, b), c, i, j));
        lemma_wrap32_range(dot(a, mul32(b, c), i, j));
    }
    lemma_same_entries(left, right);
}

} // verus!
