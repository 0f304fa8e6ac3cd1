//! What the recursive multipliers have in common: the shapes that they
//! accept, and what they return.

use crate::algebra::mul32;
use crate::error::MatrixError;
use crate::mat_mul::{added_onto, lemma_added_onto_exact, multiply_onto_spec, multiply_spec};
use crate::matrix::THRESHOLD;
use crate::model::{zero_matrix, IntMatrix};
use vstd::arithmetic::power2::is_pow2;
use vstd::prelude::*;

verus! {

/// The test that `is_power_of_two` makes on the bits of `n`.
pub open spec fn single_bit(n: u64) -> bool {
    n != 0 && n & ((n - 1) as u64) == 0
}

/// A number greater than one has a single bit set exactly when it is even
/// and its half has a single bit set.
pub proof fn lemma_single_bit_half(n: u64)
    by (bit_vector)
    requires
        n > 1,
    ensures
        single_bit(n) <==> (n % 2 == 0 && single_bit(n / 2)),
{
}

/// A number has a single bit set exactly when it is a power of two.
pub proof fn lemma_single_bit_is_pow2(n: u64)
    ensures
        single_bit(n) <==> is_pow2(n as int),
    decreases n,
{
    reveal(is_pow2);
    if n > 1 {
        lemma_single_bit_half(n);
        lemma_single_bit_is_pow2(n / 2);
    } else if n == 1 {
        assert(single_bit(1)) by (bit_vector);
    }
}

/// Whether `n` is a power of two.
pub fn is_power_of_two(n: usize) -> (r: bool)
    ensures
        r == is_pow2(n as int),
{
    proof {
        lemma_single_bit_is_pow2(n as u64);
    }
    n != 0 && ((n as u64) & ((n - 1) as u64)) == 0
}

/// What a recursive multiplication returns for factors `a` and `b`. Up to
/// the threshold it is what the iterative kernel returns. Above it, the
/// factors must be square, of one side, and that side a power of two: then
/// it is their product with every entry reduced to its 32-bit word.
pub open spec fn recursive_multiply_spec(a: IntMatrix, b: IntMatrix) -> Result<
    IntMatrix,
    MatrixError,
> {
    if a.rows <= THRESHOLD {
        multiply_spec(a, b)
    } else if a.cols != b.rows {
        Err(MatrixError::DimensionMismatch)
    } else if !(a.rows == a.cols && b.rows == b.cols && is_pow2(a.rows as int)) {
        Err(MatrixError::InvalidShape)
    } else {
        Ok(mul32(a, b))
    }
}

/// On square factors of one side, that side a power of two, a recursive
/// multiplication returns the wrapped product.
pub proof fn lemma_recursive_on_squares(a: IntMatrix, b: IntMatrix)
    requires
        a.rows == a.cols,
        b.rows == b.cols,
        a.rows == b.rows,
        is_pow2(a.rows as int),
    ensures
        recursive_multiply_spec(a, b) == Ok::<IntMatrix, MatrixError>(mul32(a, b)),
{
}

/// The half of a power of two greater than one is a power of two, and twice
/// the half is the number.
pub proof fn lemma_half_of_pow2(n: int)
    requires
        is_pow2(n),
        n > 1,
    ensures
        is_pow2(n / 2),
        2 * (n / 2) == n,
        n % 2 == 0,
        0 < n / 2 < n,
{
    reveal(is_pow2);
}

/// A square of side `n / 2` has no more entries than a square of side `n`.
pub proof fn lemma_half_square(n: int)
    requires
        0 <= n,
    ensures
        0 <= (n / 2) * (n / 2) <= n * n,
        (2 * (n / 2)) * (2 * (n / 2)) <= n * n,
{
    let h = n / 2;
    assert(0 <= h * h && h * h <= n * n && (2 * h) * (2 * h) <= n * n) by (nonlinear_arith)
        requires
            0 <= h,
            2 * h <= n,
    ;
}

/// What a recursive multiplication onto an output with contents `c` leaves
/// there for factors `a` and `b`. Up to the threshold it is what the
/// iterative kernel leaves. Above it, the factors must be square, of one
/// side, and that side a power of two: then it is the product added onto the
/// top-left entries of `c`. The output may have more rows or columns than the
/// product, never fewer.
pub open spec fn recursive_multiply_onto_spec(c: IntMatrix, a: IntMatrix, b: IntMatrix) -> Result<
    IntMatrix,
    MatrixError,
> {
    if a.rows <= THRESHOLD {
        multiply_onto_spec(c, a, b)
    } else if a.cols != b.rows || c.rows < a.rows || c.cols < b.cols {
        Err(MatrixError::DimensionMismatch)
    } else if !(a.rows == a.cols && b.rows == b.cols && is_pow2(a.rows as int)) {
        Err(MatrixError::InvalidShape)
    } else {
        Ok(added_onto(c, a, b))
    }
}

/// On square factors of one side, that side a power of two, and an output
/// that is no smaller, a recursive multiplication onto the output leaves the
/// product added onto its top-left entries. Onto an output of zeros of the
/// shape of the product it leaves the wrapped product.
pub proof fn lemma_recursive_onto_squares(c: IntMatrix, a: IntMatrix, b: IntMatrix)
    requires
        a.rows == a.cols,
        b.rows == b.cols,
        a.rows == b.rows,
        c.rows >= a.rows,
        c.cols >= a.rows,
        is_pow2(a.rows as int),
    ensures
        recursive_multiply_onto_spec(c, a, b) == Ok::<IntMatrix, MatrixError>(
            added_onto(c, a, b),
        ),
        c == zero_matrix(a.rows, a.rows) ==> added_onto(c, a, b) == mul32(a, b),
{
    if c == zero_matrix(a.rows, a.rows) {
        lemma_added_onto_exact(c, a, b);
    }
}

} // verus!
