//! The algebra behind the recursive algorithms: a product of matrices of even
//! side is made of products of their quadrants, by the block formula and by
//! Strassen's seven products, and reducing entries to 32-bit words at any
//! step does not change the words of the result.

use crate::model::{
    assemble, block, difference, dot, lemma_same_entries, product, sum, term, wrapped, IntMatrix,
};
use crate::sums::{
    inner, lemma_inner_congruent, lemma_sum_equal, lemma_sum_shift, lemma_sum_split, minus, plus,
    shifted, times,
};
use crate::wrap::{
    congruent, lemma_congruent_add, lemma_congruent_sub, lemma_wrap32_range, wrap32,
};
use vstd::prelude::*;

verus! {

/// The entrywise sum as the executable code computes it: with every entry
/// reduced to its 32-bit word.
pub open spec fn add32(a: IntMatrix, b: IntMatrix) -> IntMatrix {
    wrapped(sum(a, b))
}

/// The entrywise difference with every entry reduced to its 32-bit word.
pub open spec fn sub32(a: IntMatrix, b: IntMatrix) -> IntMatrix {
    wrapped(difference(a, b))
}

/// The matrix product with every entry reduced to its 32-bit word.
pub open spec fn mul32(a: IntMatrix, b: IntMatrix) -> IntMatrix {
    wrapped(product(a, b))
}

/// The four quadrants of a matrix.
pub struct Quadrants {
    pub q11: IntMatrix,
    pub q12: IntMatrix,
    pub q21: IntMatrix,
    pub q22: IntMatrix,
}

/// The quadrants of a square matrix of even side, each of half the side.
pub open spec fn quadrants(m: IntMatrix) -> Quadrants {
    let h = m.rows / 2;
    Quadrants {
        q11: block(m, 0, 0, h, h),
        q12: block(m, 0, h as int, h, h),
        q21: block(m, h as int, 0, h, h),
        q22: block(m, h as int, h as int, h, h),
    }
}

/// One level of block recursion on square matrices of even side: the four
/// quadrants of the product, each the sum of two products of quadrants,
/// put together.
pub open spec fn block_step(a: IntMatrix, b: IntMatrix) -> IntMatrix {
    let qa = quadrants(a);
    let qb = quadrants(b);
    assemble(
        add32(mul32(qa.q11, qb.q11), mul32(qa.q12, qb.q21)),
        add32(mul32(qa.q11, qb.q12), mul32(qa.q12, qb.q22)),
        add32(mul32(qa.q21, qb.q11), mul32(qa.q22, qb.q21)),
        add32(mul32(qa.q21, qb.q12), mul32(qa.q22, qb.q22)),
    )
}

/// The `k`-th of Strassen's seven products of the quadrants `a` of the left
/// and `b` of the right factor, counted from zero.
pub open spec fn strassen_product(k: int, a: Quadrants, b: Quadrants) -> IntMatrix {
    if k == 0 {
        mul32(add32(a.q11, a.q22), add32(b.q11, b.q22))
    } else if k == 1 {
        mul32(add32(a.q21, a.q22), b.q11)
    } else if k == 2 {
        mul32(a.q11, sub32(b.q12, b.q22))
    } else if k == 3 {
        mul32(a.q22, sub32(b.q21, b.q11))
    } else if k == 4 {
        mul32(add32(a.q11, a.q12), b.q22)
    } else if k == 5 {
        mul32(sub32(a.q21, a.q11), add32(b.q11, b.q12))
    } else {
        mul32(sub32(a.q12, a.q22), add32(b.q21, b.q22))
    }
}

/// The result that Strassen's scheme makes of its seven products: the four
/// quadrants as sums and differences of the products, put together.
pub open spec fn strassen_combine(m: Seq<IntMatrix>) -> IntMatrix {
    assemble(
        add32(sub32(add32(m[0], m[3]), m[4]), m[6]),
        add32(m[2], m[4]),
        add32(m[1], m[3]),
        add32(sub32(add32(m[0], m[2]), m[1]), m[5]),
    )
}

/// One level of Strassen's recursion on square matrices of even side: the
/// seven products of sums and differences of quadrants, combined.
pub open spec fn strassen_step(a: IntMatrix, b: IntMatrix) -> IntMatrix {
    strassen_combine(Seq::new(7, |k: int| strassen_product(k, quadrants(a), quadrants(b))))
}

/// The entries of row `i` of `m` from column `k0` on, as a function of the
/// distance from that column.
pub open spec fn row_from(m: IntMatrix, i: int, k0: int) -> spec_fn(int) -> int {
    |k: int| m.at(i, k0 + k)
}

/// The entries of column `j` of `m` from row `k0` on, as a function of the
/// distance from that row.
pub open spec fn col_from(m: IntMatrix, j: int, k0: int) -> spec_fn(int) -> int {
    |k: int| m.at(k0 + k, j)
}

/// An inner product grows by one term when its length grows by one.
pub proof fn lemma_inner_step(f: spec_fn(int) -> int, g: spec_fn(int) -> int, n: int)
    requires
        n > 0,
    ensures
        inner(f, g, n) == inner(f, g, n - 1) + f(n - 1) * g(n - 1),
{
    assert(times(f, g)(n - 1) == f(n - 1) * g(n - 1));
}

/// Strassen's identities for inner products: for eight functions that stand
/// for the rows of the quadrants of the left factor and the columns of the
/// quadrants of the right factor, the seven inner products of Strassen's
/// scheme combine into the inner products that the block formula asks for.
pub proof fn lemma_strassen_sums(
    a11: spec_fn(int) -> int,
    a12: spec_fn(int) -> int,
    a21: spec_fn(int) -> int,
    a22: spec_fn(int) -> int,
    b11: spec_fn(int) -> int,
    b12: spec_fn(int) -> int,
    b21: spec_fn(int) -> int,
    b22: spec_fn(int) -> int,
    n: int,
)
    requires
        0 <= n,
    ensures
        inner(plus(a11, a22), plus(b11, b22), n) + inner(a22, minus(b21, b11), n) - inner(
            plus(a11, a12),
            b22,
            n,
        ) + inner(minus(a12, a22), plus(b21, b22), n) == inner(a11, b11, n) + inner(a12, b21, n),
        inner(a11, minus(b12, b22), n) + inner(plus(a11, a12), b22, n) == inner(a11, b12, n)
            + inner(a12, b22, n),
        inner(plus(a21, a22), b11, n) + inner(a22, minus(b21, b11), n) == inner(a21, b11, n)
            + inner(a22, b21, n),
        inner(plus(a11, a22), plus(b11, b22), n) + inner(a11, minus(b12, b22), n) - inner(
            plus(a21, a22),
            b11,
            n,
        ) + inner(minus(a21, a11), plus(b11, b12), n) == inner(a21, b12, n) + inner(a22, b22, n),
    decreases n,
{
    if n > 0 {
        lemma_strassen_sums(a11, a12, a21, a22, b11, b12, b21, b22, n - 1);
        let k = n - 1;
        let x11 = a11(k);
        let x12 = a12(k);
        let x21 = a21(k);
        let x22 = a22(k);
        let y11 = b11(k);
        let y12 = b12(k);
        let y21 = b21(k);
        let y22 = b22(k);
        lemma_inner_step(plus(a11, a22), plus(b11, b22), n);
        lemma_inner_step(plus(a21, a22), b11, n);
        lemma_inner_step(a11, minus(b12, b22), n);
        lemma_inner_step(a22, minus(b21, b11), n);
        lemma_inner_step(plus(a11, a12), b22, n);
        lemma_inner_step(minus(a21, a11), plus(b11, b12), n);
        lemma_inner_step(minus(a12, a22), plus(b21, b22), n);
        lemma_inner_step(a11, b11, n);
        lemma_inner_step(a12, b21, n);
        lemma_inner_step(a11, b12, n);
        lemma_inner_step(a12, b22, n);
        lemma_inner_step(a21, b11, n);
        lemma_inner_step(a22, b21, n);
        lemma_inner_step(a21, b12, n);
        lemma_inner_step(a22, b22, n);
        lemma_strassen_scalars(x11, x12, x21, x22, y11, y12, y21, y22);
    }
}

/// The product of two sums, multiplied out.
pub proof fn lemma_expand(a: int, b: int, c: int, d: int)
    ensures
        (a + b) * (c + d) == a * c + a * d + b * c + b * d,
        (a - b) * (c + d) == a * c + a * d - b * c - b * d,
        a * (c - d) == a * c - a * d,
        (a + b) * c == a * c + b * c,
{
    assert((a + b) * (c + d) == a * c + a * d + b * c + b * d) by (nonlinear_arith);
    assert((a - b) * (c + d) == a * c + a * d - b * c - b * d) by (nonlinear_arith);
    assert(a * (c - d) == a * c - a * d) by (nonlinear_arith);
    assert((a + b) * c == a * c + b * c) by (nonlinear_arith);
}

/// Strassen's identities for two-by-two matrices of integers.
pub proof fn lemma_strassen_scalars(
    x11: int,
    x12: int,
    x21: int,
    x22: int,
    y11: int,
    y12: int,
    y21: int,
    y22: int,
)
    ensures
        (x11 + x22) * (y11 + y22) + x22 * (y21 - y11) - (x11 + x12) * y22 + (x12 - x22) * (y21
            + y22) == x11 * y11 + x12 * y21,
        x11 * (y12 - y22) + (x11 + x12) * y22 == x11 * y12 + x12 * y22,
        (x21 + x22) * y11 + x22 * (y21 - y11) == x21 * y11 + x22 * y21,
        (x11 + x22) * (y11 + y22) + x11 * (y12 - y22) - (x21 + x22) * y11 + (x21 - x11) * (y11
            + y12) == x21 * y12 + x22 * y22,
{
    lemma_expand(x11, x22, y11, y22);
    lemma_expand(x22, 0, y21, y11);
    lemma_expand(x11, x12, y22, 0);
    lemma_expand(x12, x22, y21, y22);
    lemma_expand(x11, 0, y12, y22);
    lemma_expand(x21, x22, y11, 0);
    lemma_expand(x21, x11, y11, y12);
}

/// The inner product of a row of `a` with a column of `b`, for factors of
/// inner dimension `2 * h`, is the sum of the inner products over the first
/// and over the second half.
pub proof fn lemma_dot_halves(a: IntMatrix, b: IntMatrix, i: int, j: int, h: int)
    requires
        0 <= h,
        a.cols == 2 * h,
    ensures
        dot(a, b, i, j) == inner(row_from(a, i, 0), col_from(b, j, 0), h) + inner(
            row_from(a, i, h),
            col_from(b, j, h),
            h,
        ),
{
    let t = term(a, b, i, j);
    lemma_sum_split(t, 0, h, 2 * h);
    assert forall|k: int| 0 <= k < h implies #[trigger] t(k) == times(
        row_from(a, i, 0),
        col_from(b, j, 0),
    )(k) by {}
    lemma_sum_equal(t, times(row_from(a, i, 0), col_from(b, j, 0)), 0, h);
    lemma_sum_shift(t, 0, h, h);
    assert forall|k: int| 0 <= k < h implies #[trigger] shifted(t, h)(k) == times(
        row_from(a, i, h),
        col_from(b, j, h),
    )(k) by {
        assert(k + h == h + k);
    }
    lemma_sum_equal(shifted(t, h), times(row_from(a, i, h), col_from(b, j, h)), 0, h);
}

/// An entry of a wrapped product has the 32-bit word of the inner product of
/// any two functions whose values have the words of the row and of the
/// column that meet in it.
pub proof fn lemma_mul32_entry(
    x: IntMatrix,
    y: IntMatrix,
    f: spec_fn(int) -> int,
    g: spec_fn(int) -> int,
    i: int,
    j: int,
)
    requires
        0 <= i < x.rows,
        0 <= j < y.cols,
        forall|k: int| 0 <= k < x.cols ==> congruent(x.at(i, k), #[trigger] f(k)),
        forall|k: int| 0 <= k < x.cols ==> congruent(y.at(k, j), #[trigger] g(k)),
    ensures
        congruent(mul32(x, y).at(i, j), inner(f, g, x.cols as int)),
        mul32(x, y).at(i, j) == wrap32(dot(x, y, i, j)),
{
    let n = x.cols as int;
    let t = term(x, y, i, j);
    let rf = row_from(x, i, 0);
    let cf = col_from(y, j, 0);
    assert forall|k: int| 0 <= k < n implies #[trigger] t(k) == times(rf, cf)(k) by {}
    lemma_sum_equal(t, times(rf, cf), 0, n);
    assert forall|k: int| 0 <= k < n implies congruent(#[trigger] rf(k), f(k)) by {
        assert(congruent(x.at(i, k), f(k)));
    }
    assert forall|k: int| 0 <= k < n implies congruent(#[trigger] cf(k), g(k)) by {
        assert(congruent(y.at(k, j), g(k)));
    }
    lemma_inner_congruent(rf, cf, f, g, n);
    lemma_wrap32_range(dot(x, y, i, j));
}

/// An entry of a wrapped sum has the 32-bit word of the sum of any two
/// integers that have the words of the entries added.
pub proof fn lemma_add32_entry(x: IntMatrix, y: IntMatrix, i: int, j: int, p: int, q: int)
    requires
        0 <= i < x.rows,
        0 <= j < x.cols,
        congruent(x.at(i, j), p),
        congruent(y.at(i, j), q),
    ensures
        congruent(add32(x, y).at(i, j), p + q),
        add32(x, y).at(i, j) == wrap32(x.at(i, j) + y.at(i, j)),
        wrap32(add32(x, y).at(i, j)) == add32(x, y).at(i, j),
{
    lemma_wrap32_range(x.at(i, j) + y.at(i, j));
    lemma_congruent_add(x.at(i, j), p, y.at(i, j), q);
}

/// An entry of a wrapped difference has the 32-bit word of the difference of
/// any two integers that have the words of the entries subtracted.
pub proof fn lemma_sub32_entry(x: IntMatrix, y: IntMatrix, i: int, j: int, p: int, q: int)
    requires
        0 <= i < x.rows,
        0 <= j < x.cols,
        congruent(x.at(i, j), p),
        congruent(y.at(i, j), q),
    ensures
        congruent(sub32(x, y).at(i, j), p - q),
        sub32(x, y).at(i, j) == wrap32(x.at(i, j) - y.at(i, j)),
        wrap32(sub32(x, y).at(i, j)) == sub32(x, y).at(i, j),
{
    lemma_wrap32_range(x.at(i, j) - y.at(i, j));
    lemma_congruent_sub(x.at(i, j), p, y.at(i, j), q);
}

/// The entries of a row of a wrapped sum of two matrices have the words of
/// the sums of the entries of the two rows.
pub proof fn lemma_row_add32(
    x1: IntMatrix,
    x2: IntMatrix,
    f1: spec_fn(int) -> int,
    f2: spec_fn(int) -> int,
    i: int,
)
    requires
        0 <= i < x1.rows,
        forall|k: int| 0 <= k < x1.cols ==> x1.at(i, k) == #[trigger] f1(k),
        forall|k: int| 0 <= k < x1.cols ==> x2.at(i, k) == #[trigger] f2(k),
    ensures
        forall|k: int|
            0 <= k < x1.cols ==> congruent(add32(x1, x2).at(i, k), #[trigger] plus(f1, f2)(k)),
{
    assert forall|k: int| 0 <= k < x1.cols implies congruent(
        add32(x1, x2).at(i, k),
        #[trigger] plus(f1, f2)(k),
    ) by {
        assert(x1.at(i, k) == f1(k));
        assert(x2.at(i, k) == f2(k));
        lemma_wrap32_range(f1(k) + f2(k));
    }
}

/// The entries of a row of a wrapped difference of two matrices have the
/// words of the differences of the entries of the two rows.
pub proof fn lemma_row_sub32(
    x1: IntMatrix,
    x2: IntMatrix,
    f1: spec_fn(int) -> int,
    f2: spec_fn(int) -> int,
    i: int,
)
    requires
        0 <= i < x1.rows,
        forall|k: int| 0 <= k < x1.cols ==> x1.at(i, k) == #[trigger] f1(k),
        forall|k: int| 0 <= k < x1.cols ==> x2.at(i, k) == #[trigger] f2(k),
    ensures
        forall|k: int|
            0 <= k < x1.cols ==> congruent(sub32(x1, x2).at(i, k), #[trigger] minus(f1, f2)(k)),
{
    assert forall|k: int| 0 <= k < x1.cols implies congruent(
        sub32(x1, x2).at(i, k),
        #[trigger] minus(f1, f2)(k),
    ) by {
        assert(x1.at(i, k) == f1(k));
        assert(x2.at(i, k) == f2(k));
        lemma_wrap32_range(f1(k) - f2(k));
    }
}

/// The entries of a column of a wrapped sum of two matrices have the words
/// of the sums of the entries of the two columns.
pub proof fn lemma_col_add32(
    y1: IntMatrix,
    y2: IntMatrix,
    g1: spec_fn(int) -> int,
    g2: spec_fn(int) -> int,
    j: int,
)
    requires
        0 <= j < y1.cols,
        forall|k: int| 0 <= k < y1.rows ==> y1.at(k, j) == #[trigger] g1(k),
        forall|k: int| 0 <= k < y1.rows ==> y2.at(k, j) == #[trigger] g2(k),
    ensures
        forall|k: int|
            0 <= k < y1.rows ==> congruent(add32(y1, y2).at(k, j), #[trigger] plus(g1, g2)(k)),
{
    assert forall|k: int| 0 <= k < y1.rows implies congruent(
        add32(y1, y2).at(k, j),
        #[trigger] plus(g1, g2)(k),
    ) by {
        assert(y1.at(k, j) == g1(k));
        assert(y2.at(k, j) == g2(k));
        lemma_wrap32_range(g1(k) + g2(k));
    }
}

/// The entries of a column of a wrapped difference of two matrices have the
/// words of the differences of the entries of the two columns.
pub proof fn lemma_col_sub32(
    y1: IntMatrix,
    y2: IntMatrix,
    g1: spec_fn(int) -> int,
    g2: spec_fn(int) -> int,
    j: int,
)
    requires
        0 <= j < y1.cols,
        forall|k: int| 0 <= k < y1.rows ==> y1.at(k, j) == #[trigger] g1(k),
        forall|k: int| 0 <= k < y1.rows ==> y2.at(k, j) == #[trigger] g2(k),
    ensures
        forall|k: int|
            0 <= k < y1.rows ==> congruent(sub32(y1, y2).at(k, j), #[trigger] minus(g1, g2)(k)),
{
    assert forall|k: int| 0 <= k < y1.rows implies congruent(
        sub32(y1, y2).at(k, j),
        #[trigger] minus(g1, g2)(k),
    ) by {
        assert(y1.at(k, j) == g1(k));
        assert(y2.at(k, j) == g2(k));
        lemma_wrap32_range(g1(k) - g2(k));
    }
}

/// The rows and columns of the quadrants of a square matrix of side `2 * h`
/// are the halves of the rows and columns of the matrix.
pub proof fn lemma_quadrant_entries(m: IntMatrix, h: int)
    requires
        0 <= h,
        m.rows == 2 * h,
    ensures
        quadrants(m).q11 == block(m, 0, 0, h as nat, h as nat),
        quadrants(m).q12 == block(m, 0, h, h as nat, h as nat),
        quadrants(m).q21 == block(m, h, 0, h as nat, h as nat),
        quadrants(m).q22 == block(m, h, h, h as nat, h as nat),
        forall|i: int, k: int|
            0 <= i < h && 0 <= k < h ==> #[trigger] quadrants(m).q11.at(i, k) == m.at(i, k),
        forall|i: int, k: int|
            0 <= i < h && 0 <= k < h ==> #[trigger] quadrants(m).q12.at(i, k) == m.at(i, h + k),
        forall|i: int, k: int|
            0 <= i < h && 0 <= k < h ==> #[trigger] quadrants(m).q21.at(i, k) == m.at(h + i, k),
        forall|i: int, k: int|
            0 <= i < h && 0 <= k < h ==> #[trigger] quadrants(m).q22.at(i, k) == m.at(
                h + i,
                h + k,
            ),
{
    assert(m.rows / 2 == h);
}

/// A row of a block of `m` is a part of a row of `m`, and a column of a
/// block is a part of a column.
pub proof fn lemma_block_lines(m: IntMatrix, r0: int, c0: int, h: int, i: int, j: int)
    requires
        0 <= i < h,
        0 <= j < h,
    ensures
        forall|k: int|
            0 <= k < h ==> block(m, r0, c0, h as nat, h as nat).at(i, k) == #[trigger] row_from(
                m,
                r0 + i,
                c0,
            )(k),
        forall|k: int|
            0 <= k < h ==> block(m, r0, c0, h as nat, h as nat).at(k, j) == #[trigger] col_from(
                m,
                c0 + j,
                r0,
            )(k),
{
}

/// An entry of the wrapped product of two blocks has the 32-bit word of the
/// inner product of the parts of the row and of the column that the blocks
/// cut out.
pub proof fn lemma_block_mul32_entry(
    a: IntMatrix,
    b: IntMatrix,
    h: int,
    r0: int,
    k0: int,
    c0: int,
    i: int,
    j: int,
)
    requires
        0 <= i < h,
        0 <= j < h,
    ensures
        congruent(
            mul32(block(a, r0, k0, h as nat, h as nat), block(b, k0, c0, h as nat, h as nat)).at(
                i,
                j,
            ),
            inner(row_from(a, r0 + i, k0), col_from(b, c0 + j, k0), h),
        ),
{
    let x = block(a, r0, k0, h as nat, h as nat);
    let y = block(b, k0, c0, h as nat, h as nat);
    let f = row_from(a, r0 + i, k0);
    let g = col_from(b, c0 + j, k0);
    lemma_block_lines(a, r0, k0, h, i, j);
    lemma_block_lines(b, k0, c0, h, i, j);
    assert forall|k: int| 0 <= k < x.cols implies congruent(x.at(i, k), #[trigger] f(k)) by {
        assert(x.at(i, k) == row_from(a, r0 + i, k0)(k));
    }
    assert forall|k: int| 0 <= k < x.cols implies congruent(y.at(k, j), #[trigger] g(k)) by {
        assert(y.at(k, j) == col_from(b, c0 + j, k0)(k));
    }
    lemma_mul32_entry(x, y, f, g, i, j);
}

/// The block formula for one entry: in a product of square matrices of side
/// `2 * h`, the entry `(r0 + i, c0 + j)` of the quadrant that starts at row
/// `r0` and column `c0` is the sum of the entries `(i, j)` of two products of
/// quadrants, all reduced to 32-bit words.
pub proof fn lemma_block_entry(
    a: IntMatrix,
    b: IntMatrix,
    h: int,
    r0: int,
    c0: int,
    i: int,
    j: int,
)
    requires
        0 <= h,
        a.rows == 2 * h,
        a.cols == 2 * h,
        b.rows == 2 * h,
        b.cols == 2 * h,
        r0 == 0 || r0 == h,
        c0 == 0 || c0 == h,
        0 <= i < h,
        0 <= j < h,
    ensures
        add32(
            mul32(block(a, r0, 0, h as nat, h as nat), block(b, 0, c0, h as nat, h as nat)),
            mul32(block(a, r0, h, h as nat, h as nat), block(b, h, c0, h as nat, h as nat)),
        ).at(i, j) == mul32(a, b).at(r0 + i, c0 + j),
{
    let p1 = mul32(block(a, r0, 0, h as nat, h as nat), block(b, 0, c0, h as nat, h as nat));
    let p2 = mul32(block(a, r0, h, h as nat, h as nat), block(b, h, c0, h as nat, h as nat));
    let s1 = inner(row_from(a, r0 + i, 0), col_from(b, c0 + j, 0), h);
    let s2 = inner(row_from(a, r0 + i, h), col_from(b, c0 + j, h), h);
    let d = dot(a, b, r0 + i, c0 + j);
    lemma_block_mul32_entry(a, b, h, r0, 0, c0, i, j);
    lemma_block_mul32_entry(a, b, h, r0, h, c0, i, j);
    lemma_add32_entry(p1, p2, i, j, s1, s2);
    lemma_dot_halves(a, b, r0 + i, c0 + j, h);
    assert(d == s1 + s2);
    lemma_word_of(add32(p1, p2).at(i, j), d);
    assert(mul32(a, b).at(r0 + i, c0 + j) == wrap32(d));
}

/// A word that has the word of `d` is the word of `d`.
pub proof fn lemma_word_of(v: int, d: int)
    requires
        wrap32(v) == v,
        congruent(v, d),
    ensures
        v == wrap32(d),
{
}

/// One level of block recursion computes the product: for square matrices of
/// one even side, the matrix put together from the wrapped sums of the
/// wrapped products of the quadrants is the wrapped product.
pub proof fn lemma_block_step(a: IntMatrix, b: IntMatrix)
    requires
        a.rows == a.cols,
        b.rows == b.cols,
        a.rows == b.rows,
        a.rows % 2 == 0,
    ensures
        block_step(a, b) == mul32(a, b),
{
    let h = (a.rows / 2) as int;
    lemma_quadrant_entries(a, h);
    lemma_quadrant_entries(b, h);
    let lhs = block_step(a, b);
    let rhs = mul32(a, b);
    assert forall|i: int, j: int| 0 <= i < rhs.rows && 0 <= j < rhs.cols implies lhs.at(i, j)
        == rhs.at(i, j) by {
        let r0 = if i < h {
            0
        } else {
            h
        };
        let c0 = if j < h {
            0
        } else {
            h
        };
        lemma_block_entry(a, b, h, r0, c0, i - r0, j - c0);
    }
    lemma_same_entries(lhs, rhs);
}

/// The inner product that stands for the entry `(i, j)` of the `k`-th of
/// Strassen's products of the quadrants of `a` and `b`, over the integers:
/// the rows and columns of the quadrants are added and subtracted without
/// reduction to words.
pub open spec fn strassen_inner(k: int, a: IntMatrix, b: IntMatrix, h: int, i: int, j: int)
    -> int {
    let r11 = row_from(a, i, 0);
    let r12 = row_from(a, i, h);
    let r21 = row_from(a, h + i, 0);
    let r22 = row_from(a, h + i, h);
    let c11 = col_from(b, j, 0);
    let c12 = col_from(b, h + j, 0);
    let c21 = col_from(b, j, h);
    let c22 = col_from(b, h + j, h);
    if k == 0 {
        inner(plus(r11, r22), plus(c11, c22), h)
    } else if k == 1 {
        inner(plus(r21, r22), c11, h)
    } else if k == 2 {
        inner(r11, minus(c12, c22), h)
    } else if k == 3 {
        inner(r22, minus(c21, c11), h)
    } else if k == 4 {
        inner(plus(r11, r12), c22, h)
    } else if k == 5 {
        inner(minus(r21, r11), plus(c11, c12), h)
    } else {
        inner(minus(r12, r22), plus(c21, c22), h)
    }
}

/// An entry of the wrapped product of a wrapped sum and a wrapped sum.
pub proof fn lemma_mul32_add_add(
    x1: IntMatrix,
    x2: IntMatrix,
    y1: IntMatrix,
    y2: IntMatrix,
    f1: spec_fn(int) -> int,
    f2: spec_fn(int) -> int,
    g1: spec_fn(int) -> int,
    g2: spec_fn(int) -> int,
    i: int,
    j: int,
)
    requires
        0 <= i < x1.rows,
        0 <= j < y1.cols,
        x1.cols == y1.rows,
        forall|k: int| 0 <= k < x1.cols ==> x1.at(i, k) == #[trigger] f1(k),
        forall|k: int| 0 <= k < x1.cols ==> x2.at(i, k) == #[trigger] f2(k),
        forall|k: int| 0 <= k < x1.cols ==> y1.at(k, j) == #[trigger] g1(k),
        forall|k: int| 0 <= k < x1.cols ==> y2.at(k, j) == #[trigger] g2(k),
    ensures
        congruent(
            mul32(add32(x1, x2), add32(y1, y2)).at(i, j),
            inner(plus(f1, f2), plus(g1, g2), x1.cols as int),
        ),
{
    lemma_row_add32(x1, x2, f1, f2, i);
    lemma_col_add32(y1, y2, g1, g2, j);
    lemma_mul32_entry(add32(x1, x2), add32(y1, y2), plus(f1, f2), plus(g1, g2), i, j);
}

/// An entry of the wrapped product of a wrapped sum and a matrix.
pub proof fn lemma_mul32_add_plain(
    x1: IntMatrix,
    x2: IntMatrix,
    y: IntMatrix,
    f1: spec_fn(int) -> int,
    f2: spec_fn(int) -> int,
    g: spec_fn(int) -> int,
    i: int,
    j: int,
)
    requires
        0 <= i < x1.rows,
        0 <= j < y.cols,
        x1.cols == y.rows,
        forall|k: int| 0 <= k < x1.cols ==> x1.at(i, k) == #[trigger] f1(k),
        forall|k: int| 0 <= k < x1.cols ==> x2.at(i, k) == #[trigger] f2(k),
        forall|k: int| 0 <= k < x1.cols ==> y.at(k, j) == #[trigger] g(k),
    ensures
        congruent(mul32(add32(x1, x2), y).at(i, j), inner(plus(f1, f2), g, x1.cols as int)),
{
    lemma_row_add32(x1, x2, f1, f2, i);
    assert forall|k: int| 0 <= k < x1.cols implies congruent(y.at(k, j), #[trigger] g(k)) by {
        assert(y.at(k, j) == g(k));
    }
    lemma_mul32_entry(add32(x1, x2), y, plus(f1, f2), g, i, j);
}

/// An entry of the wrapped product of a matrix and a wrapped difference.
pub proof fn lemma_mul32_plain_sub(
    x: IntMatrix,
    y1: IntMatrix,
    y2: IntMatrix,
    f: spec_fn(int) -> int,
    g1: spec_fn(int) -> int,
    g2: spec_fn(int) -> int,
    i: int,
    j: int,
)
    requires
        0 <= i < x.rows,
        0 <= j < y1.cols,
        x.cols == y1.rows,
        forall|k: int| 0 <= k < x.cols ==> x.at(i, k) == #[trigger] f(k),
        forall|k: int| 0 <= k < x.cols ==> y1.at(k, j) == #[trigger] g1(k),
        forall|k: int| 0 <= k < x.cols ==> y2.at(k, j) == #[trigger] g2(k),
    ensures
        congruent(mul32(x, sub32(y1, y2)).at(i, j), inner(f, minus(g1, g2), x.cols as int)),
{
    lemma_col_sub32(y1, y2, g1, g2, j);
    assert forall|k: int| 0 <= k < x.cols implies congruent(x.at(i, k), #[trigger] f(k)) by {
        assert(x.at(i, k) == f(k));
    }
    lemma_mul32_entry(x, sub32(y1, y2), f, minus(g1, g2), i, j);
}

/// An entry of the wrapped product of a wrapped difference and a wrapped sum.
pub proof fn lemma_mul32_sub_add(
    x1: IntMatrix,
    x2: IntMatrix,
    y1: IntMatrix,
    y2: IntMatrix,
    f1: spec_fn(int) -> int,
    f2: spec_fn(int) -> int,
    g1: spec_fn(int) -> int,
    g2: spec_fn(int) -> int,
    i: int,
    j: int,
)
    requires
        0 <= i < x1.rows,
        0 <= j < y1.cols,
        x1.cols == y1.rows,
        forall|k: int| 0 <= k < x1.cols ==> x1.at(i, k) == #[trigger] f1(k),
        forall|k: int| 0 <= k < x1.cols ==> x2.at(i, k) == #[trigger] f2(k),
        forall|k: int| 0 <= k < x1.cols ==> y1.at(k, j) == #[trigger] g1(k),
        forall|k: int| 0 <= k < x1.cols ==> y2.at(k, j) == #[trigger] g2(k),
    ensures
        congruent(
            mul32(sub32(x1, x2), add32(y1, y2)).at(i, j),
            inner(minus(f1, f2), plus(g1, g2), x1.cols as int),
        ),
{
    lemma_row_sub32(x1, x2, f1, f2, i);
    lemma_col_add32(y1, y2, g1, g2, j);
    lemma_mul32_entry(sub32(x1, x2), add32(y1, y2), minus(f1, f2), plus(g1, g2), i, j);
}

/// An entry of each of Strassen's seven products has the 32-bit word of the
/// inner product that stands for it over the integers.
pub proof fn lemma_strassen_product_entry(
    k: int,
    a: IntMatrix,
    b: IntMatrix,
    h: int,
    i: int,
    j: int,
)
    requires
        0 <= k < 7,
        a.rows == 2 * h,
        b.rows == 2 * h,
        0 <= i < h,
        0 <= j < h,
    ensures
        congruent(
            strassen_product(k, quadrants(a), quadrants(b)).at(i, j),
            strassen_inner(k, a, b, h, i, j),
        ),
        strassen_product(k, quadrants(a), quadrants(b)).rows == h,
        strassen_product(k, quadrants(a), quadrants(b)).cols == h,
{
    let qa = quadrants(a);
    let qb = quadrants(b);
    let r11 = row_from(a, i, 0);
    let r12 = row_from(a, i, h);
    let r21 = row_from(a, h + i, 0);
    let r22 = row_from(a, h + i, h);
    let c11 = col_from(b, j, 0);
    let c12 = col_from(b, h + j, 0);
    let c21 = col_from(b, j, h);
    let c22 = col_from(b, h + j, h);
    assert(a.rows / 2 == h);
    assert(b.rows / 2 == h);
    lemma_block_lines(a, 0, 0, h, i, j);
    lemma_block_lines(a, 0, h, h, i, j);
    lemma_block_lines(a, h, 0, h, i, j);
    lemma_block_lines(a, h, h, h, i, j);
    lemma_block_lines(b, 0, 0, h, i, j);
    lemma_block_lines(b, 0, h, h, i, j);
    lemma_block_lines(b, h, 0, h, i, j);
    lemma_block_lines(b, h, h, h, i, j);
    assert(row_from(a, 0 + i, 0) == r11);
    assert(row_from(a, 0 + i, h) == r12);
    assert(col_from(b, 0 + j, 0) == c11);
    assert(col_from(b, 0 + j, h) == c21);
    if k == 0 {
        lemma_mul32_add_add(qa.q11, qa.q22, qb.q11, qb.q22, r11, r22, c11, c22, i, j);
    } else if k == 1 {
        lemma_mul32_add_plain(qa.q21, qa.q22, qb.q11, r21, r22, c11, i, j);
    } else if k == 2 {
        lemma_mul32_plain_sub(qa.q11, qb.q12, qb.q22, r11, c12, c22, i, j);
    } else if k == 3 {
        lemma_mul32_plain_sub(qa.q22, qb.q21, qb.q11, r22, c21, c11, i, j);
    } else if k == 4 {
        lemma_mul32_add_plain(qa.q11, qa.q12, qb.q22, r11, r12, c22, i, j);
    } else if k == 5 {
        lemma_mul32_sub_add(qa.q21, qa.q11, qb.q11, qb.q12, r21, r11, c11, c12, i, j);
    } else {
        lemma_mul32_sub_add(qa.q12, qa.q22, qb.q21, qb.q22, r12, r22, c21, c22, i, j);
    }
}

/// An entry of `((x + y) - z) + w`, each step reduced to words, has the word
/// of the same combination of any integers that have the words of the four
/// entries.
pub proof fn lemma_combine_four(
    x: IntMatrix,
    y: IntMatrix,
    z: IntMatrix,
    w: IntMatrix,
    i: int,
    j: int,
    p: int,
    q: int,
    r: int,
    t: int,
)
    requires
        0 <= i < x.rows,
        0 <= j < x.cols,
        congruent(x.at(i, j), p),
        congruent(y.at(i, j), q),
        congruent(z.at(i, j), r),
        congruent(w.at(i, j), t),
    ensures
        congruent(add32(sub32(add32(x, y), z), w).at(i, j), p + q - r + t),
        wrap32(add32(sub32(add32(x, y), z), w).at(i, j)) == add32(sub32(add32(x, y), z), w).at(
            i,
            j,
        ),
{
    lemma_add32_entry(x, y, i, j, p, q);
    lemma_sub32_entry(add32(x, y), z, i, j, p + q, r);
    lemma_add32_entry(sub32(add32(x, y), z), w, i, j, p + q - r, t);
}

/// Strassen's scheme for one entry of each quadrant: in the result of one
/// level of Strassen's recursion on square matrices of side `2 * h`, the
/// entries `(i, j)` of the four quadrants are those of the wrapped product.
pub proof fn lemma_strassen_entry(a: IntMatrix, b: IntMatrix, h: int, i: int, j: int)
    requires
        a.rows == 2 * h,
        a.cols == 2 * h,
        b.rows == 2 * h,
        b.cols == 2 * h,
        0 <= i < h,
        0 <= j < h,
    ensures
        strassen_step(a, b).at(i, j) == mul32(a, b).at(i, j),
        strassen_step(a, b).at(i, h + j) == mul32(a, b).at(i, h + j),
        strassen_step(a, b).at(h + i, j) == mul32(a, b).at(h + i, j),
        strassen_step(a, b).at(h + i, h + j) == mul32(a, b).at(h + i, h + j),
{
    let qa = quadrants(a);
    let qb = quadrants(b);
    let m = Seq::new(7, |k: int| strassen_product(k, qa, qb));
    let p = |k: int| strassen_inner(k, a, b, h, i, j);
    assert forall|k: int| 0 <= k < 7 implies congruent(#[trigger] m[k].at(i, j), p(k)) && m[k].rows
        == h && m[k].cols == h by {
        lemma_strassen_product_entry(k, a, b, h, i, j);
    }
    lemma_strassen_sums(
        row_from(a, i, 0),
        row_from(a, i, h),
        row_from(a, h + i, 0),
        row_from(a, h + i, h),
        col_from(b, j, 0),
        col_from(b, h + j, 0),
        col_from(b, j, h),
        col_from(b, h + j, h),
        h,
    );
    let c11 = add32(sub32(add32(m[0], m[3]), m[4]), m[6]);
    let c12 = add32(m[2], m[4]);
    let c21 = add32(m[1], m[3]);
    let c22 = add32(sub32(add32(m[0], m[2]), m[1]), m[5]);
    assert(c11.at(i, j) == wrap32(dot(a, b, i, j))) by {
        lemma_combine_four(m[0], m[3], m[4], m[6], i, j, p(0), p(3), p(4), p(6));
        lemma_dot_halves(a, b, i, j, h);
        lemma_word_of(c11.at(i, j), dot(a, b, i, j));
    }
    assert(c12.at(i, j) == wrap32(dot(a, b, i, h + j))) by {
        lemma_add32_entry(m[2], m[4], i, j, p(2), p(4));
        lemma_dot_halves(a, b, i, h + j, h);
        lemma_word_of(c12.at(i, j), dot(a, b, i, h + j));
    }
    assert(c21.at(i, j) == wrap32(dot(a, b, h + i, j))) by {
        lemma_add32_entry(m[1], m[3], i, j, p(1), p(3));
        lemma_dot_halves(a, b, h + i, j, h);
        lemma_word_of(c21.at(i, j), dot(a, b, h + i, j));
    }
    assert(c22.at(i, j) == wrap32(dot(a, b, h + i, h + j))) by {
        lemma_combine_four(m[0], m[2], m[1], m[5], i, j, p(0), p(2), p(1), p(5));
        lemma_dot_halves(a, b, h + i, h + j, h);
        lemma_word_of(c22.at(i, j), dot(a, b, h + i, h + j));
    }
    assert(strassen_step(a, b) == assemble(c11, c12, c21, c22));
    assert(c11.rows == h && c11.cols == h);
}

/// One level of Strassen's recursion computes the product: for square
/// matrices of one even side, the matrix that Strassen's scheme makes of the
/// seven wrapped products is the wrapped product.
pub proof fn lemma_strassen_step(a: IntMatrix, b: IntMatrix)
    requires
        a.rows == a.cols,
        b.rows == b.cols,
        a.rows == b.rows,
        a.rows % 2 == 0,
    ensures
        strassen_step(a, b) == mul32(a, b),
{
    let h = (a.rows / 2) as int;
    let lhs = strassen_step(a, b);
    let rhs = mul32(a, b);
    assert(strassen_product(0, quadrants(a), quadrants(b)).rows == h);
    assert(strassen_product(0, quadrants(a), quadrants(b)).cols == h);
    assert(lhs.rows == rhs.rows && lhs.cols == rhs.cols);
    assert forall|i: int, j: int| 0 <= i < rhs.rows && 0 <= j < rhs.cols implies lhs.at(i, j)
        == rhs.at(i, j) by {
        let i0 = if i < h {
            i
        } else {
            i - h
        };
        let j0 = if j < h {
            j
        } else {
            j - h
        };
        lemma_strassen_entry(a, b, h, i0, j0);
    }
    lemma_same_entries(lhs, rhs);
}

} // verus!
