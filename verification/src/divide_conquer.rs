//! Block recursion: the product of two square matrices from the eight
//! products of their quadrants.

use crate::algebra::{add32, lemma_block_entry, lemma_block_step, mul32, quadrants};
use crate::error::MatrixError;
use crate::mat_mul::{added_onto, matmul, multiply_matrix};
use crate::matrix::{
    add_vec, add_views, lemma_block_written, lemma_index_in_bounds, lemma_index_injective,
    lemma_sub_window, lemma_whole_window, merge_quadrants, outcome, outside_window, pos,
    split_view, window_model, zero, Matrix, MatrixView, MatrixViewMut, THRESHOLD,
};
use crate::model::{
    block, dot, lemma_same_entries, product, sum, wrapped, zero_matrix, IntMatrix,
};
use crate::recursive::{
    is_power_of_two, lemma_half_of_pow2, lemma_half_square, lemma_recursive_on_squares,
    lemma_recursive_onto_squares, recursive_multiply_onto_spec, recursive_multiply_spec,
};
use crate::wrap::{lemma_congruent_add, lemma_wrap32_range, wrap32};
use vstd::arithmetic::power2::is_pow2;
use vstd::prelude::*;

verus! {

/// Two windows are square, of one side, and that side is a power of two.
pub open spec fn square_pair(a: MatrixView, b: MatrixView) -> bool {
    &&& a.wf()
    &&& b.wf()
    &&& a.rows == a.cols
    &&& b.rows == b.cols
    &&& a.rows == b.rows
    &&& is_pow2(a.rows as int)
}

/// The product of `a` and `b` by block recursion, with the products of the
/// quadrants forked onto the thread pool. Up to the threshold the iterative
/// kernel does the work.
pub fn divide_and_conquer(a: MatrixView, b: MatrixView) -> (r: Result<Matrix, MatrixError>)
    requires
        a.wf(),
        b.wf(),
        a.rows * b.cols <= usize::MAX,
    ensures
        outcome(r) == recursive_multiply_spec(a.model(), b.model()),
        r matches Ok(m) ==> m.wf(),
    decreases a.rows, 1int,
{
    let n = a.rows;
    if n <= THRESHOLD {
        return multiply_matrix(a, b);
    }
    if a.cols != b.rows {
        return Err(MatrixError::DimensionMismatch);
    }
    if a.cols != n || b.cols != n || !is_power_of_two(n) {
        return Err(MatrixError::InvalidShape);
    }
    let (c11, c12, c21, c22) = compute_blocks_parallel(a, b);
    proof {
        lemma_half_of_pow2(n as int);
        lemma_half_square(n as int);
        a.lemma_size();
        lemma_block_step(a.model(), b.model());
    }
    merge_quadrants(&c11, &c12, &c21, &c22)
}

/// The product of `a` and `b` by block recursion, one quadrant of the result
/// after the other; the two products that make up a quadrant are forked as a
/// pair. Up to the threshold the iterative kernel does the work.
pub fn dc_sequential(a: MatrixView, b: MatrixView) -> (r: Result<Matrix, MatrixError>)
    requires
        a.wf(),
        b.wf(),
        a.rows * b.cols <= usize::MAX,
    ensures
        outcome(r) == recursive_multiply_spec(a.model(), b.model()),
        r matches Ok(m) ==> m.wf(),
{
    let n = a.rows;
    if n <= THRESHOLD {
        return multiply_matrix(a, b);
    }
    if a.cols != b.rows {
        return Err(MatrixError::DimensionMismatch);
    }
    if a.cols != n || b.cols != n || !is_power_of_two(n) {
        return Err(MatrixError::InvalidShape);
    }
    proof {
        lemma_half_of_pow2(n as int);
        lemma_half_square(n as int);
        a.lemma_size();
        a.lemma_entry(n as int / 2, n as int / 2);
        b.lemma_entry(n as int / 2, n as int / 2);
        lemma_block_step(a.model(), b.model());
    }
    let (a11, a12, a21, a22) = split_view(a);
    let (b11, b12, b21, b22) = split_view(b);

    let c11 = compute_block(a11, b11, a12, b21);
    let c12 = compute_block(a11, b12, a12, b22);
    let c21 = compute_block(a21, b11, a22, b21);
    let c22 = compute_block(a21, b12, a22, b22);

    merge_quadrants(&c11, &c12, &c21, &c22)
}

/// The four quadrants of the product of `a` and `b`, each computed by its own
/// task.
fn compute_blocks_parallel(a: MatrixView, b: MatrixView) -> (c: (Matrix, Matrix, Matrix, Matrix))
    requires
        square_pair(a, b),
        a.rows > THRESHOLD,
    ensures
        c.0.wf() && c.1.wf() && c.2.wf() && c.3.wf(),
        c.0.model() == add32(
            mul32(quadrants(a.model()).q11, quadrants(b.model()).q11),
            mul32(quadrants(a.model()).q12, quadrants(b.model()).q21),
        ),
        c.1.model() == add32(
            mul32(quadrants(a.model()).q11, quadrants(b.model()).q12),
            mul32(quadrants(a.model()).q12, quadrants(b.model()).q22),
        ),
        c.2.model() == add32(
            mul32(quadrants(a.model()).q21, quadrants(b.model()).q11),
            mul32(quadrants(a.model()).q22, quadrants(b.model()).q21),
        ),
        c.3.model() == add32(
            mul32(quadrants(a.model()).q21, quadrants(b.model()).q12),
            mul32(quadrants(a.model()).q22, quadrants(b.model()).q22),
        ),
    decreases a.rows, 0int,
{
    proof {
        lemma_half_of_pow2(a.rows as int);
        a.lemma_entry(a.rows as int / 2, a.cols as int / 2);
        b.lemma_entry(b.rows as int / 2, b.cols as int / 2);
    }
    let (a11, a12, a21, a22) = split_view(a);
    let (b11, b12, b21, b22) = split_view(b);

    let ((c11, c12), (c21, c22)) = rayon::join(
        || -> (r: (Matrix, Matrix))
            ensures
                r.0.wf() && r.1.wf(),
                r.0.model() == add32(
                    mul32(a11.model(), b11.model()),
                    mul32(a12.model(), b21.model()),
                ),
                r.1.model() == add32(
                    mul32(a11.model(), b12.model()),
                    mul32(a12.model(), b22.model()),
                )
            {
                rayon::join(
                    || -> (m: Matrix)
                        ensures
                            m.wf(),
                            m.model() == add32(
                                mul32(a11.model(), b11.model()),
                                mul32(a12.model(), b21.model()),
                            )
                        { compute_block(a11, b11, a12, b21) },
                    || -> (m: Matrix)
                        ensures
                            m.wf(),
                            m.model() == add32(
                                mul32(a11.model(), b12.model()),
                                mul32(a12.model(), b22.model()),
                            )
                        { compute_block(a11, b12, a12, b22) },
                )
            },
        || -> (r: (Matrix, Matrix))
            ensures
                r.0.wf() && r.1.wf(),
                r.0.model() == add32(
                    mul32(a21.model(), b11.model()),
                    mul32(a22.model(), b21.model()),
                ),
                r.1.model() == add32(
                    mul32(a21.model(), b12.model()),
                    mul32(a22.model(), b22.model()),
                )
            {
                rayon::join(
                    || -> (m: Matrix)
                        ensures
                            m.wf(),
                            m.model() == add32(
                                mul32(a21.model(), b11.model()),
                                mul32(a22.model(), b21.model()),
                            )
                        { compute_block(a21, b11, a22, b21) },
                    || -> (m: Matrix)
                        ensures
                            m.wf(),
                            m.model() == add32(
                                mul32(a21.model(), b12.model()),
                                mul32(a22.model(), b22.model()),
                            )
                        { compute_block(a21, b12, a22, b22) },
                )
            },
    );

    (c11, c12, c21, c22)
}

/// The sum of the products `a1 * b1` and `a2 * b2`, the two products computed
/// by two tasks.
fn compute_block(a1: MatrixView, b1: MatrixView, a2: MatrixView, b2: MatrixView) -> (m: Matrix)
    requires
        square_pair(a1, b1),
        square_pair(a2, b2),
        a1.rows == a2.rows,
    ensures
        m.wf(),
        m.model() == add32(mul32(a1.model(), b1.model()), mul32(a2.model(), b2.model())),
    decreases a1.rows, 2int,
{
    proof {
        a1.lemma_size();
        a2.lemma_size();
        assert(a1.data@.len() == a1.data.len());
        assert(a2.data@.len() == a2.data.len());
        assert(a1.rows * b1.cols == a1.rows * a1.cols);
        assert(a2.rows * b2.cols == a2.rows * a2.cols);
        lemma_recursive_on_squares(a1.model(), b1.model());
        lemma_recursive_on_squares(a2.model(), b2.model());
    }
    let (t1, t2) = rayon::join(
        || -> (r: Result<Matrix, MatrixError>)
            ensures
                outcome(r) == recursive_multiply_spec(a1.model(), b1.model()),
                r matches Ok(m) ==> m.wf()
            { divide_and_conquer(a1, b1) },
        || -> (r: Result<Matrix, MatrixError>)
            ensures
                outcome(r) == recursive_multiply_spec(a2.model(), b2.model()),
                r matches Ok(m) ==> m.wf()
            { divide_and_conquer(a2, b2) },
    );
    add_vec(&t1.unwrap(), &t2.unwrap()).unwrap()
}

/// One quadrant of a product added onto an output in place. `before` and
/// `after` are the buffer of a square window of side `2 * h` before and
/// after; `part0` and `part` are the buffer of its quadrant at `(r0, c0)` when
/// the quadrant was borrowed and when it was given back, after the wrapped
/// sum of the two wrapped products of quadrants `t1` and `t2` was added onto
/// it. Then the entries of that quadrant are the old entries plus the
/// entries of the product of `a` and `b`, reduced to words, and the window's
/// other entries and the positions outside the window are as before.
pub proof fn lemma_quadrant_onto(
    before: Seq<i32>,
    after: Seq<i32>,
    part0: Seq<i32>,
    part: Seq<i32>,
    stride: int,
    h: int,
    r0: int,
    c0: int,
    a: IntMatrix,
    b: IntMatrix,
    t1: IntMatrix,
    t2: IntMatrix,
)
    requires
        0 < h,
        2 * h <= stride,
        (2 * h - 1) * stride + 2 * h <= before.len(),
        r0 == 0 || r0 == h,
        c0 == 0 || c0 == h,
        a.rows == 2 * h,
        a.cols == 2 * h,
        b.rows == 2 * h,
        b.cols == 2 * h,
        t1 == mul32(block(a, r0, 0, h as nat, h as nat), block(b, 0, c0, h as nat, h as nat)),
        t2 == mul32(block(a, r0, h, h as nat, h as nat), block(b, h, c0, h as nat, h as nat)),
        part0 == before.subrange(pos(r0, c0, stride), before.len() as int),
        part.len() == part0.len(),
        after == before.subrange(0, pos(r0, c0, stride)) + part,
        forall|k: int|
            0 <= k < part.len() && outside_window(k, h, h, stride) ==> part[k] == part0[k],
        window_model(part, h as nat, h as nat, stride) == wrapped(
            sum(window_model(part0, h as nat, h as nat, stride), add32(t1, t2)),
        ),
    ensures
        after.len() == before.len(),
        forall|i: int, j: int|
            r0 <= i < r0 + h && c0 <= j < c0 + h ==> after[#[trigger] pos(i, j, stride)] == wrap32(
                before[pos(i, j, stride)] + dot(a, b, i, j),
            ),
        forall|i: int, j: int|
            0 <= i < 2 * h && 0 <= j < 2 * h && !(r0 <= i < r0 + h && c0 <= j < c0 + h)
                ==> after[#[trigger] pos(i, j, stride)] == before[pos(i, j, stride)],
        forall|k: int|
            0 <= k < before.len() && outside_window(k, 2 * h, 2 * h, stride) ==> after[k]
                == before[k],
{
    let off = pos(r0, c0, stride);
    lemma_index_in_bounds(r0, c0, 2 * h, 2 * h, stride, before.len() as int);
    lemma_sub_window(before, 2 * h, 2 * h, stride, r0, c0, h, h);
    lemma_block_written(before, after, part, 2 * h, 2 * h, stride, r0, c0, h, h);
    let m0 = window_model(part0, h as nat, h as nat, stride);
    let m1 = window_model(part, h as nat, h as nat, stride);
    assert forall|i: int, j: int| r0 <= i < r0 + h && c0 <= j < c0 + h implies after[
    #[trigger] pos(i, j, stride)] == wrap32(before[pos(i, j, stride)] + dot(a, b, i, j)) by {
        let i2 = i - r0;
        let j2 = j - c0;
        assert(0 <= pos(i2, j2, stride) < before.len() - off && off + pos(i2, j2, stride) == pos(
            r0 + i2,
            c0 + j2,
            stride,
        ));
        assert(after[pos(r0 + i2, c0 + j2, stride)] == part[pos(i2, j2, stride)]);
        assert(m1.at(i2, j2) == part[pos(i2, j2, stride)]);
        assert(m0.at(i2, j2) == before[pos(i, j, stride)]);
        lemma_block_entry(a, b, h, r0, c0, i2, j2);
        assert(mul32(a, b).at(i, j) == wrap32(dot(a, b, i, j)));
        assert(m1.at(i2, j2) == wrap32(m0.at(i2, j2) + add32(t1, t2).at(i2, j2)));
        lemma_wrap32_range(dot(a, b, i, j));
        lemma_congruent_add(
            m0.at(i2, j2),
            m0.at(i2, j2),
            wrap32(dot(a, b, i, j)),
            dot(a, b, i, j),
        );
    }
}

/// Adds the wrapped sum of the windows `t1` and `t2` onto the quadrant of the
/// window `c` that starts at row `r0`, column `c0`, where `t1` and `t2` hold
/// the two wrapped products of quadrants of `a` and `b` that make up that
/// quadrant of their product. The window is no smaller than the product. The
/// entries of the quadrant become the old entries plus those of the product,
/// reduced to words; nothing else is written.
fn add_onto_quadrant(
    t1: &MatrixViewMut,
    t2: &MatrixViewMut,
    c: &mut MatrixViewMut,
    r0: usize,
    c0: usize,
    Ghost(a): Ghost<IntMatrix>,
    Ghost(b): Ghost<IntMatrix>,
)
    requires
        t1.wf(),
        t2.wf(),
        old(c).wf(),
        old(c).rows >= 2 * t1.rows,
        old(c).cols >= 2 * t1.rows,
        t1.rows > 0,
        r0 == 0 || r0 == t1.rows,
        c0 == 0 || c0 == t1.rows,
        a.rows == 2 * t1.rows,
        a.cols == 2 * t1.rows,
        b.rows == 2 * t1.rows,
        b.cols == 2 * t1.rows,
        t1.model() == mul32(
            block(a, r0 as int, 0, t1.rows as nat, t1.rows as nat),
            block(b, 0, c0 as int, t1.rows as nat, t1.rows as nat),
        ),
        t2.model() == mul32(
            block(a, r0 as int, t1.rows as int, t1.rows as nat, t1.rows as nat),
            block(b, t1.rows as int, c0 as int, t1.rows as nat, t1.rows as nat),
        ),
    ensures
        final(c).same_window(old(c)),
        final(final(c).data)@ == final(old(c).data)@,
        quadrant_added(
            old(c).data@,
            final(c).data@,
            old(c).rows as int,
            old(c).cols as int,
            old(c).stride as int,
            t1.rows as int,
            r0 as int,
            c0 as int,
            a,
            b,
        ),
{
    let half = t1.rows;
    let ghost h = half as int;
    let ghost s = c.stride as int;
    let ghost rows = c.rows as int;
    let ghost cols = c.cols as int;
    let ghost d0 = c.data@;
    proof {
        lemma_index_in_bounds(2 * h - 1, 2 * h - 1, rows, cols, s, d0.len() as int);
        lemma_index_in_bounds(r0 as int, c0 as int, 2 * h, 2 * h, s, d0.len() as int);
        lemma_sub_window(d0, 2 * h, 2 * h, s, r0 as int, c0 as int, h, h);
    }
    let ghost part;
    {
        let mut quadrant = c.sub_view(r0, c0, half, half);
        let ghost part0 = quadrant.data@;
        let _ = add_views(t1, t2, &mut quadrant);
        proof {
            part = quadrant.data@;
            lemma_quadrant_onto(
                d0,
                d0.subrange(0, pos(r0 as int, c0 as int, s)) + part,
                part0,
                part,
                s,
                h,
                r0 as int,
                c0 as int,
                a,
                b,
                t1.model(),
                t2.model(),
            );
        }
    }
    proof {
        let d1 = c.data@;
        assert forall|i: int, j: int|
            0 <= i < rows && 0 <= j < cols && !(r0 <= i < r0 + h && c0 <= j < c0 + h) implies d1[
        #[trigger] pos(i, j, s)] == d0[pos(i, j, s)] by {
            if !(i < 2 * h && j < 2 * h) {
                lemma_index_in_bounds(i, j, rows, cols, s, d0.len() as int);
                lemma_outside_corner(i, j, rows, cols, s, 2 * h);
            }
        }
        assert forall|k: int| 0 <= k < d0.len() && outside_window(k, rows, cols, s) implies d1[k]
            == d0[k] by {
            assert forall|i2: int, j2: int| 0 <= i2 < 2 * h && 0 <= j2 < 2 * h implies k
                != #[trigger] pos(i2, j2, s) by {}
        }
    }
}

/// An entry of a window that lies outside the square of side `n` in its
/// top-left corner lies at none of the positions of that square.
pub proof fn lemma_outside_corner(i: int, j: int, rows: int, cols: int, stride: int, n: int)
    requires
        0 <= i < rows,
        0 <= j < cols,
        cols <= stride,
        n <= cols,
        !(i < n && j < n),
    ensures
        outside_window(pos(i, j, stride), n, n, stride),
{
    assert forall|i2: int, j2: int| 0 <= i2 < n && 0 <= j2 < n implies pos(i, j, stride)
        != #[trigger] pos(i2, j2, stride) by {
        if pos(i, j, stride) == pos(i2, j2, stride) {
            lemma_index_injective(i, j, i2, j2, cols, stride);
        }
    }
}

/// A window whose four top-left quadrants of side `h` have had the quadrants
/// of the product of `a` and `b` added onto them, one after the other, has
/// had the product added onto it.
pub proof fn lemma_four_quadrants(
    d0: Seq<i32>,
    d1: Seq<i32>,
    d2: Seq<i32>,
    d3: Seq<i32>,
    d4: Seq<i32>,
    rows: int,
    cols: int,
    s: int,
    h: int,
    a: IntMatrix,
    b: IntMatrix,
)
    requires
        0 < h,
        2 * h <= rows,
        2 * h <= cols,
        a.rows == 2 * h,
        b.cols == 2 * h,
        quadrant_added(d0, d1, rows, cols, s, h, 0, 0, a, b),
        quadrant_added(d1, d2, rows, cols, s, h, 0, h, a, b),
        quadrant_added(d2, d3, rows, cols, s, h, h, 0, a, b),
        quadrant_added(d3, d4, rows, cols, s, h, h, h, a, b),
    ensures
        window_model(d4, rows as nat, cols as nat, s) == added_onto(
            window_model(d0, rows as nat, cols as nat, s),
            a,
            b,
        ),
{
    let got = window_model(d4, rows as nat, cols as nat, s);
    let want = added_onto(window_model(d0, rows as nat, cols as nat, s), a, b);
    assert forall|i: int, j: int| 0 <= i < rows && 0 <= j < cols implies got.at(i, j) == want.at(
        i,
        j,
    ) by {
        let k = pos(i, j, s);
        let v = wrap32(d0[k] + dot(a, b, i, j));
        if i < h && j < h {
            assert(d1[k] == v && d2[k] == d1[k] && d3[k] == d2[k] && d4[k] == d3[k]);
        } else if i < h && j < 2 * h {
            assert(d1[k] == d0[k] && d2[k] == v && d3[k] == d2[k] && d4[k] == d3[k]);
        } else if i < 2 * h && j < h {
            assert(d1[k] == d0[k] && d2[k] == d1[k] && d3[k] == v && d4[k] == d3[k]);
        } else if i < 2 * h && j < 2 * h {
            assert(d1[k] == d0[k] && d2[k] == d1[k] && d3[k] == d2[k] && d4[k] == v);
        } else {
            assert(d1[k] == d0[k] && d2[k] == d1[k] && d3[k] == d2[k] && d4[k] == d3[k]);
        }
    }
    lemma_same_entries(got, want);
}

/// Between the buffers `before` and `after` of a window of the given shape,
/// the quadrant of side `h` of the product of `a` and `b` at `(r0, c0)` has
/// been added onto those entries of the window, and the other entries of the
/// window are as they were.
pub open spec fn quadrant_added(
    before: Seq<i32>,
    after: Seq<i32>,
    rows: int,
    cols: int,
    s: int,
    h: int,
    r0: int,
    c0: int,
    a: IntMatrix,
    b: IntMatrix,
) -> bool {
    &&& forall|i: int, j: int|
        r0 <= i < r0 + h && c0 <= j < c0 + h ==> after[#[trigger] pos(i, j, s)] == wrap32(
            before[pos(i, j, s)] + dot(a, b, i, j),
        )
    &&& forall|i: int, j: int|
        0 <= i < rows && 0 <= j < cols && !(r0 <= i < r0 + h && c0 <= j < c0 + h)
            ==> after[#[trigger] pos(i, j, s)] == before[pos(i, j, s)]
}

/// Adds the product of `a` and `b` onto the top-left entries of the window
/// `c` by block recursion, in place and without forking: each quadrant of the
/// product is gathered in two scratch buffers that are cleared and used again
/// for the next quadrant. Up to the threshold the iterative kernel does the
/// work. The window may have more rows or columns than the product; its
/// other entries, and everything outside the window, are not written. Where
/// the shapes are refused, `c` is left as it was.
pub fn dc_view(a: MatrixView, b: MatrixView, c: &mut MatrixViewMut) -> (r: Result<(), MatrixError>)
    requires
        a.wf(),
        b.wf(),
        old(c).wf(),
    ensures
        final(c).same_window(old(c)),
        final(final(c).data)@ == final(old(c).data)@,
        match r {
            Ok(_) => recursive_multiply_onto_spec(old(c).model(), a.model(), b.model()) == Ok::<
                IntMatrix,
                MatrixError,
            >(final(c).model()),
            Err(e) => recursive_multiply_onto_spec(old(c).model(), a.model(), b.model()) == Err::<
                IntMatrix,
                MatrixError,
            >(e) && final(c).buffer() == old(c).buffer(),
        },
    decreases a.rows,
{
    let n = a.rows;

    // Base case: small enough, do iterative multiplication
    if n <= THRESHOLD {
        return matmul(a, b, c);
    }
    if a.cols != b.rows || c.rows < a.rows || c.cols < b.cols {
        return Err(MatrixError::DimensionMismatch);
    }
    if a.cols != n || b.cols != n || !is_power_of_two(n) {
        return Err(MatrixError::InvalidShape);
    }
    let half = n / 2;
    let ghost am = a.model();
    let ghost bm = b.model();
    let ghost s = c.stride as int;
    let ghost h = half as int;
    let ghost d0 = c.data@;
    proof {
        lemma_half_of_pow2(n as int);
        lemma_half_square(n as int);
        a.lemma_size();
        assert(a.data@.len() == a.data.len());
        a.lemma_entry(h, h);
        b.lemma_entry(h, h);
    }
    let (a11, a12, a21, a22) = split_view(a);
    let (b11, b12, b21, b22) = split_view(b);

    // Allocate temporary buffers for partial results
    let mut t1 = vec![0; half * half];
    let mut t2 = vec![0; half * half];
    proof {
        lemma_whole_window(h, h);
    }
    let mut t1v = MatrixViewMut { data: t1.as_mut_slice(), rows: half, cols: half, stride: half };
    let mut t2v = MatrixViewMut { data: t2.as_mut_slice(), rows: half, cols: half, stride: half };
    proof {
        assert forall|i: int, j: int| 0 <= i < h && 0 <= j < h implies t1v.model().at(i, j) == 0
            && t2v.model().at(i, j) == 0 by {
            lemma_index_in_bounds(i, j, h, h, h, h * h);
        }
        lemma_same_entries(t1v.model(), zero_matrix(half as nat, half as nat));
        lemma_same_entries(t2v.model(), zero_matrix(half as nat, half as nat));
    }

    // -------- C11 = A11*B11 + A12*B21 --------
    {
        proof {
            lemma_recursive_onto_squares(t1v.model(), a11.model(), b11.model());
            lemma_recursive_onto_squares(t2v.model(), a12.model(), b21.model());
        }
        let _ = dc_view(a11, b11, &mut t1v);
        let _ = dc_view(a12, b21, &mut t2v);
        add_onto_quadrant(&t1v, &t2v, c, 0, 0, Ghost(am), Ghost(bm));
    }
    let ghost d1 = c.data@;

    // -------- C12 = A11*B12 + A12*B22 --------
    {
        zero(&mut t1v);
        zero(&mut t2v);
        proof {
            lemma_recursive_onto_squares(t1v.model(), a11.model(), b12.model());
            lemma_recursive_onto_squares(t2v.model(), a12.model(), b22.model());
        }
        let _ = dc_view(a11, b12, &mut t1v);
        let _ = dc_view(a12, b22, &mut t2v);
        add_onto_quadrant(&t1v, &t2v, c, 0, half, Ghost(am), Ghost(bm));
    }
    let ghost d2 = c.data@;

    // -------- C21 = A21*B11 + A22*B21 --------
    {
        zero(&mut t1v);
        zero(&mut t2v);
        proof {
            lemma_recursive_onto_squares(t1v.model(), a21.model(), b11.model());
            lemma_recursive_onto_squares(t2v.model(), a22.model(), b21.model());
        }
        let _ = dc_view(a21, b11, &mut t1v);
        let _ = dc_view(a22, b21, &mut t2v);
        add_onto_quadrant(&t1v, &t2v, c, half, 0, Ghost(am), Ghost(bm));
    }
    let ghost d3 = c.data@;

    // -------- C22 = A21*B12 + A22*B22 --------
    {
        zero(&mut t1v);
        zero(&mut t2v);
        proof {
            lemma_recursive_onto_squares(t1v.model(), a21.model(), b12.model());
            lemma_recursive_onto_squares(t2v.model(), a22.model(), b22.model());
        }
        let _ = dc_view(a21, b12, &mut t1v);
        let _ = dc_view(a22, b22, &mut t2v);
        add_onto_quadrant(&t1v, &t2v, c, half, half, Ghost(am), Ghost(bm));
    }
    proof {
        lemma_four_quadrants(
            d0,
            d1,
            d2,
            d3,
            c.data@,
            c.rows as int,
            c.cols as int,
            s,
            h,
            am,
            bm,
        );
    }
    Ok(())
}

/// Adds the product of `a` and `b` onto the top-left entries of the window
/// `c` by block recursion, in place and without forking, as `dc_view` does,
/// but with scratch buffers of its own for every product of quadrants: no
/// buffer is used twice, so none has to be cleared. Up to the threshold the
/// iterative kernel does the work. The window may have more rows or columns
/// than the product; its other entries, and everything outside the window,
/// are not written. Where the shapes are refused, `c` is left as it was.
pub fn my_dc(a: MatrixView, b: MatrixView, c: &mut MatrixViewMut) -> (r: Result<(), MatrixError>)
    requires
        a.wf(),
        b.wf(),
        old(c).wf(),
    ensures
        final(c).same_window(old(c)),
        final(final(c).data)@ == final(old(c).data)@,
        match r {
            Ok(_) => recursive_multiply_onto_spec(old(c).model(), a.model(), b.model()) == Ok::<
                IntMatrix,
                MatrixError,
            >(final(c).model()),
            Err(e) => recursive_multiply_onto_spec(old(c).model(), a.model(), b.model()) == Err::<
                IntMatrix,
                MatrixError,
            >(e) && final(c).buffer() == old(c).buffer(),
        },
    decreases a.rows, 1int,
{
    let n = a.rows;

    if n <= THRESHOLD {
        return matmul(a, b, c);
    }
    if a.cols != b.rows || c.rows < a.rows || c.cols < b.cols {
        return Err(MatrixError::DimensionMismatch);
    }
    if a.cols != n || b.cols != n || !is_power_of_two(n) {
        return Err(MatrixError::InvalidShape);
    }
    let half = n / 2;
    let ghost am = a.model();
    let ghost bm = b.model();
    let ghost s = c.stride as int;
    let ghost h = half as int;
    let ghost d0 = c.data@;
    proof {
        lemma_half_of_pow2(n as int);
        lemma_whole_window(h, h);
        a.lemma_entry(h, h);
        b.lemma_entry(h, h);
    }
    let (a11, a12, a21, a22) = split_view(a);
    let (b11, b12, b21, b22) = split_view(b);

    // C11
    {
        let mut t1 = scratch_product(a11, b11);
        let mut t2 = scratch_product(a12, b21);
        let t1v = MatrixViewMut { data: t1.as_mut_slice(), rows: half, cols: half, stride: half };
        let t2v = MatrixViewMut { data: t2.as_mut_slice(), rows: half, cols: half, stride: half };
        add_onto_quadrant(&t1v, &t2v, c, 0, 0, Ghost(am), Ghost(bm));
    }
    let ghost d1 = c.data@;

    // C12
    {
        let mut t1 = scratch_product(a11, b12);
        let mut t2 = scratch_product(a12, b22);
        let t1v = MatrixViewMut { data: t1.as_mut_slice(), rows: half, cols: half, stride: half };
        let t2v = MatrixViewMut { data: t2.as_mut_slice(), rows: half, cols: half, stride: half };
        add_onto_quadrant(&t1v, &t2v, c, 0, half, Ghost(am), Ghost(bm));
    }
    let ghost d2 = c.data@;

    // C21
    {
        let mut t1 = scratch_product(a21, b11);
        let mut t2 = scratch_product(a22, b21);
        let t1v = MatrixViewMut { data: t1.as_mut_slice(), rows: half, cols: half, stride: half };
        let t2v = MatrixViewMut { data: t2.as_mut_slice(), rows: half, cols: half, stride: half };
        add_onto_quadrant(&t1v, &t2v, c, half, 0, Ghost(am), Ghost(bm));
    }
    let ghost d3 = c.data@;

    // C22
    {
        let mut t1 = scratch_product(a21, b12);
        let mut t2 = scratch_product(a22, b22);
        let t1v = MatrixViewMut { data: t1.as_mut_slice(), rows: half, cols: half, stride: half };
        let t2v = MatrixViewMut { data: t2.as_mut_slice(), rows: half, cols: half, stride: half };
        add_onto_quadrant(&t1v, &t2v, c, half, half, Ghost(am), Ghost(bm));
    }
    proof {
        lemma_four_quadrants(
            d0,
            d1,
            d2,
            d3,
            c.data@,
            c.rows as int,
            c.cols as int,
            s,
            h,
            am,
            bm,
        );
    }
    Ok(())
}

/// The product of two square windows of one side, that side a power of two,
/// gathered by `my_dc` in a new buffer of its own that holds the product row
/// by row.
fn scratch_product(a: MatrixView, b: MatrixView) -> (t: Vec<i32>)
    requires
        square_pair(a, b),
    ensures
        t@.len() == a.rows * a.rows,
        window_model(t@, a.rows as nat, a.rows as nat, a.rows as int) == mul32(
            a.model(),
            b.model(),
        ),
    decreases a.rows, 2int,
{
    let side = a.rows;
    let ghost h = side as int;
    proof {
        a.lemma_size();
        assert(a.data@.len() == a.data.len());
        lemma_whole_window(h, h);
    }
    let mut t = vec![0; side * side];
    {
        let mut tv = MatrixViewMut { data: t.as_mut_slice(), rows: side, cols: side, stride: side };
        proof {
            assert forall|i: int, j: int| 0 <= i < h && 0 <= j < h implies tv.model().at(i, j)
                == 0 by {
                lemma_index_in_bounds(i, j, h, h, h, h * h);
            }
            lemma_same_entries(tv.model(), zero_matrix(side as nat, side as nat));
            lemma_recursive_onto_squares(tv.model(), a.model(), b.model());
        }
        let _ = my_dc(a, b, &mut tv);
    }
    t
}

} // verus!
