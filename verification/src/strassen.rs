//! Strassen's algorithm: seven recursive products of sums and differences of
//! quadrants in place of eight products of quadrants.

use crate::algebra::{
    lemma_strassen_step, quadrants, strassen_combine, strassen_product, Quadrants,
};
use crate::error::MatrixError;
use crate::mat_mul::multiply_matrix;
use crate::matrix::{
    add_vec, merge_quadrants, outcome, same_shape, split_view, Matrix, MatrixView, THRESHOLD,
};
use crate::matrix_op::sub_vec;
use crate::model::IntMatrix;
use crate::recursive::{
    is_power_of_two, lemma_half_of_pow2, lemma_half_square, lemma_recursive_on_squares,
    recursive_multiply_spec,
};
use vstd::arithmetic::power2::is_pow2;
use vstd::prelude::*;

verus! {

/// The product of `a` and `b` by Strassen's algorithm, one product after the
/// other. Up to the threshold the iterative kernel does the work.
pub fn strassen_sequential(a: MatrixView, b: MatrixView) -> (r: Result<Matrix, MatrixError>)
    requires
        a.wf(),
        b.wf(),
        a.rows * b.cols <= usize::MAX,
    ensures
        outcome(r) == recursive_multiply_spec(a.model(), b.model()),
        r matches Ok(m) ==> m.wf(),
    decreases a.rows,
{
    let n = a.rows;
    if n <= THRESHOLD {
        return multiply_matrix(a, b);
    }
    if a.cols != b.rows {
        return Err(MatrixError::DimensionMismatch);
    }
    if a.cols != n || b.cols != n || !is_power_of_two(n) {
        return Err(MatrixError::InvalidShape);
    }
    let half = n / 2;
    proof {
        lemma_half_of_pow2(n as int);
        lemma_half_square(n as int);
        a.lemma_entry(half as int, half as int);
        b.lemma_entry(half as int, half as int);
        assert(0 * a.stride == 0 && 0 * b.stride == 0) by (nonlinear_arith);
    }
    let a11 = a.sub_view(0, 0, half, half);
    let a12 = a.sub_view(0, half, half, half);
    let a21 = a.sub_view(half, 0, half, half);
    let a22 = a.sub_view(half, half, half, half);

    let b11 = b.sub_view(0, 0, half, half);
    let b12 = b.sub_view(0, half, half, half);
    let b21 = b.sub_view(half, 0, half, half);
    let b22 = b.sub_view(half, half, half, half);

    let ghost qa = quadrants(a.model());
    let ghost qb = quadrants(b.model());
    proof {
        assert(a11.model() == qa.q11 && a12.model() == qa.q12);
        assert(a21.model() == qa.q21 && a22.model() == qa.q22);
        assert(b11.model() == qb.q11 && b12.model() == qb.q12);
        assert(b21.model() == qb.q21 && b22.model() == qb.q22);
    }

    let s1 = add_vec(&a11.to_matrix(), &a22.to_matrix())?;
    let t1 = add_vec(&b11.to_matrix(), &b22.to_matrix())?;
    proof {
        lemma_recursive_on_squares(s1.model(), t1.model());
    }
    let m1 = strassen_sequential(s1.view(), t1.view())?;

    let s2 = add_vec(&a21.to_matrix(), &a22.to_matrix())?;
    proof {
        lemma_recursive_on_squares(s2.model(), b11.model());
    }
    let m2 = strassen_sequential(s2.view(), b11)?;

    let t3 = sub_vec(&b12, &b22)?;
    proof {
        lemma_recursive_on_squares(a11.model(), t3.model());
    }
    let m3 = strassen_sequential(a11, t3.view())?;

    let t4 = sub_vec(&b21, &b11)?;
    proof {
        lemma_recursive_on_squares(a22.model(), t4.model());
    }
    let m4 = strassen_sequential(a22, t4.view())?;

    let s5 = add_vec(&a11.to_matrix(), &a12.to_matrix())?;
    proof {
        lemma_recursive_on_squares(s5.model(), b22.model());
    }
    let m5 = strassen_sequential(s5.view(), b22)?;

    let s6 = sub_vec(&a21, &a11)?;
    let t6 = add_vec(&b11.to_matrix(), &b12.to_matrix())?;
    proof {
        lemma_recursive_on_squares(s6.model(), t6.model());
    }
    let m6 = strassen_sequential(s6.view(), t6.view())?;

    let s7 = sub_vec(&a12, &a22)?;
    let t7 = add_vec(&b21.to_matrix(), &b22.to_matrix())?;
    proof {
        lemma_recursive_on_squares(s7.model(), t7.model());
    }
    let m7 = strassen_sequential(s7.view(), t7.view())?;

    let c11 = add_vec(&sub_vec(&add_vec(&m1, &m4)?.view(), &m5.view())?, &m7)?;
    let c12 = add_vec(&m3, &m5)?;
    let c21 = add_vec(&m2, &m4)?;
    let c22 = add_vec(&sub_vec(&add_vec(&m1, &m3)?.view(), &m2.view())?, &m6)?;

    let c = merge_quadrants(&c11, &c12, &c21, &c22)?;
    proof {
        let products = Seq::new(7, |k: int| strassen_product(k, qa, qb));
        assert(m1.model() == products[0]);
        assert(m2.model() == products[1]);
        assert(m3.model() == products[2]);
        assert(m4.model() == products[3]);
        assert(m5.model() == products[4]);
        assert(m6.model() == products[5]);
        assert(m7.model() == products[6]);
        assert(c.model() == strassen_combine(products));
        lemma_strassen_step(a.model(), b.model());
    }
    Ok(c)
}

/// The four quadrants of a matrix as windows, in the order top-left,
/// top-right, bottom-left, bottom-right.
pub type Blocks<'a> = (MatrixView<'a>, MatrixView<'a>, MatrixView<'a>, MatrixView<'a>);

/// The quadrants that the windows `q` stand for.
pub open spec fn block_models(q: Blocks) -> Quadrants {
    Quadrants { q11: q.0.model(), q12: q.1.model(), q21: q.2.model(), q22: q.3.model() }
}

/// The windows `a` and `b` are the quadrants of two square factors of one
/// side, that side a power of two: all eight are well formed and square, of
/// one side, and that side is a power of two.
pub open spec fn strassen_operands(a: Blocks, b: Blocks) -> bool {
    &&& is_pow2(a.0.rows as int)
    &&& half_sized(a.0, a.0) && half_sized(a.1, a.0) && half_sized(a.2, a.0) && half_sized(a.3, a.0)
    &&& half_sized(b.0, a.0) && half_sized(b.1, a.0) && half_sized(b.2, a.0) && half_sized(b.3, a.0)
}

/// The window `v` is well formed and square, of the side of `w`.
pub open spec fn half_sized(v: MatrixView, w: MatrixView) -> bool {
    v.wf() && v.rows == w.rows && v.cols == w.rows
}

/// The `k`-th of Strassen's seven products of the quadrants `a` and `b`,
/// counted from zero, by a recursive call of the parallel algorithm.
pub fn strassen_term(k: usize, a: Blocks, b: Blocks) -> (m: Matrix)
    requires
        k < 7,
        strassen_operands(a, b),
    ensures
        m.wf(),
        m.model() == strassen_product(k as int, block_models(a), block_models(b)),
{
    let (a11, a12, a21, a22) = a;
    let (b11, b12, b21, b22) = b;
    proof {
        a11.lemma_size();
        assert(a11.data@.len() == a11.data.len());
    }
    let r = if k == 0 {
        let s = add_vec(&a11.to_matrix(), &a22.to_matrix()).unwrap();
        let t = add_vec(&b11.to_matrix(), &b22.to_matrix()).unwrap();
        proof {
            lemma_recursive_on_squares(s.model(), t.model());
        }
        strassen(s.view(), t.view())
    } else if k == 1 {
        let s = add_vec(&a21.to_matrix(), &a22.to_matrix()).unwrap();
        proof {
            lemma_recursive_on_squares(s.model(), b11.model());
        }
        strassen(s.view(), b11)
    } else if k == 2 {
        let t = sub_vec(&b12, &b22).unwrap();
        proof {
            lemma_recursive_on_squares(a11.model(), t.model());
        }
        strassen(a11, t.view())
    } else if k == 3 {
        let t = sub_vec(&b21, &b11).unwrap();
        proof {
            lemma_recursive_on_squares(a22.model(), t.model());
        }
        strassen(a22, t.view())
    } else if k == 4 {
        let s = add_vec(&a11.to_matrix(), &a12.to_matrix()).unwrap();
        proof {
            lemma_recursive_on_squares(s.model(), b22.model());
        }
        strassen(s.view(), b22)
    } else if k == 5 {
        let s = sub_vec(&a21, &a11).unwrap();
        let t = add_vec(&b11.to_matrix(), &b12.to_matrix()).unwrap();
        proof {
            lemma_recursive_on_squares(s.model(), t.model());
        }
        strassen(s.view(), t.view())
    } else {
        let s = sub_vec(&a12, &a22).unwrap();
        let t = add_vec(&b21.to_matrix(), &b22.to_matrix()).unwrap();
        proof {
            lemma_recursive_on_squares(s.model(), t.model());
        }
        strassen(s.view(), t.view())
    };
    r.unwrap()
}

/// The product of `a` and `b` by Strassen's algorithm, with the seven
/// products forked onto the thread pool. Up to the threshold the iterative
/// kernel does the work.
///
/// The recursion runs through the tasks of `compute_matrices_parallel`, which
/// call `strassen_term` and through it this function on factors of half the
/// side; it ends because the side halves at every level. The verifier does
/// not see that cycle, so it is not checked.
pub fn strassen(a: MatrixView, b: MatrixView) -> (r: Result<Matrix, MatrixError>)
    requires
        a.wf(),
        b.wf(),
        a.rows * b.cols <= usize::MAX,
    ensures
        outcome(r) == recursive_multiply_spec(a.model(), b.model()),
        r matches Ok(m) ==> m.wf(),
{
    let n = a.rows;
    if n <= THRESHOLD {
        return multiply_matrix(a, b);
    }
    if a.cols != b.rows {
        return Err(MatrixError::DimensionMismatch);
    }
    if a.cols != n || b.cols != n || !is_power_of_two(n) {
        return Err(MatrixError::InvalidShape);
    }
    proof {
        lemma_half_of_pow2(n as int);
        lemma_half_square(n as int);
        a.lemma_size();
        a.lemma_entry(n as int / 2, n as int / 2);
        b.lemma_entry(n as int / 2, n as int / 2);
    }
    let a_blocks = split_view(a);
    let b_blocks = split_view(b);
    let slots = [
        Matrix::new(0, 0),
        Matrix::new(0, 0),
        Matrix::new(0, 0),
        Matrix::new(0, 0),
        Matrix::new(0, 0),
        Matrix::new(0, 0),
        Matrix::new(0, 0),
    ];
    let matrices = compute_matrices_parallel(a_blocks, b_blocks, slots);
    proof {
        let qa = quadrants(a.model());
        let qb = quadrants(b.model());
        assert(block_models(a_blocks) == qa);
        assert(block_models(b_blocks) == qb);
        let products = Seq::new(7, |k: int| strassen_product(k, qa, qb));
        assert forall|k: int| 0 <= k < 7 implies (#[trigger] matrices@[k]).model()
            == products[k] by {}
        assert(models_of(matrices@) =~= products);
        lemma_strassen_step(a.model(), b.model());
    }
    combine_result(matrices)
}

/// The models of a sequence of matrices.
pub open spec fn models_of(m: Seq<Matrix>) -> Seq<IntMatrix> {
    Seq::new(m.len(), |k: int| m[k].model())
}

/// What `combine_result` returns for seven products: what Strassen's scheme
/// makes of them, or `ShapeMismatch` where they are not all of one shape.
pub open spec fn combine_spec(m: Seq<IntMatrix>) -> Result<IntMatrix, MatrixError> {
    if forall|k: int| 0 <= k < 7 ==> same_shape(#[trigger] m[k], m[0]) {
        Ok(strassen_combine(m))
    } else {
        Err(MatrixError::ShapeMismatch)
    }
}

/// Strassen's seven products of the quadrants `a` and `b`, each computed by
/// its own task of one fork-join scope, in the order of `strassen_term`. The
/// matrices in `slots` are replaced by the products.
///
/// The body hands seven closures to `rayon::scope` through `Scope::spawn`;
/// the `k`-th stores the result of `strassen_term(k, a, b)`. The scope
/// returns when every task spawned in it has run to its end, so each entry of
/// the result is what `strassen_term` returned for its index: that is what
/// the contract states, in the words of the contract of `strassen_term`.
#[verifier::external_body]
fn compute_matrices_parallel(a: Blocks, b: Blocks, slots: [Matrix; 7]) -> (m: [Matrix; 7])
    requires
        strassen_operands(a, b),
    ensures
        forall|k: int|
            0 <= k < 7 ==> (#[trigger] m@[k]).wf() && m@[k].model() == strassen_product(
                k,
                block_models(a),
                block_models(b),
            ),
{
    let mut m = slots;
    let [m1, m2, m3, m4, m5, m6, m7] = &mut m;
    rayon::scope(|s| {
        s.spawn(|_| *m1 = strassen_term(0, a, b));
        s.spawn(|_| *m2 = strassen_term(1, a, b));
        s.spawn(|_| *m3 = strassen_term(2, a, b));
        s.spawn(|_| *m4 = strassen_term(3, a, b));
        s.spawn(|_| *m5 = strassen_term(4, a, b));
        s.spawn(|_| *m6 = strassen_term(5, a, b));
        s.spawn(|_| *m7 = strassen_term(6, a, b));
    });
    m
}

/// The result that Strassen's scheme makes of its seven products.
pub fn combine_result(m: [Matrix; 7]) -> (r: Result<Matrix, MatrixError>)
    requires
        forall|k: int| 0 <= k < 7 ==> (#[trigger] m@[k]).wf(),
        2 * m@[0].rows <= usize::MAX,
        2 * m@[0].cols <= usize::MAX,
        (2 * m@[0].rows) * (2 * m@[0].cols) <= usize::MAX,
    ensures
        outcome(r) == combine_spec(models_of(m@)),
        r matches Ok(c) ==> c.wf(),
{
    let ghost ms = models_of(m@);
    proof {
        assert forall|k: int| 0 <= k < 7 implies ms[k] == (#[trigger] m@[k]).model() by {}
    }
    let c11 = add_vec(&sub_vec(&add_vec(&m[0], &m[3])?.view(), &m[4].view())?, &m[6])?;
    let c12 = add_vec(&m[2], &m[4])?;
    let c21 = add_vec(&m[1], &m[3])?;
    let c22 = add_vec(&sub_vec(&add_vec(&m[0], &m[2])?.view(), &m[1].view())?, &m[5])?;

    merge_quadrants(&c11, &c12, &c21, &c22)
}

} // verus!
