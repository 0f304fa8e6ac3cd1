use dense_matmul::divide_conquer::{dc_sequential, dc_view, divide_and_conquer, my_dc};
use dense_matmul::error::MatrixError;
use dense_matmul::mat_mul::multiply_matrix;
use dense_matmul::matrix::{Matrix, MatrixView, MatrixViewMut, THRESHOLD};
use dense_matmul::random::generate_matrix;
use dense_matmul::recursive::is_power_of_two;
use dense_matmul::strassen::{combine_result, strassen, strassen_sequential, strassen_term};

fn matrix_from(rows: usize, cols: usize, data: Vec<i32>) -> Matrix {
    Matrix { rows, cols, data }
}

fn identity(n: usize) -> Matrix {
    let mut m = Matrix::new(n, n);
    for i in 0..n {
        m.set(i, i, 1);
    }
    m
}

/// A matrix with entries of both signs that depend on the position.
fn pattern(rows: usize, cols: usize, seed: i32) -> Matrix {
    let mut data = Vec::with_capacity(rows * cols);
    let mut x: i32 = seed;
    for _ in 0..rows * cols {
        x = x.wrapping_mul(1103515245).wrapping_add(12345);
        data.push((x >> 16) % 1000);
    }
    Matrix { rows, cols, data }
}

fn onto_zero(
    f: fn(MatrixView, MatrixView, &mut MatrixViewMut) -> Result<(), MatrixError>,
    a: &Matrix,
    b: &Matrix,
) -> Result<Matrix, MatrixError> {
    let mut out = Matrix::new(a.rows, b.cols);
    {
        let mut c =
            MatrixViewMut { data: &mut out.data, rows: a.rows, cols: b.cols, stride: b.cols };
        f(a.view(), b.view(), &mut c)?;
    }
    Ok(out)
}

fn all_products(a: &Matrix, b: &Matrix) -> Vec<Result<Matrix, MatrixError>> {
    vec![
        multiply_matrix(a.view(), b.view()),
        divide_and_conquer(a.view(), b.view()),
        dc_sequential(a.view(), b.view()),
        strassen_sequential(a.view(), b.view()),
        strassen(a.view(), b.view()),
        onto_zero(dc_view, a, b),
        onto_zero(my_dc, a, b),
    ]
}

#[test]
fn is_power_of_two_tells_powers_from_the_rest() {
    assert!(!is_power_of_two(0));
    assert!(is_power_of_two(1));
    assert!(is_power_of_two(2));
    assert!(!is_power_of_two(3));
    assert!(is_power_of_two(128));
    assert!(!is_power_of_two(130));
    assert!(is_power_of_two(1024));
    assert!(!is_power_of_two(1023));
    assert!(!is_power_of_two(usize::MAX));
    assert!(is_power_of_two(1 << (usize::BITS - 1)));
}

#[test]
fn all_algorithms_multiply_two_by_two() {
    let a = matrix_from(2, 2, vec![1, 2, 3, 4]);
    let b = matrix_from(2, 2, vec![5, 6, 7, 8]);
    for r in all_products(&a, &b) {
        let c = r.unwrap();
        assert_eq!((c.rows, c.cols), (2, 2));
        assert_eq!(c.data, vec![19, 22, 43, 50]);
    }
}

#[test]
fn all_algorithms_give_the_exact_product_above_the_threshold() {
    let n = 256;
    let a = matrix_from(n, n, vec![1; n * n]);
    let mut b = Matrix::new(n, n);
    for i in 0..n {
        for j in 0..n {
            b.set(i, j, j as i32 - 100);
        }
    }
    // every row of the product holds n * (j - 100) in column j
    for r in all_products(&a, &b) {
        let c = r.unwrap();
        assert_eq!((c.rows, c.cols), (n, n));
        for i in 0..n {
            for j in 0..n {
                assert_eq!(c.get(i, j), 256 * (j as i32 - 100));
            }
        }
    }
}

#[test]
fn parallel_strassen_equals_kernel_on_random_256() {
    let a = generate_matrix(256, 256);
    let b = generate_matrix(256, 256);
    let expected = multiply_matrix(a.view(), b.view()).unwrap();
    let got = strassen(a.view(), b.view()).unwrap();
    assert_eq!((got.rows, got.cols), (256, 256));
    assert!(got.equals(&expected));
}

#[test]
fn all_algorithms_agree_at_256() {
    let a = pattern(256, 256, 1);
    let b = pattern(256, 256, 2);
    let expected = multiply_matrix(a.view(), b.view()).unwrap();
    for r in all_products(&a, &b) {
        assert!(r.unwrap().equals(&expected));
    }
}

#[test]
fn all_algorithms_agree_at_512_with_two_levels_of_recursion() {
    let a = generate_matrix(512, 512);
    let b = generate_matrix(512, 512);
    let expected = multiply_matrix(a.view(), b.view()).unwrap();
    assert!(divide_and_conquer(a.view(), b.view()).unwrap().equals(&expected));
    assert!(strassen(a.view(), b.view()).unwrap().equals(&expected));
}

#[test]
fn all_algorithms_agree_when_entries_wrap() {
    let mut a = pattern(256, 256, 3);
    let mut b = pattern(256, 256, 4);
    for x in a.data.iter_mut() {
        *x = x.wrapping_mul(7_654_321);
    }
    for x in b.data.iter_mut() {
        *x = x.wrapping_mul(1_234_567);
    }
    let expected = multiply_matrix(a.view(), b.view()).unwrap();
    for r in all_products(&a, &b) {
        assert!(r.unwrap().equals(&expected));
    }
}

#[test]
fn all_algorithms_are_the_kernel_at_the_threshold() {
    let a = pattern(THRESHOLD, THRESHOLD, 5);
    let b = pattern(THRESHOLD, THRESHOLD, 6);
    let expected = multiply_matrix(a.view(), b.view()).unwrap();
    for r in all_products(&a, &b) {
        assert!(r.unwrap().equals(&expected));
    }
}

#[test]
fn below_the_threshold_any_compatible_shapes_are_accepted() {
    let a = pattern(3, 5, 7);
    let b = pattern(5, 2, 8);
    let expected = multiply_matrix(a.view(), b.view()).unwrap();
    for r in all_products(&a, &b) {
        let c = r.unwrap();
        assert_eq!((c.rows, c.cols), (3, 2));
        assert!(c.equals(&expected));
    }
}

#[test]
fn incompatible_dimensions_are_refused_by_all() {
    let a = Matrix::new(3, 5);
    let b = Matrix::new(4, 2);
    for r in all_products(&a, &b) {
        assert_eq!(r.unwrap_err(), MatrixError::DimensionMismatch);
    }
    let a = Matrix::new(256, 256);
    let b = Matrix::new(128, 128);
    for r in all_products(&a, &b) {
        assert_eq!(r.unwrap_err(), MatrixError::DimensionMismatch);
    }
}

#[test]
fn sides_that_are_no_power_of_two_are_refused_above_the_threshold() {
    let a = Matrix::new(130, 130);
    let b = Matrix::new(130, 130);
    let mut results = all_products(&a, &b);
    let kernel = results.remove(0).unwrap();
    assert!(kernel.equals(&Matrix::new(130, 130)));
    for r in results {
        assert_eq!(r.unwrap_err(), MatrixError::InvalidShape);
    }
}

#[test]
fn factors_that_are_not_square_are_refused_above_the_threshold() {
    let a = Matrix::new(256, 64);
    let b = Matrix::new(64, 256);
    let mut results = all_products(&a, &b);
    let kernel = results.remove(0).unwrap();
    assert!(kernel.equals(&Matrix::new(256, 256)));
    for r in results {
        assert_eq!(r.unwrap_err(), MatrixError::InvalidShape);
    }
    let a = Matrix::new(256, 256);
    let b = Matrix::new(256, 2);
    assert_eq!(
        divide_and_conquer(a.view(), b.view()).unwrap_err(),
        MatrixError::InvalidShape
    );
    assert_eq!(strassen(a.view(), b.view()).unwrap_err(), MatrixError::InvalidShape);
}

#[test]
fn identity_is_neutral_for_all_algorithms() {
    let a = pattern(256, 256, 9);
    let i = identity(256);
    for r in all_products(&a, &i) {
        assert!(r.unwrap().equals(&a));
    }
}

#[test]
fn zero_absorbs_for_all_algorithms() {
    let a = pattern(256, 256, 10);
    let z = Matrix::new(256, 256);
    for r in all_products(&a, &z) {
        assert!(r.unwrap().equals(&z));
    }
}

#[test]
fn multiplication_is_associative_through_each_algorithm() {
    let a = pattern(256, 256, 11);
    let b = pattern(256, 256, 12);
    let c = pattern(256, 256, 13);
    let through: Vec<fn(MatrixView, MatrixView) -> Result<Matrix, MatrixError>> =
        vec![multiply_matrix, divide_and_conquer, dc_sequential, strassen_sequential, strassen];
    for f in through {
        let ab = f(a.view(), b.view()).unwrap();
        let left = f(ab.view(), c.view()).unwrap();
        let bc = f(b.view(), c.view()).unwrap();
        let right = f(a.view(), bc.view()).unwrap();
        assert!(left.equals(&right));
    }
}

#[test]
fn in_place_recursion_adds_onto_the_output_and_spares_the_rest() {
    let a = pattern(256, 256, 14);
    let b = pattern(256, 256, 15);
    let product = multiply_matrix(a.view(), b.view()).unwrap();
    let variants: Vec<fn(MatrixView, MatrixView, &mut MatrixViewMut) -> Result<(), MatrixError>> =
        vec![dc_view, my_dc];
    for f in variants {
        // a window of 256 columns at a pitch of 260, three positions into the buffer
        let stride = 260;
        let len = 3 + 255 * stride + 256 + 5;
        let mut buffer = vec![1; len];
        {
            let mut c = MatrixViewMut { data: &mut buffer[3..], rows: 256, cols: 256, stride };
            f(a.view(), b.view(), &mut c).unwrap();
        }
        for k in 0..len {
            let inside = k >= 3 && (k - 3) / stride < 256 && (k - 3) % stride < 256;
            if inside {
                let (i, j) = ((k - 3) / stride, (k - 3) % stride);
                assert_eq!(buffer[k], product.get(i, j).wrapping_add(1));
            } else {
                assert_eq!(buffer[k], 1);
            }
        }
    }
}

#[test]
fn in_place_recursion_adds_onto_the_top_left_of_a_larger_output() {
    let a = pattern(256, 256, 16);
    let b = pattern(256, 256, 17);
    let product = multiply_matrix(a.view(), b.view()).unwrap();
    let variants: Vec<fn(MatrixView, MatrixView, &mut MatrixViewMut) -> Result<(), MatrixError>> =
        vec![dc_view, my_dc];
    for f in variants {
        // a window of 258 rows and 259 columns at a pitch of 261, two positions in
        let (rows, cols, stride) = (258, 259, 261);
        let len = 2 + (rows - 1) * stride + cols + 4;
        let mut buffer = vec![5; len];
        {
            let mut c = MatrixViewMut { data: &mut buffer[2..], rows, cols, stride };
            f(a.view(), b.view(), &mut c).unwrap();
        }
        for k in 0..len {
            let added = k >= 2 && (k - 2) / stride < 256 && (k - 2) % stride < 256;
            if added {
                let (i, j) = ((k - 2) / stride, (k - 2) % stride);
                assert_eq!(buffer[k], product.get(i, j).wrapping_add(5));
            } else {
                assert_eq!(buffer[k], 5);
            }
        }
    }
}

#[test]
fn in_place_recursion_below_the_threshold_accepts_a_larger_output() {
    let a = matrix_from(1, 1, vec![1]);
    let b = matrix_from(1, 1, vec![1]);
    let variants: Vec<fn(MatrixView, MatrixView, &mut MatrixViewMut) -> Result<(), MatrixError>> =
        vec![dc_view, my_dc];
    for f in variants {
        let mut out = vec![0; 4];
        {
            let mut c = MatrixViewMut { data: &mut out, rows: 2, cols: 2, stride: 2 };
            f(a.view(), b.view(), &mut c).unwrap();
        }
        assert_eq!(out, vec![1, 0, 0, 0]);
    }
}

#[test]
fn in_place_recursion_refuses_factors_that_are_not_square_above_the_threshold() {
    let a = Matrix::new(256, 64);
    let b = Matrix::new(64, 256);
    let mut buffer = vec![3; 300 * 300];
    {
        let mut c = MatrixViewMut { data: &mut buffer, rows: 300, cols: 300, stride: 300 };
        assert_eq!(dc_view(a.view(), b.view(), &mut c).unwrap_err(), MatrixError::InvalidShape);
        assert_eq!(my_dc(a.view(), b.view(), &mut c).unwrap_err(), MatrixError::InvalidShape);
    }
    assert_eq!(buffer, vec![3; 300 * 300]);
}

#[test]
fn in_place_recursion_refuses_an_output_of_another_shape() {
    let a = Matrix::new(256, 256);
    let b = Matrix::new(256, 256);
    let mut buffer = vec![3; 128 * 128];
    {
        let mut c = MatrixViewMut { data: &mut buffer, rows: 128, cols: 128, stride: 128 };
        assert_eq!(dc_view(a.view(), b.view(), &mut c).unwrap_err(), MatrixError::DimensionMismatch);
        assert_eq!(my_dc(a.view(), b.view(), &mut c).unwrap_err(), MatrixError::DimensionMismatch);
    }
    assert_eq!(buffer, vec![3; 128 * 128]);
}

#[test]
fn strassen_terms_are_the_seven_products() {
    let a11 = matrix_from(1, 1, vec![1]);
    let a12 = matrix_from(1, 1, vec![2]);
    let a21 = matrix_from(1, 1, vec![3]);
    let a22 = matrix_from(1, 1, vec![4]);
    let b11 = matrix_from(1, 1, vec![5]);
    let b12 = matrix_from(1, 1, vec![6]);
    let b21 = matrix_from(1, 1, vec![7]);
    let b22 = matrix_from(1, 1, vec![8]);
    let a = (a11.view(), a12.view(), a21.view(), a22.view());
    let b = (b11.view(), b12.view(), b21.view(), b22.view());
    // (1+4)(5+8), (3+4)5, 1(6-8), 4(7-5), (1+2)8, (3-1)(5+6), (2-4)(7+8)
    let expected = [65, 35, -2, 8, 24, 22, -30];
    for k in 0..7 {
        let m = strassen_term(k, a, b);
        assert_eq!((m.rows, m.cols), (1, 1));
        assert_eq!(m.data, vec![expected[k]]);
    }
}

#[test]
fn combine_result_applies_the_four_formulas() {
    let m = [65, 35, -2, 8, 24, 22, -30].map(|v| matrix_from(1, 1, vec![v]));
    let c = combine_result(m).unwrap();
    assert_eq!((c.rows, c.cols), (2, 2));
    // 65 + 8 - 24 - 30, -2 + 24, 35 + 8, 65 - 2 - 35 + 22
    assert_eq!(c.data, vec![19, 22, 43, 50]);
}

#[test]
fn combine_result_refuses_products_of_unequal_shapes() {
    let mut m = [1, 2, 3, 4, 5, 6, 7].map(|v| matrix_from(1, 1, vec![v]));
    m[5] = Matrix::new(2, 2);
    assert_eq!(combine_result(m).unwrap_err(), MatrixError::ShapeMismatch);
}

#[test]
fn generated_matrices_hold_digits() {
    let m = generate_matrix(64, 48);
    assert_eq!((m.rows, m.cols), (64, 48));
    assert_eq!(m.data.len(), 64 * 48);
    assert!(m.data.iter().all(|&v| (0..10).contains(&v)));
    let first = m.data[0];
    assert!(m.data.iter().any(|&v| v != first));
}

#[test]
fn generated_matrix_may_be_empty() {
    let m = generate_matrix(0, 7);
    assert_eq!((m.rows, m.cols), (0, 7));
    assert!(m.data.is_empty());
}
