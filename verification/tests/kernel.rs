use dense_matmul::error::MatrixError;
use dense_matmul::mat_mul::{matmul, matrix_matmul, multiply_matrix};
use dense_matmul::matrix::{Matrix, MatrixView, MatrixViewMut};

fn matrix_from(rows: usize, cols: usize, data: Vec<i32>) -> Matrix {
    Matrix { rows, cols, data }
}

fn identity(n: usize) -> Matrix {
    let mut m = Matrix::new(n, n);
    for i in 0..n {
        m.set(i, i, 1);
    }
    m
}

#[test]
fn kernel_multiplies_two_by_two() {
    let a = matrix_from(2, 2, vec![1, 2, 3, 4]);
    let b = matrix_from(2, 2, vec![5, 6, 7, 8]);
    let c = multiply_matrix(a.view(), b.view()).unwrap();
    assert_eq!((c.rows, c.cols), (2, 2));
    assert_eq!(c.data, vec![19, 22, 43, 50]);
}

#[test]
fn kernel_multiplies_rectangular_factors() {
    let a = matrix_from(2, 3, vec![1, 2, 3, 4, 5, 6]);
    let b = matrix_from(3, 2, vec![7, 8, 9, 10, 11, 12]);
    let c = multiply_matrix(a.view(), b.view()).unwrap();
    assert_eq!((c.rows, c.cols), (2, 2));
    assert_eq!(c.data, vec![58, 64, 139, 154]);
}

#[test]
fn kernel_reads_strided_windows() {
    let left: Vec<i32> = (0..16).collect();
    let right: Vec<i32> = (0..16).collect();
    // rows 1..3, columns 1..3 of the left; rows 2..4, columns 0..2 of the right
    let a = MatrixView { data: &left[5..], rows: 2, cols: 2, stride: 4 };
    let b = MatrixView { data: &right[8..], rows: 2, cols: 2, stride: 4 };
    // [[5,6],[9,10]] * [[8,9],[12,13]]
    let c = multiply_matrix(a, b).unwrap();
    assert_eq!(c.data, vec![112, 123, 192, 211]);
}

#[test]
fn kernel_refuses_incompatible_dimensions() {
    let a = Matrix::new(2, 3);
    let b = Matrix::new(2, 2);
    assert_eq!(
        multiply_matrix(a.view(), b.view()).unwrap_err(),
        MatrixError::DimensionMismatch
    );
}

#[test]
fn kernel_with_empty_inner_dimension_gives_zeros() {
    let a = Matrix::new(2, 0);
    let b = Matrix::new(0, 3);
    let c = multiply_matrix(a.view(), b.view()).unwrap();
    assert_eq!((c.rows, c.cols), (2, 3));
    assert_eq!(c.data, vec![0; 6]);
}

#[test]
fn kernel_wraps_on_overflow() {
    let a = matrix_from(1, 2, vec![i32::MAX, 65536]);
    let b = matrix_from(2, 1, vec![2, 65536]);
    // 2 * (2^31 - 1) + 2^32 = 2^33 - 2, whose 32-bit word is -2
    let c = multiply_matrix(a.view(), b.view()).unwrap();
    assert_eq!(c.data, vec![-2]);
}

#[test]
fn kernel_is_exact_when_only_a_partial_sum_overflows() {
    let a = matrix_from(1, 2, vec![i32::MAX, i32::MAX]);
    let b = matrix_from(2, 1, vec![2, -2]);
    let c = multiply_matrix(a.view(), b.view()).unwrap();
    assert_eq!(c.data, vec![0]);
}

#[test]
fn identity_is_neutral_for_the_kernel() {
    let a = matrix_from(3, 3, vec![1, -2, 3, 4, 5, -6, 7, 8, 9]);
    let i = identity(3);
    let right = multiply_matrix(a.view(), i.view()).unwrap();
    assert!(right.equals(&a));
    let left = multiply_matrix(i.view(), a.view()).unwrap();
    assert!(left.equals(&a));
}

#[test]
fn zero_absorbs_for_the_kernel() {
    let a = matrix_from(2, 3, vec![1, -2, 3, 4, 5, -6]);
    let z = Matrix::new(3, 4);
    let c = multiply_matrix(a.view(), z.view()).unwrap();
    assert!(c.equals(&Matrix::new(2, 4)));
}

#[test]
fn matrix_matmul_multiplies_owned_matrices() {
    let a = matrix_from(2, 2, vec![1, 2, 3, 4]);
    let b = matrix_from(2, 2, vec![5, 6, 7, 8]);
    let c = matrix_matmul(a, b).unwrap();
    assert_eq!(c.data, vec![19, 22, 43, 50]);
    let d = matrix_matmul(Matrix::new(2, 3), Matrix::new(4, 2));
    assert_eq!(d.unwrap_err(), MatrixError::DimensionMismatch);
}

#[test]
fn matmul_adds_the_product_onto_the_output() {
    let a = matrix_from(2, 2, vec![1, 2, 3, 4]);
    let b = matrix_from(2, 2, vec![5, 6, 7, 8]);
    let mut out = vec![100, 200, 300, 400];
    {
        let mut c = MatrixViewMut { data: &mut out, rows: 2, cols: 2, stride: 2 };
        matmul(a.view(), b.view(), &mut c).unwrap();
    }
    assert_eq!(out, vec![119, 222, 343, 450]);
}

#[test]
fn matmul_writes_inside_the_window_only() {
    let a = matrix_from(2, 2, vec![1, 2, 3, 4]);
    let b = matrix_from(2, 2, vec![5, 6, 7, 8]);
    let mut out = vec![-1; 12];
    {
        let mut c = MatrixViewMut { data: &mut out[1..], rows: 2, cols: 2, stride: 4 };
        matmul(a.view(), b.view(), &mut c).unwrap();
    }
    assert_eq!(out, vec![-1, 18, 21, -1, -1, 42, 49, -1, -1, -1, -1, -1]);
}

#[test]
fn matmul_adds_onto_the_top_left_of_a_larger_output() {
    let a = matrix_from(1, 1, vec![1]);
    let b = matrix_from(1, 1, vec![1]);
    let mut out = vec![0; 4];
    {
        let mut c = MatrixViewMut { data: &mut out, rows: 2, cols: 2, stride: 2 };
        matmul(a.view(), b.view(), &mut c).unwrap();
    }
    assert_eq!(out, vec![1, 0, 0, 0]);
}

#[test]
fn matmul_spares_the_rest_of_a_larger_strided_output() {
    let a = matrix_from(2, 2, vec![1, 2, 3, 4]);
    let b = matrix_from(2, 2, vec![5, 6, 7, 8]);
    // a window of 3 rows and 4 columns at a pitch of 5, one position into the buffer
    let mut out = vec![10; 1 + 2 * 5 + 4 + 2];
    {
        let mut c = MatrixViewMut { data: &mut out[1..], rows: 3, cols: 4, stride: 5 };
        matmul(a.view(), b.view(), &mut c).unwrap();
    }
    assert_eq!(
        out,
        vec![10, 29, 32, 10, 10, 10, 53, 60, 10, 10, 10, 10, 10, 10, 10, 10, 10]
    );
}

#[test]
fn matmul_accepts_more_rows_or_more_columns_alone() {
    let a = matrix_from(1, 2, vec![1, 2]);
    let b = matrix_from(2, 1, vec![3, 4]);
    let mut tall = vec![7, 7, 7];
    {
        let mut c = MatrixViewMut { data: &mut tall, rows: 3, cols: 1, stride: 1 };
        matmul(a.view(), b.view(), &mut c).unwrap();
    }
    assert_eq!(tall, vec![18, 7, 7]);
    let mut wide = vec![7, 7, 7];
    {
        let mut c = MatrixViewMut { data: &mut wide, rows: 1, cols: 3, stride: 3 };
        matmul(a.view(), b.view(), &mut c).unwrap();
    }
    assert_eq!(wide, vec![18, 7, 7]);
}

#[test]
fn matmul_refuses_an_output_with_too_few_columns() {
    let a = matrix_from(2, 2, vec![1, 2, 3, 4]);
    let b = matrix_from(2, 2, vec![5, 6, 7, 8]);
    let mut out = vec![9; 6];
    {
        let mut c = MatrixViewMut { data: &mut out, rows: 3, cols: 1, stride: 2 };
        assert_eq!(
            matmul(a.view(), b.view(), &mut c).unwrap_err(),
            MatrixError::DimensionMismatch
        );
    }
    assert_eq!(out, vec![9; 6]);
}

#[test]
fn matmul_refuses_shapes_that_do_not_fit_and_leaves_the_output() {
    let a = Matrix::new(2, 3);
    let b = Matrix::new(2, 2);
    let mut out = vec![7, 7, 7, 7];
    {
        let mut c = MatrixViewMut { data: &mut out, rows: 2, cols: 2, stride: 2 };
        assert_eq!(
            matmul(a.view(), b.view(), &mut c).unwrap_err(),
            MatrixError::DimensionMismatch
        );
    }
    assert_eq!(out, vec![7, 7, 7, 7]);
    let a = Matrix::new(2, 2);
    {
        let mut c = MatrixViewMut { data: &mut out, rows: 1, cols: 2, stride: 2 };
        assert_eq!(
            matmul(a.view(), b.view(), &mut c).unwrap_err(),
            MatrixError::DimensionMismatch
        );
    }
    assert_eq!(out, vec![7, 7, 7, 7]);
}
