use dense_matmul::error::MatrixError;
use dense_matmul::matrix::{
    add_vec, add_views, merge_quadrants, split_view, zero, Matrix, MatrixView, MatrixViewMut,
    THRESHOLD,
};
use dense_matmul::matrix_op::sub_vec;

fn matrix_from(rows: usize, cols: usize, data: Vec<i32>) -> Matrix {
    Matrix { rows, cols, data }
}

fn counting(rows: usize, cols: usize) -> Matrix {
    let data: Vec<i32> = (0..(rows * cols) as i32).collect();
    Matrix { rows, cols, data }
}

#[test]
fn threshold_is_128() {
    assert_eq!(THRESHOLD, 128);
}

#[test]
fn new_matrix_is_zero_and_row_major() {
    let m = Matrix::new(3, 4);
    assert_eq!(m.rows, 3);
    assert_eq!(m.cols, 4);
    assert_eq!(m.data, vec![0; 12]);
}

#[test]
fn new_matrix_may_be_empty() {
    let m = Matrix::new(0, 5);
    assert_eq!(m.rows, 0);
    assert_eq!(m.cols, 5);
    assert!(m.data.is_empty());
}

#[test]
fn get_and_set_address_row_major_positions() {
    let mut m = Matrix::new(2, 3);
    m.set(1, 2, 7);
    m.set(0, 1, -4);
    assert_eq!(m.data, vec![0, -4, 0, 0, 0, 7]);
    assert_eq!(m.get(1, 2), 7);
    assert_eq!(m.get(0, 1), -4);
    assert_eq!(m.get(0, 0), 0);
}

#[test]
fn equals_compares_shape_and_entries() {
    let a = matrix_from(2, 2, vec![1, 2, 3, 4]);
    let same = matrix_from(2, 2, vec![1, 2, 3, 4]);
    let other = matrix_from(2, 2, vec![1, 2, 3, 5]);
    let reshaped = matrix_from(1, 4, vec![1, 2, 3, 4]);
    assert!(a.equals(&same));
    assert!(!a.equals(&other));
    assert!(!a.equals(&reshaped));
    assert!(!Matrix::new(0, 3).equals(&Matrix::new(0, 5)));
}

#[test]
fn view_covers_the_whole_matrix() {
    let m = counting(3, 4);
    let v = m.view();
    assert_eq!(v.rows, 3);
    assert_eq!(v.cols, 4);
    assert_eq!(v.stride, 4);
    assert_eq!(v.data, &m.data[..]);
    assert_eq!(v.get(2, 1), 9);
}

#[test]
fn view_get_uses_the_stride() {
    let buffer: Vec<i32> = (0..20).collect();
    let v = MatrixView { data: &buffer, rows: 3, cols: 2, stride: 5 };
    assert_eq!(v.get(0, 0), 0);
    assert_eq!(v.get(1, 1), 6);
    assert_eq!(v.get(2, 0), 10);
}

#[test]
fn to_matrix_copies_a_strided_window() {
    let buffer: Vec<i32> = (0..20).collect();
    let v = MatrixView { data: &buffer[6..], rows: 2, cols: 3, stride: 5 };
    let m = v.to_matrix();
    assert_eq!(m.rows, 2);
    assert_eq!(m.cols, 3);
    assert_eq!(m.data, vec![6, 7, 8, 11, 12, 13]);
}

#[test]
fn sub_view_shares_buffer_and_stride() {
    let m = counting(4, 4);
    let v = m.view().sub_view(1, 2, 2, 2);
    assert_eq!(v.rows, 2);
    assert_eq!(v.cols, 2);
    assert_eq!(v.stride, 4);
    assert_eq!(v.data, &m.data[6..]);
    assert_eq!(v.to_matrix().data, vec![6, 7, 10, 11]);
}

#[test]
fn split_view_gives_the_four_quadrants() {
    let m = counting(4, 4);
    let (q11, q12, q21, q22) = split_view(m.view());
    assert_eq!(q11.to_matrix().data, vec![0, 1, 4, 5]);
    assert_eq!(q12.to_matrix().data, vec![2, 3, 6, 7]);
    assert_eq!(q21.to_matrix().data, vec![8, 9, 12, 13]);
    assert_eq!(q22.to_matrix().data, vec![10, 11, 14, 15]);
    for q in [q11, q12, q21, q22] {
        assert_eq!(q.rows, 2);
        assert_eq!(q.cols, 2);
        assert_eq!(q.stride, 4);
    }
    assert_eq!(q11.data.len(), 16);
    assert_eq!(q12.data.len(), 14);
    assert_eq!(q21.data.len(), 8);
    assert_eq!(q22.data.len(), 6);
}

#[test]
fn split_view_of_odd_sides_leaves_the_rest_to_the_later_quadrants() {
    let m = counting(3, 5);
    let (q11, q12, q21, q22) = split_view(m.view());
    assert_eq!((q11.rows, q11.cols), (1, 2));
    assert_eq!((q12.rows, q12.cols), (1, 3));
    assert_eq!((q21.rows, q21.cols), (2, 2));
    assert_eq!((q22.rows, q22.cols), (2, 3));
    assert_eq!(q11.to_matrix().data, vec![0, 1]);
    assert_eq!(q12.to_matrix().data, vec![2, 3, 4]);
    assert_eq!(q21.to_matrix().data, vec![5, 6, 10, 11]);
    assert_eq!(q22.to_matrix().data, vec![7, 8, 9, 12, 13, 14]);
}

#[test]
fn split_then_merge_reproduces_the_matrix() {
    let m = counting(6, 6);
    let (q11, q12, q21, q22) = split_view(m.view());
    let merged = merge_quadrants(
        &q11.to_matrix(),
        &q12.to_matrix(),
        &q21.to_matrix(),
        &q22.to_matrix(),
    )
    .unwrap();
    assert!(merged.equals(&m));
}

#[test]
fn split_then_merge_reproduces_a_wide_matrix() {
    let m = counting(2, 8);
    let (q11, q12, q21, q22) = split_view(m.view());
    let merged = merge_quadrants(
        &q11.to_matrix(),
        &q12.to_matrix(),
        &q21.to_matrix(),
        &q22.to_matrix(),
    )
    .unwrap();
    assert_eq!(merged.rows, 2);
    assert_eq!(merged.cols, 8);
    assert!(merged.equals(&m));
}

#[test]
fn merge_quadrants_places_each_quadrant() {
    let c11 = matrix_from(1, 1, vec![1]);
    let c12 = matrix_from(1, 1, vec![2]);
    let c21 = matrix_from(1, 1, vec![3]);
    let c22 = matrix_from(1, 1, vec![4]);
    let m = merge_quadrants(&c11, &c12, &c21, &c22).unwrap();
    assert_eq!(m.rows, 2);
    assert_eq!(m.cols, 2);
    assert_eq!(m.data, vec![1, 2, 3, 4]);
}

#[test]
fn merge_quadrants_refuses_unequal_shapes() {
    let small = matrix_from(1, 1, vec![1]);
    let big = matrix_from(2, 2, vec![1, 2, 3, 4]);
    let wide = matrix_from(1, 2, vec![1, 2]);
    assert_eq!(
        merge_quadrants(&small, &small, &small, &big).unwrap_err(),
        MatrixError::ShapeMismatch
    );
    assert_eq!(
        merge_quadrants(&small, &wide, &small, &small).unwrap_err(),
        MatrixError::ShapeMismatch
    );
    assert_eq!(
        merge_quadrants(&big, &small, &small, &small).unwrap_err(),
        MatrixError::ShapeMismatch
    );
}

#[test]
fn merge_quadrants_of_empty_quadrants_is_empty() {
    let e = Matrix::new(0, 0);
    let m = merge_quadrants(&e, &e, &e, &e).unwrap();
    assert_eq!((m.rows, m.cols), (0, 0));
    assert!(m.data.is_empty());
}

#[test]
fn add_vec_adds_entrywise() {
    let a = matrix_from(2, 3, vec![1, 2, 3, 4, 5, 6]);
    let b = matrix_from(2, 3, vec![10, 20, 30, 40, 50, 60]);
    let s = add_vec(&a, &b).unwrap();
    assert_eq!((s.rows, s.cols), (2, 3));
    assert_eq!(s.data, vec![11, 22, 33, 44, 55, 66]);
}

#[test]
fn add_vec_wraps_on_overflow() {
    let a = matrix_from(1, 2, vec![i32::MAX, i32::MIN]);
    let b = matrix_from(1, 2, vec![1, -1]);
    let s = add_vec(&a, &b).unwrap();
    assert_eq!(s.data, vec![i32::MIN, i32::MAX]);
}

#[test]
fn add_vec_refuses_unequal_shapes() {
    let a = Matrix::new(2, 3);
    let b = Matrix::new(3, 2);
    assert_eq!(add_vec(&a, &b).unwrap_err(), MatrixError::ShapeMismatch);
    let c = Matrix::new(2, 2);
    assert_eq!(add_vec(&a, &c).unwrap_err(), MatrixError::ShapeMismatch);
}

#[test]
fn sub_vec_subtracts_entrywise_over_strides() {
    let left: Vec<i32> = (0..12).collect();
    let right = vec![1, 1, 2, 2];
    let a = MatrixView { data: &left[5..], rows: 2, cols: 2, stride: 4 };
    let b = MatrixView { data: &right, rows: 2, cols: 2, stride: 2 };
    let d = sub_vec(&a, &b).unwrap();
    assert_eq!((d.rows, d.cols), (2, 2));
    assert_eq!(d.data, vec![4, 5, 7, 8]);
}

#[test]
fn sub_vec_wraps_on_overflow() {
    let a = matrix_from(1, 2, vec![i32::MIN, i32::MAX]);
    let b = matrix_from(1, 2, vec![1, -1]);
    let d = sub_vec(&a.view(), &b.view()).unwrap();
    assert_eq!(d.data, vec![i32::MAX, i32::MIN]);
}

#[test]
fn sub_vec_refuses_unequal_shapes() {
    let a = Matrix::new(2, 3);
    let b = Matrix::new(2, 2);
    assert_eq!(sub_vec(&a.view(), &b.view()).unwrap_err(), MatrixError::ShapeMismatch);
}

#[test]
fn mutable_view_reads_and_writes_through_the_stride() {
    let mut buffer: Vec<i32> = (0..12).collect();
    {
        let mut v = MatrixViewMut { data: &mut buffer[1..], rows: 2, cols: 2, stride: 4 };
        assert_eq!(v.get(1, 1), 6);
        v.set(1, 1, 60);
        v.set(0, 0, 10);
        assert_eq!(v.get(1, 1), 60);
        let r = v.as_view();
        assert_eq!((r.rows, r.cols, r.stride), (2, 2, 4));
        assert_eq!(r.get(0, 0), 10);
    }
    assert_eq!(buffer, vec![0, 10, 2, 3, 4, 5, 60, 7, 8, 9, 10, 11]);
}

#[test]
fn mutable_sub_view_writes_into_the_parent() {
    let mut buffer = vec![0; 16];
    {
        let mut v = MatrixViewMut { data: &mut buffer, rows: 4, cols: 4, stride: 4 };
        {
            let mut q = v.sub_view(2, 2, 2, 2);
            assert_eq!((q.rows, q.cols, q.stride), (2, 2, 4));
            q.set(0, 0, 1);
            q.set(1, 1, 2);
        }
        assert_eq!(v.get(2, 2), 1);
        assert_eq!(v.get(3, 3), 2);
    }
    assert_eq!(buffer, vec![0, 0, 0, 0, 0, 0, 0, 0, 0, 0, 1, 0, 0, 0, 0, 2]);
}

#[test]
fn zero_clears_the_window_only() {
    let mut buffer: Vec<i32> = (1..=12).collect();
    {
        let mut v = MatrixViewMut { data: &mut buffer[1..], rows: 2, cols: 2, stride: 4 };
        zero(&mut v);
    }
    assert_eq!(buffer, vec![1, 0, 0, 4, 5, 0, 0, 8, 9, 10, 11, 12]);
}

#[test]
fn add_views_adds_the_sum_onto_the_output() {
    let mut x = vec![1, 2, 3, 4];
    let mut y = vec![10, 20, 30, 40];
    let mut out = vec![100, 0, 0, 200, 0, 0, 300, 0, 0];
    {
        let a = MatrixViewMut { data: &mut x, rows: 2, cols: 2, stride: 2 };
        let b = MatrixViewMut { data: &mut y, rows: 2, cols: 2, stride: 2 };
        let mut c = MatrixViewMut { data: &mut out[1..], rows: 2, cols: 2, stride: 3 };
        add_views(&a, &b, &mut c).unwrap();
    }
    assert_eq!(out, vec![100, 11, 22, 200, 33, 44, 300, 0, 0]);
    {
        let a = MatrixViewMut { data: &mut x, rows: 2, cols: 2, stride: 2 };
        let b = MatrixViewMut { data: &mut y, rows: 2, cols: 2, stride: 2 };
        let mut c = MatrixViewMut { data: &mut out[1..], rows: 2, cols: 2, stride: 3 };
        add_views(&a, &b, &mut c).unwrap();
    }
    assert_eq!(out, vec![100, 22, 44, 200, 66, 88, 300, 0, 0]);
}

#[test]
fn add_views_refuses_unequal_shapes_and_leaves_the_output() {
    let mut x = vec![1, 2, 3, 4];
    let mut y = vec![10, 20];
    let mut out = vec![5, 6, 7, 8];
    {
        let a = MatrixViewMut { data: &mut x, rows: 2, cols: 2, stride: 2 };
        let b = MatrixViewMut { data: &mut y, rows: 1, cols: 2, stride: 2 };
        let mut c = MatrixViewMut { data: &mut out, rows: 2, cols: 2, stride: 2 };
        assert_eq!(add_views(&a, &b, &mut c).unwrap_err(), MatrixError::ShapeMismatch);
    }
    assert_eq!(out, vec![5, 6, 7, 8]);
}
