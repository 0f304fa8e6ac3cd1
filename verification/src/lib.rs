//! Dense integer matrix multiplication over strided views: an iterative
//! kernel, block recursion and Strassen's algorithm, each in a sequential and
//! a fork-join form.
//!
//! Entries are `i32` values and all arithmetic on them wraps, so every
//! algorithm returns the product over the integers with each entry reduced
//! to its 32-bit word, whatever the order in which it adds and multiplies.

pub mod algebra;
pub mod divide_conquer;
pub mod error;
pub mod laws;
pub mod mat_mul;
pub mod matrix;
pub mod matrix_op;
pub mod model;
pub mod parallel;
pub mod random;
pub mod recursive;
pub mod strassen;
pub mod sums;
pub mod wrap;

pub use error::MatrixError;
pub use mat_mul::matmul;
pub use matrix::Matrix;
