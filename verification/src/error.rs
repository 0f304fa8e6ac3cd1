//! The ways in which an operation on matrices can refuse its operands.

use vstd::prelude::*;

verus! {

/// Why an operation refused its operands.
#[derive(Debug, Clone, Copy, PartialEq, Eq, Structural)]
pub enum MatrixError {
    /// The column count of the left factor differs from the row count of the
    /// right factor, or the output has fewer rows or columns than the product.
    DimensionMismatch,
    /// The operands of an entrywise operation or of a merge differ in shape.
    ShapeMismatch,
    /// An operand of a recursive multiplication is not square, or its side is
    /// not a power of two.
    InvalidShape,
}

} // verus!
