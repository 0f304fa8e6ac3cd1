//! Owned matrices and strided windows into their buffers.

use crate::error::MatrixError;
use crate::model::{assemble, block, lemma_same_entries, sum, wrapped, zero_matrix, IntMatrix};
use crate::wrap::{lemma_wrapping_add, wrap32};
use vstd::arithmetic::div_mod::{
    lemma_div_pos_is_pos, lemma_fundamental_div_mod, lemma_multiply_divide_lt,
};
use vstd::prelude::*;

verus! {

/// The side length at or below which the recursive algorithms hand over to
/// the iterative kernel.
pub const THRESHOLD: usize = 128;

/// The position in a buffer of the entry in row `i`, column `j` of a window
/// whose rows start `stride` positions apart.
pub open spec fn pos(i: int, j: int, stride: int) -> int {
    i * stride + j
}

/// The window of the given shape and pitch that starts at the first position
/// of the buffer `buf`, as a matrix over the integers.
pub open spec fn window_model(buf: Seq<i32>, rows: nat, cols: nat, stride: int) -> IntMatrix {
    IntMatrix::new(rows, cols, |i: int, j: int| buf[pos(i, j, stride)] as int)
}

/// Position `k` of a buffer holds no entry of the window of the given shape
/// and pitch that starts at the buffer's first position.
pub open spec fn outside_window(k: int, rows: int, cols: int, stride: int) -> bool {
    forall|i: int, j: int| 0 <= i < rows && 0 <= j < cols ==> k != #[trigger] pos(i, j, stride)
}

/// The position `i * stride + j` of an entry lies inside a buffer that holds
/// `rows` rows of `cols` entries at a pitch of `stride`.
pub proof fn lemma_index_in_bounds(i: int, j: int, rows: int, cols: int, stride: int, len: int)
    requires
        0 <= i < rows,
        0 <= j < cols,
        cols <= stride,
        (rows - 1) * stride + cols <= len,
    ensures
        0 <= i * stride,
        0 <= pos(i, j, stride) < len,
        i * stride + cols <= len,
{
    assert(0 <= i * stride && i * stride <= (rows - 1) * stride) by (nonlinear_arith)
        requires
            0 <= i <= rows - 1,
            0 <= stride,
    ;
}

/// Two entries of a strided window lie at different positions of its buffer.
pub proof fn lemma_index_injective(i1: int, j1: int, i2: int, j2: int, cols: int, stride: int)
    requires
        0 <= j1 < cols,
        0 <= j2 < cols,
        cols <= stride,
        pos(i1, j1, stride) == pos(i2, j2, stride),
    ensures
        i1 == i2,
        j1 == j2,
{
    assert(i1 == i2) by (nonlinear_arith)
        requires
            0 <= j1 < stride,
            0 <= j2 < stride,
            i1 * stride + j1 == i2 * stride + j2,
    ;
}

/// An owned matrix of `i32` entries, stored row by row.
#[derive(Debug)]
pub struct Matrix {
    pub rows: usize,
    pub cols: usize,
    pub data: Vec<i32>,
}

impl Matrix {
    /// The buffer holds exactly `rows * cols` entries.
    pub open spec fn wf(&self) -> bool {
        self.data@.len() == self.rows * self.cols
    }

    /// The matrix as a matrix over the integers.
    pub open spec fn model(&self) -> IntMatrix {
        window_model(self.data@, self.rows as nat, self.cols as nat, self.cols as int)
    }

    /// A matrix of the given shape with every entry zero.
    pub fn new(rows: usize, cols: usize) -> (m: Matrix)
        requires
            rows * cols <= usize::MAX,
        ensures
            m.wf(),
            m.rows == rows,
            m.cols == cols,
            forall|k: int| 0 <= k < rows * cols ==> m.data@[k] == 0,
            m.model() == zero_matrix(rows as nat, cols as nat),
    {
        let m = Matrix { rows, cols, data: vec![0; rows * cols] };
        proof {
            assert forall|i: int, j: int| 0 <= i < rows && 0 <= j < cols implies m.model().at(i, j)
                == 0 by {
                lemma_whole_window(rows as int, cols as int);
                lemma_index_in_bounds(
                    i,
                    j,
                    rows as int,
                    cols as int,
                    cols as int,
                    rows * cols,
                );
            }
            lemma_same_entries(m.model(), zero_matrix(rows as nat, cols as nat));
        }
        m
    }

    /// The entry in row `r`, column `c`: the value at position
    /// `r * cols + c` of the buffer.
    pub fn get(&self, r: usize, c: usize) -> (v: i32)
        requires
            r * self.cols + c < self.data@.len(),
        ensures
            v == self.data@[r * self.cols + c],
            r < self.rows && c < self.cols ==> v == self.model().at(r as int, c as int),
    {
        assert(0 <= r * self.cols) by (nonlinear_arith);
        assert(self.data@.len() == self.data.len());
        self.data[r * self.cols + c]
    }

    /// Replaces the entry in row `r`, column `c`.
    pub fn set(&mut self, r: usize, c: usize, val: i32)
        requires
            r * old(self).cols + c < old(self).data@.len(),
        ensures
            final(self).rows == old(self).rows,
            final(self).cols == old(self).cols,
            final(self).data@ == old(self).data@.update(r * old(self).cols + c, val),
    {
        assert(0 <= r * self.cols) by (nonlinear_arith);
        assert(self.data@.len() == self.data.len());
        self.data[r * self.cols + c] = val;
    }

    /// Whether two matrices have the same shape and the same entries. For
    /// well-formed matrices that is to say that their models are the same.
    pub fn equals(&self, other: &Matrix) -> (r: bool)
        ensures
            r <==> self.rows == other.rows && self.cols == other.cols && self.data@
                == other.data@,
            self.wf() && other.wf() ==> (r <==> self.model() == other.model()),
    {
        if self.rows != other.rows || self.cols != other.cols {
            return false;
        }
        let r = self.data == other.data;
        proof {
            if r {
                assert(self.data@ =~= other.data@);
            }
            if self.wf() && other.wf() {
                lemma_model_determines_data(self, other);
            }
        }
        r
    }

    /// A window over the whole matrix.
    pub fn view(&self) -> (v: MatrixView<'_>)
        ensures
            v.data@ == self.data@,
            v.rows == self.rows,
            v.cols == self.cols,
            v.stride == self.cols,
            self.wf() ==> v.wf() && v.model() == self.model(),
    {
        let v = MatrixView {
            data: self.data.as_slice(),
            rows: self.rows,
            cols: self.cols,
            stride: self.cols,
        };
        proof {
            if self.wf() {
                lemma_whole_window(self.rows as int, self.cols as int);
                assert(v.model() =~~= self.model());
            }
        }
        v
    }
}

/// Two well-formed matrices of one shape hold the same entries exactly when
/// their models are the same.
pub proof fn lemma_model_determines_data(a: &Matrix, b: &Matrix)
    requires
        a.wf(),
        b.wf(),
        a.rows == b.rows,
        a.cols == b.cols,
    ensures
        a.data@ == b.data@ <==> a.model() == b.model(),
{
    let rows = a.rows as int;
    let cols = a.cols as int;
    if a.model() == b.model() {
        assert forall|k: int| 0 <= k < a.data@.len() implies a.data@[k] == b.data@[k] by {
            assert(cols > 0) by (nonlinear_arith)
                requires
                    0 <= k < rows * cols,
                    0 <= cols,
            ;
            let i = k / cols;
            let j = k % cols;
            lemma_fundamental_div_mod(k, cols);
            lemma_multiply_divide_lt(k, cols, rows);
            lemma_div_pos_is_pos(k, cols);
            assert(pos(i, j, cols) == k) by (nonlinear_arith)
                requires
                    k == cols * i + j,
            ;
            assert(a.model().at(i, j) == a.data@[pos(i, j, cols)]);
            assert(b.model().at(i, j) == b.data@[pos(i, j, cols)]);
        }
        assert(a.data@ =~= b.data@);
    }
}

/// A buffer of `rows * cols` entries holds `rows` rows of `cols` entries at a
/// pitch of `cols`.
pub proof fn lemma_whole_window(rows: int, cols: int)
    requires
        0 <= rows,
        0 <= cols,
    ensures
        0 <= rows * cols,
        rows > 0 ==> (rows - 1) * cols + cols == rows * cols,
{
    assert(0 <= rows * cols) by (nonlinear_arith)
        requires
            0 <= rows,
            0 <= cols,
    ;
    assert((rows - 1) * cols + cols == rows * cols) by (nonlinear_arith);
}

/// A read-only window of `rows` rows of `cols` entries into a buffer that it
/// does not own. Row `r` starts at position `r * stride` of the buffer.
#[derive(Clone, Copy)]
pub struct MatrixView<'a> {
    pub data: &'a [i32],
    pub rows: usize,
    pub cols: usize,
    pub stride: usize,
}

impl<'a> MatrixView<'a> {
    /// Rows do not overlap and the last row ends inside the buffer.
    pub open spec fn wf(&self) -> bool {
        &&& self.cols <= self.stride
        &&& self.rows > 0 ==> (self.rows - 1) * self.stride + self.cols <= self.data@.len()
    }

    /// The window as a matrix over the integers.
    pub open spec fn model(&self) -> IntMatrix {
        window_model(self.data@, self.rows as nat, self.cols as nat, self.stride as int)
    }

    /// `self` is the window of the given shape into the buffer of `parent`
    /// that starts at the entry `(row, col)` of `parent`: it holds the buffer
    /// from that entry on and has the pitch of `parent`. Where it lies inside
    /// a well-formed `parent`, it is well formed and is that block of
    /// `parent`.
    pub open spec fn is_window_of(
        &self,
        parent: &MatrixView,
        row: int,
        col: int,
        rows: int,
        cols: int,
    ) -> bool {
        &&& self.data@ == parent.data@.subrange(
            pos(row, col, parent.stride as int),
            parent.data@.len() as int,
        )
        &&& self.rows == rows
        &&& self.cols == cols
        &&& self.stride == parent.stride
        &&& parent.wf() && row + rows <= parent.rows && col + cols <= parent.cols ==> self.wf()
            && self.model() == block(parent.model(), row, col, rows as nat, cols as nat)
    }

    /// The entry in row `r`, column `c` of the window: the value at position
    /// `r * stride + c` of the buffer.
    #[inline]
    pub fn get(&self, r: usize, c: usize) -> (v: i32)
        requires
            r * self.stride + c < self.data@.len(),
        ensures
            v == self.data@[r * self.stride + c],
            r < self.rows && c < self.cols ==> v == self.model().at(r as int, c as int),
    {
        assert(0 <= r * self.stride) by (nonlinear_arith);
        assert(self.data@.len() == self.data.len());
        self.data[r * self.stride + c]
    }

    /// Every entry of a well-formed window lies inside the buffer, and the
    /// model holds the buffer's value there.
    pub proof fn lemma_entry(&self, i: int, j: int)
        requires
            self.wf(),
            0 <= i < self.rows,
            0 <= j < self.cols,
        ensures
            0 <= i * self.stride,
            0 <= pos(i, j, self.stride as int) < self.data@.len(),
            self.model().at(i, j) == self.data@[pos(i, j, self.stride as int)],
            i32::MIN <= self.model().at(i, j) <= i32::MAX,
    {
        lemma_index_in_bounds(
            i,
            j,
            self.rows as int,
            self.cols as int,
            self.stride as int,
            self.data@.len() as int,
        );
    }

    /// A well-formed window has at most as many entries as its buffer.
    pub proof fn lemma_size(&self)
        requires
            self.wf(),
        ensures
            0 <= self.rows * self.cols <= self.data@.len(),
    {
        let (r, c, s) = (self.rows as int, self.cols as int, self.stride as int);
        assert(0 <= r * c) by (nonlinear_arith)
            requires
                0 <= r,
                0 <= c,
        ;
        if r > 0 {
            assert(r * c <= (r - 1) * s + c) by (nonlinear_arith)
                requires
                    r > 0,
                    0 <= c <= s,
            ;
        } else {
            assert(r * c == 0) by (nonlinear_arith)
                requires
                    r == 0,
            ;
        }
    }

    /// The window of the given shape whose top-left entry is the entry in row
    /// `row`, column `col` of this one. It shares the buffer and the pitch.
    pub fn sub_view(&self, row: usize, col: usize, rows: usize, cols: usize) -> (v: MatrixView<'a>)
        requires
            row * self.stride + col <= self.data@.len(),
        ensures
            v.is_window_of(self, row as int, col as int, rows as int, cols as int),
    {
        assert(0 <= row * self.stride) by (nonlinear_arith);
        assert(self.data@.len() == self.data.len());
        let v = MatrixView {
            data: &self.data[row * self.stride + col..self.data.len()],
            rows,
            cols,
            stride: self.stride,
        };
        proof {
            if self.wf() && row + rows <= self.rows && col + cols <= self.cols {
                lemma_sub_window(
                    self.data@,
                    self.rows as int,
                    self.cols as int,
                    self.stride as int,
                    row as int,
                    col as int,
                    rows as int,
                    cols as int,
                );
                let want = block(self.model(), row as int, col as int, rows as nat, cols as nat);
                assert forall|i: int, j: int| 0 <= i < rows && 0 <= j < cols implies v.model().at(
                    i,
                    j,
                ) == want.at(i, j) by {
                    assert(v.data@[pos(i, j, self.stride as int)] == self.data@[pos(
                        row + i,
                        col + j,
                        self.stride as int,
                    )]);
                }
                lemma_same_entries(v.model(), want);
            }
        }
        v
    }

    /// An owned copy of the window.
    pub fn to_matrix(&self) -> (m: Matrix)
        requires
            self.wf(),
        ensures
            m.wf(),
            m.model() == self.model(),
    {
        proof {
            self.lemma_size();
            assert(self.data@.len() == self.data.len());
        }
        let mut result = Matrix::new(self.rows, self.cols);
        for i in 0..self.rows
            invariant
                self.wf(),
                result.wf(),
                result.rows == self.rows,
                result.cols == self.cols,
                forall|i2: int, j2: int|
                    0 <= i2 < i && 0 <= j2 < self.cols ==> result.data@[#[trigger] pos(
                        i2,
                        j2,
                        self.cols as int,
                    )] == self.data@[pos(i2, j2, self.stride as int)],
        {
            for j in 0..self.cols
                invariant
                    self.wf(),
                    result.wf(),
                    result.rows == self.rows,
                    result.cols == self.cols,
                    0 <= i < self.rows,
                    forall|i2: int, j2: int|
                        0 <= i2 < i && 0 <= j2 < self.cols ==> result.data@[#[trigger] pos(
                            i2,
                            j2,
                            self.cols as int,
                        )] == self.data@[pos(i2, j2, self.stride as int)],
                    forall|j2: int|
                        0 <= j2 < j ==> result.data@[#[trigger] pos(i as int, j2, self.cols as int)]
                            == self.data@[pos(i as int, j2, self.stride as int)],
            {
                proof {
                    assert(self.data@.len() == self.data.len());
                    self.lemma_entry(i as int, j as int);
                    lemma_whole_window(self.rows as int, self.cols as int);
                    lemma_window_update(
                        result.data@,
                        self.rows as int,
                        self.cols as int,
                        self.cols as int,
                        i as int,
                        j as int,
                        self.data@[pos(i as int, j as int, self.stride as int)],
                    );
                }
                let idx = i * self.stride + j;
                result.set(i, j, self.data[idx]);
            }
        }
        proof {
            assert forall|i2: int, j2: int|
                0 <= i2 < self.rows && 0 <= j2 < self.cols implies result.model().at(i2, j2)
                == self.model().at(i2, j2) by {
                assert(result.data@[pos(i2, j2, self.cols as int)] == self.data@[pos(
                    i2,
                    j2,
                    self.stride as int,
                )]);
            }
            lemma_same_entries(result.model(), self.model());
        }
        result
    }
}

/// A window of `h` rows of `w` entries that lies inside a window of a buffer
/// lies inside that buffer, and its entry `(i, j)` is the entry
/// `(r0 + i, c0 + j)` of the larger window.
pub proof fn lemma_sub_window(
    buf: Seq<i32>,
    rows: int,
    cols: int,
    stride: int,
    r0: int,
    c0: int,
    h: int,
    w: int,
)
    requires
        0 <= cols <= stride,
        rows > 0 ==> (rows - 1) * stride + cols <= buf.len(),
        0 <= r0,
        0 <= c0,
        0 <= h,
        0 <= w,
        r0 + h <= rows,
        c0 + w <= cols,
        0 <= pos(r0, c0, stride) <= buf.len(),
    ensures
        h > 0 ==> (h - 1) * stride + w <= buf.len() - pos(r0, c0, stride),
        forall|i: int, j: int|
            0 <= i < h && 0 <= j < w ==> 0 <= #[trigger] pos(i, j, stride) < buf.len() - pos(
                r0,
                c0,
                stride,
            ) && pos(r0, c0, stride) + pos(i, j, stride) == pos(r0 + i, c0 + j, stride)
                && buf.subrange(pos(r0, c0, stride), buf.len() as int)[pos(i, j, stride)]
                == buf[pos(r0 + i, c0 + j, stride)],
{
    if h > 0 {
        assert((h - 1) * stride + w + r0 * stride + c0 <= (rows - 1) * stride + cols)
            by (nonlinear_arith)
            requires
                0 <= stride,
                r0 + h <= rows,
                c0 + w <= cols,
        ;
    }
    assert forall|i: int, j: int| 0 <= i < h && 0 <= j < w implies 0 <= #[trigger] pos(
        i,
        j,
        stride,
    ) < buf.len() - pos(r0, c0, stride) && pos(r0, c0, stride) + pos(i, j, stride) == pos(
        r0 + i,
        c0 + j,
        stride,
    ) && buf.subrange(pos(r0, c0, stride), buf.len() as int)[pos(i, j, stride)] == buf[pos(
        r0 + i,
        c0 + j,
        stride,
    )] by {
        assert(0 <= i * stride && i * stride <= (h - 1) * stride) by (nonlinear_arith)
            requires
                0 <= i <= h - 1,
                0 <= stride,
        ;
        assert((r0 + i) * stride == r0 * stride + i * stride) by (nonlinear_arith);
    }
}

/// A writable window of `rows` rows of `cols` entries into a buffer that it
/// does not own. Row `r` starts at position `r * stride` of the buffer.
///
/// The contract of a function that takes a `&mut MatrixViewMut` holds a
/// clause on `final(final(v).data)`: it says that the window borrows the same
/// buffer after the call as before, so that what was written through the
/// window reaches the owner of the buffer when the window is given up.
pub struct MatrixViewMut<'a> {
    pub data: &'a mut [i32],
    pub rows: usize,
    pub cols: usize,
    pub stride: usize,
}

impl<'a> MatrixViewMut<'a> {
    /// The contents of the whole buffer.
    pub open spec fn buffer(&self) -> Seq<i32> {
        self.data@
    }

    /// Rows do not overlap and the last row ends inside the buffer.
    pub open spec fn wf(&self) -> bool {
        &&& self.cols <= self.stride
        &&& self.rows > 0 ==> (self.rows - 1) * self.stride + self.cols <= self.data@.len()
    }

    /// The window as a matrix over the integers.
    pub open spec fn model(&self) -> IntMatrix {
        window_model(self.data@, self.rows as nat, self.cols as nat, self.stride as int)
    }

    /// `self` is the window `before` after writes to its entries only: the
    /// shape, the pitch and the length of the buffer are those of `before`,
    /// and so is every position of the buffer that holds no entry of the
    /// window.
    pub open spec fn same_window(&self, before: &MatrixViewMut<'a>) -> bool {
        &&& self.rows == before.rows
        &&& self.cols == before.cols
        &&& self.stride == before.stride
        &&& self.data@.len() == before.data@.len()
        &&& forall|k: int|
            0 <= k < self.data@.len() && outside_window(
                k,
                self.rows as int,
                self.cols as int,
                self.stride as int,
            ) ==> self.data@[k] == before.data@[k]
    }

    /// The entry in row `r`, column `c` of the window: the value at position
    /// `r * stride + c` of the buffer.
    pub fn get(&self, r: usize, c: usize) -> (v: i32)
        requires
            r * self.stride + c < self.buffer().len(),
        ensures
            v == self.buffer()[pos(r as int, c as int, self.stride as int)],
            r < self.rows && c < self.cols ==> v == self.model().at(r as int, c as int),
    {
        assert(0 <= r * self.stride) by (nonlinear_arith);
        assert(self.data@.len() == self.data.len());
        self.data[r * self.stride + c]
    }

    /// Replaces the entry in row `r`, column `c` of the window.
    pub fn set(&mut self, r: usize, c: usize, val: i32)
        requires
            r * old(self).stride + c < old(self).data@.len(),
        ensures
            final(self).rows == old(self).rows,
            final(self).cols == old(self).cols,
            final(self).stride == old(self).stride,
            final(self).data@ == old(self).data@.update(
                pos(r as int, c as int, old(self).stride as int),
                val,
            ),
            final(final(self).data)@ == final(old(self).data)@,
    {
        assert(0 <= r * self.stride) by (nonlinear_arith);
        assert(self.data@.len() == self.data.len());
        self.data[r * self.stride + c] = val;
    }

    /// The writable window of the given shape whose top-left entry is the
    /// entry in row `row`, column `col` of this one. It borrows the buffer
    /// from that entry on and has the pitch of this window; while it lives,
    /// this window cannot be used. What is written through it is written to
    /// the buffer of this window.
    pub fn sub_view<'b>(&'b mut self, row: usize, col: usize, rows: usize, cols: usize) -> (w:
        MatrixViewMut<'b>)
        requires
            row * old(self).stride + col <= old(self).data@.len(),
        ensures
            w.rows == rows,
            w.cols == cols,
            w.stride == old(self).stride,
            w.data@ == old(self).data@.subrange(
                pos(row as int, col as int, old(self).stride as int),
                old(self).data@.len() as int,
            ),
            old(self).wf() && row + rows <= old(self).rows && col + cols <= old(self).cols
                ==> w.wf() && w.model() == block(
                old(self).model(),
                row as int,
                col as int,
                rows as nat,
                cols as nat,
            ),
            final(self).rows == old(self).rows,
            final(self).cols == old(self).cols,
            final(self).stride == old(self).stride,
            final(self).data@ == old(self).data@.subrange(
                0,
                pos(row as int, col as int, old(self).stride as int),
            ) + final(w.data)@,
            final(final(self).data)@ == final(old(self).data)@,
    {
        assert(0 <= row * self.stride) by (nonlinear_arith);
        assert(self.data@.len() == self.data.len());
        let off = row * self.stride + col;
        let stride = self.stride;
        let ghost parent = self.model();
        let ghost inside = self.wf() && row + rows <= self.rows && col + cols <= self.cols;
        proof {
            if inside {
                lemma_sub_window(
                    self.data@,
                    self.rows as int,
                    self.cols as int,
                    stride as int,
                    row as int,
                    col as int,
                    rows as int,
                    cols as int,
                );
            }
        }
        let (_, tail) = self.data.split_at_mut(off);
        let w = MatrixViewMut { data: tail, rows, cols, stride };
        proof {
            if inside {
                let want = block(parent, row as int, col as int, rows as nat, cols as nat);
                assert forall|i: int, j: int| 0 <= i < rows && 0 <= j < cols implies w.model().at(
                    i,
                    j,
                ) == want.at(i, j) by {
                    assert(w.data@[pos(i, j, stride as int)] == old(self).data@[pos(
                        row + i,
                        col + j,
                        stride as int,
                    )]);
                }
                lemma_same_entries(w.model(), want);
            }
        }
        w
    }

    /// The same window, read-only.
    pub fn as_view(&self) -> (v: MatrixView<'_>)
        ensures
            v.data@ == self.buffer(),
            v.rows == self.rows,
            v.cols == self.cols,
            v.stride == self.stride,
            v.wf() == self.wf(),
            v.model() == self.model(),
    {
        MatrixView { data: &*self.data, rows: self.rows, cols: self.cols, stride: self.stride }
    }

    /// Every entry of a well-formed window lies inside the buffer, and the
    /// model holds the buffer's value there.
    pub proof fn lemma_entry(&self, i: int, j: int)
        requires
            self.wf(),
            0 <= i < self.rows,
            0 <= j < self.cols,
        ensures
            0 <= i * self.stride,
            0 <= pos(i, j, self.stride as int) < self.buffer().len(),
            self.model().at(i, j) == self.buffer()[pos(i, j, self.stride as int)],
            i32::MIN <= self.model().at(i, j) <= i32::MAX,
    {
        lemma_index_in_bounds(
            i,
            j,
            self.rows as int,
            self.cols as int,
            self.stride as int,
            self.data@.len() as int,
        );
    }
}

/// Writing one entry of a window leaves every other entry of the window and
/// every position outside the window as it was.
pub proof fn lemma_window_update(
    before: Seq<i32>,
    rows: int,
    cols: int,
    stride: int,
    i: int,
    j: int,
    v: i32,
)
    requires
        0 <= i < rows,
        0 <= j < cols,
        cols <= stride,
        (rows - 1) * stride + cols <= before.len(),
    ensures
        0 <= pos(i, j, stride) < before.len(),
        before.update(pos(i, j, stride), v)[pos(i, j, stride)] == v,
        forall|i2: int, j2: int|
            0 <= i2 < rows && 0 <= j2 < cols && !(i2 == i && j2 == j) ==> before.update(
                pos(i, j, stride),
                v,
            )[#[trigger] pos(i2, j2, stride)] == before[pos(i2, j2, stride)],
        forall|k: int|
            0 <= k < before.len() && outside_window(k, rows, cols, stride) ==> before.update(
                pos(i, j, stride),
                v,
            )[k] == before[k],
{
    lemma_index_in_bounds(i, j, rows, cols, stride, before.len() as int);
    assert forall|i2: int, j2: int|
        0 <= i2 < rows && 0 <= j2 < cols && !(i2 == i && j2 == j) implies before.update(
        pos(i, j, stride),
        v,
    )[#[trigger] pos(i2, j2, stride)] == before[pos(i2, j2, stride)] by {
        lemma_index_in_bounds(i2, j2, rows, cols, stride, before.len() as int);
        if pos(i2, j2, stride) == pos(i, j, stride) {
            lemma_index_injective(i2, j2, i, j, cols, stride);
        }
    }
    assert forall|k: int|
        0 <= k < before.len() && outside_window(k, rows, cols, stride) implies before.update(
        pos(i, j, stride),
        v,
    )[k] == before[k] by {
        assert(k != pos(i, j, stride));
    }
}

/// The four quadrants of `m` as windows into its buffer: top-left,
/// top-right, bottom-left, bottom-right. The top-left one has `rows / 2` rows
/// and `cols / 2` columns; the others take what is left.
pub fn split_view<'a>(m: MatrixView<'a>) -> (q: (
    MatrixView<'a>,
    MatrixView<'a>,
    MatrixView<'a>,
    MatrixView<'a>,
))
    requires
        (m.rows / 2) * m.stride + m.cols / 2 <= m.data@.len(),
    ensures
        q.0.is_window_of(&m, 0, 0, m.rows as int / 2, m.cols as int / 2),
        q.1.is_window_of(&m, 0, m.cols as int / 2, m.rows as int / 2, m.cols - m.cols as int / 2),
        q.2.is_window_of(&m, m.rows as int / 2, 0, m.rows - m.rows as int / 2, m.cols as int / 2),
        q.3.is_window_of(
            &m,
            m.rows as int / 2,
            m.cols as int / 2,
            m.rows - m.rows as int / 2,
            m.cols - m.cols as int / 2,
        ),
{
    let r2 = m.rows / 2;
    let c2 = m.cols / 2;
    assert(0 <= r2 * m.stride) by (nonlinear_arith);
    assert(0 * m.stride == 0) by (nonlinear_arith);
    let a11 = m.sub_view(0, 0, r2, c2);
    let a12 = m.sub_view(0, c2, r2, m.cols - c2);
    let a21 = m.sub_view(r2, 0, m.rows - r2, c2);
    let a22 = m.sub_view(r2, c2, m.rows - r2, m.cols - c2);
    (a11, a12, a21, a22)
}

/// What `add_vec` returns for operands `a` and `b`: their entrywise sum with
/// every entry reduced to its 32-bit word, or `ShapeMismatch` where the
/// shapes differ.
pub open spec fn add_spec(a: IntMatrix, b: IntMatrix) -> Result<IntMatrix, MatrixError> {
    if a.rows != b.rows || a.cols != b.cols {
        Err(MatrixError::ShapeMismatch)
    } else {
        Ok(wrapped(sum(a, b)))
    }
}

/// The entrywise sum of two matrices of one shape, with wrapping arithmetic.
pub fn add_vec(a: &Matrix, b: &Matrix) -> (r: Result<Matrix, MatrixError>)
    requires
        a.wf(),
        b.wf(),
    ensures
        outcome(r) == add_spec(a.model(), b.model()),
        r matches Ok(m) ==> m.wf(),
{
    if a.rows != b.rows || a.cols != b.cols {
        return Err(MatrixError::ShapeMismatch);
    }
    let ghost n = a.cols as int;
    proof {
        lemma_whole_window(a.rows as int, a.cols as int);
        assert(a.data@.len() == a.data.len());
    }
    let mut matrix = Matrix::new(a.rows, b.cols);
    for i in 0..a.rows
        invariant
            a.wf(),
            b.wf(),
            matrix.wf(),
            n == a.cols,
            a.rows == b.rows,
            a.cols == b.cols,
            matrix.rows == a.rows,
            matrix.cols == a.cols,
            forall|i2: int, j2: int|
                0 <= i2 < i && 0 <= j2 < n ==> matrix.data@[#[trigger] pos(i2, j2, n)] == wrap32(
                    a.data@[pos(i2, j2, n)] + b.data@[pos(i2, j2, n)],
                ),
    {
        for j in 0..a.cols
            invariant
                a.wf(),
                b.wf(),
                matrix.wf(),
                n == a.cols,
                a.rows == b.rows,
                a.cols == b.cols,
                matrix.rows == a.rows,
                matrix.cols == a.cols,
                0 <= i < a.rows,
                forall|i2: int, j2: int|
                    0 <= i2 < i && 0 <= j2 < n ==> matrix.data@[#[trigger] pos(i2, j2, n)]
                        == wrap32(a.data@[pos(i2, j2, n)] + b.data@[pos(i2, j2, n)]),
                forall|j2: int|
                    0 <= j2 < j ==> matrix.data@[#[trigger] pos(i as int, j2, n)] == wrap32(
                        a.data@[pos(i as int, j2, n)] + b.data@[pos(i as int, j2, n)],
                    ),
        {
            proof {
                lemma_whole_window(a.rows as int, a.cols as int);
                lemma_index_in_bounds(i as int, j as int, a.rows as int, n, n, a.rows * a.cols);
            }
            let v = a.get(i, j).wrapping_add(b.get(i, j));
            proof {
                lemma_wrapping_add(a.data@[pos(i as int, j as int, n)], b.data@[pos(i as int, j as int, n)]);
                lemma_window_update(matrix.data@, a.rows as int, n, n, i as int, j as int, v);
            }
            matrix.set(i, j, v);
        }
    }
    proof {
        let want = wrapped(sum(a.model(), b.model()));
        assert forall|i2: int, j2: int|
            0 <= i2 < a.rows && 0 <= j2 < a.cols implies matrix.model().at(i2, j2) == want.at(
            i2,
            j2,
        ) by {
            assert(matrix.data@[pos(i2, j2, n)] == wrap32(
                a.data@[pos(i2, j2, n)] + b.data@[pos(i2, j2, n)],
            ));
        }
        lemma_same_entries(matrix.model(), want);
    }
    Ok(matrix)
}

/// What `merge_quadrants` returns for the four quadrants: the matrix made of
/// them, or `ShapeMismatch` where they are not all of one shape.
pub open spec fn merge_spec(q11: IntMatrix, q12: IntMatrix, q21: IntMatrix, q22: IntMatrix)
    -> Result<IntMatrix, MatrixError> {
    if same_shape(q11, q12) && same_shape(q11, q21) && same_shape(q11, q22) {
        Ok(assemble(q11, q12, q21, q22))
    } else {
        Err(MatrixError::ShapeMismatch)
    }
}

/// Two matrices have the same number of rows and of columns.
pub open spec fn same_shape(a: IntMatrix, b: IntMatrix) -> bool {
    a.rows == b.rows && a.cols == b.cols
}

/// While `merge_quadrants` is at row `i`, column `j` of the quadrants: whether
/// the entry `(r, c)` of the result has been written.
pub open spec fn merged(r: int, c: int, i: int, j: int, h: int, w: int) -> bool {
    let qi = if r < h {
        r
    } else {
        r - h
    };
    let qj = if c < w {
        c
    } else {
        c - w
    };
    qi < i || (qi == i && qj < j)
}

/// The matrix of twice the rows and twice the columns that holds `c11`
/// top-left, `c12` top-right, `c21` bottom-left and `c22` bottom-right. The
/// four must be of one shape.
pub fn merge_quadrants(c11: &Matrix, c12: &Matrix, c21: &Matrix, c22: &Matrix) -> (r: Result<
    Matrix,
    MatrixError,
>)
    requires
        c11.wf(),
        c12.wf(),
        c21.wf(),
        c22.wf(),
        2 * c11.rows <= usize::MAX,
        2 * c11.cols <= usize::MAX,
        (2 * c11.rows) * (2 * c11.cols) <= usize::MAX,
    ensures
        outcome(r) == merge_spec(c11.model(), c12.model(), c21.model(), c22.model()),
        r matches Ok(m) ==> m.wf(),
{
    let half = c11.rows;
    let width = c11.cols;
    if c12.rows != half || c21.rows != half || c22.rows != half || c12.cols != width || c21.cols
        != width || c22.cols != width {
        return Err(MatrixError::ShapeMismatch);
    }
    let ghost h = half as int;
    let ghost w = width as int;
    let ghost want = assemble(c11.model(), c12.model(), c21.model(), c22.model());
    let mut c = Matrix::new(half * 2, width * 2);
    for i in 0..half
        invariant
            c11.wf(),
            c12.wf(),
            c21.wf(),
            c22.wf(),
            c.wf(),
            h == half == c11.rows == c12.rows == c21.rows == c22.rows,
            w == width == c11.cols == c12.cols == c21.cols == c22.cols,
            c.rows == 2 * h,
            c.cols == 2 * w,
            want == assemble(c11.model(), c12.model(), c21.model(), c22.model()),
            forall|r2: int, c2: int|
                0 <= r2 < 2 * h && 0 <= c2 < 2 * w && merged(r2, c2, i as int, 0, h, w)
                    ==> c.data@[#[trigger] pos(r2, c2, 2 * w)] == want.at(r2, c2),
    {
        for j in 0..width
            invariant
                c11.wf(),
                c12.wf(),
                c21.wf(),
                c22.wf(),
                c.wf(),
                h == half == c11.rows == c12.rows == c21.rows == c22.rows,
                w == width == c11.cols == c12.cols == c21.cols == c22.cols,
                c.rows == 2 * h,
                c.cols == 2 * w,
                0 <= i < half,
                want == assemble(c11.model(), c12.model(), c21.model(), c22.model()),
                forall|r2: int, c2: int|
                    0 <= r2 < 2 * h && 0 <= c2 < 2 * w && merged(r2, c2, i as int, j as int, h, w)
                        ==> c.data@[#[trigger] pos(r2, c2, 2 * w)] == want.at(r2, c2),
        {
            proof {
                lemma_whole_window(h, w);
                lemma_whole_window(2 * h, 2 * w);
                lemma_index_in_bounds(i as int, j as int, h, w, w, h * w);
                lemma_index_in_bounds(i as int, j as int, 2 * h, 2 * w, 2 * w, (2 * h) * (2 * w));
                lemma_index_in_bounds(i as int, j + w, 2 * h, 2 * w, 2 * w, (2 * h) * (2 * w));
                lemma_index_in_bounds(i + h, j as int, 2 * h, 2 * w, 2 * w, (2 * h) * (2 * w));
                lemma_index_in_bounds(i + h, j + w, 2 * h, 2 * w, 2 * w, (2 * h) * (2 * w));
            }
            let ghost d0 = c.data@;
            let v11 = c11.get(i, j);
            let v12 = c12.get(i, j);
            let v21 = c21.get(i, j);
            let v22 = c22.get(i, j);
            c.set(i, j, v11);
            let ghost d1 = c.data@;
            c.set(i, j + width, v12);
            let ghost d2 = c.data@;
            c.set(i + half, j, v21);
            let ghost d3 = c.data@;
            c.set(i + half, j + width, v22);
            proof {
                lemma_window_update(d0, 2 * h, 2 * w, 2 * w, i as int, j as int, v11);
                lemma_window_update(d1, 2 * h, 2 * w, 2 * w, i as int, j + w, v12);
                lemma_window_update(d2, 2 * h, 2 * w, 2 * w, i + h, j as int, v21);
                lemma_window_update(d3, 2 * h, 2 * w, 2 * w, i + h, j + w, v22);
                assert(want.at(i as int, j as int) == v11);
                assert(want.at(i as int, j + w) == v12);
                assert(want.at(i + h, j as int) == v21);
                assert(want.at(i + h, j + w) == v22);
                assert forall|r2: int, c2: int|
                    0 <= r2 < 2 * h && 0 <= c2 < 2 * w && merged(
                        r2,
                        c2,
                        i as int,
                        j + 1,
                        h,
                        w,
                    ) implies c.data@[#[trigger] pos(r2, c2, 2 * w)] == want.at(r2, c2) by {
                    if merged(r2, c2, i as int, j as int, h, w) {
                        assert(d0[pos(r2, c2, 2 * w)] == want.at(r2, c2));
                        assert(d1[pos(r2, c2, 2 * w)] == d0[pos(r2, c2, 2 * w)]);
                        assert(d2[pos(r2, c2, 2 * w)] == d1[pos(r2, c2, 2 * w)]);
                        assert(d3[pos(r2, c2, 2 * w)] == d2[pos(r2, c2, 2 * w)]);
                    } else {
                        assert(d1[pos(i as int, j as int, 2 * w)] == v11);
                        assert(d2[pos(i as int, j as int, 2 * w)] == d1[pos(
                            i as int,
                            j as int,
                            2 * w,
                        )]);
                        assert(d3[pos(i as int, j as int, 2 * w)] == d2[pos(
                            i as int,
                            j as int,
                            2 * w,
                        )]);
                        assert(d2[pos(i as int, j + w, 2 * w)] == v12);
                        assert(d3[pos(i as int, j + w, 2 * w)] == d2[pos(i as int, j + w, 2 * w)]);
                        assert(d3[pos(i + h, j as int, 2 * w)] == v21);
                    }
                }
            }
        }
    }
    proof {
        assert forall|r2: int, c2: int| 0 <= r2 < 2 * h && 0 <= c2 < 2 * w implies c.model().at(
            r2,
            c2,
        ) == want.at(r2, c2) by {
            assert(merged(r2, c2, h, 0, h, w));
            assert(c.data@[pos(r2, c2, 2 * w)] == want.at(r2, c2));
        }
        lemma_same_entries(c.model(), want);
    }
    Ok(c)
}

/// What writing through a sub-window does to the window it was taken from.
/// `before` and `after` are the buffer of a window of `rows` rows of `cols`
/// entries before and after; `part` is the buffer of the sub-window of `h`
/// rows of `w` entries at `(r0, c0)` when it was given back, having been
/// written inside the sub-window only. Then the entries of the block are
/// those of `part`, and the window's other entries and the positions
/// outside the window are as before.
pub proof fn lemma_block_written(
    before: Seq<i32>,
    after: Seq<i32>,
    part: Seq<i32>,
    rows: int,
    cols: int,
    stride: int,
    r0: int,
    c0: int,
    h: int,
    w: int,
)
    requires
        0 <= cols <= stride,
        rows > 0 ==> (rows - 1) * stride + cols <= before.len(),
        0 <= r0,
        0 <= c0,
        0 < h,
        0 < w,
        r0 + h <= rows,
        c0 + w <= cols,
        part.len() == before.len() - pos(r0, c0, stride),
        after == before.subrange(0, pos(r0, c0, stride)) + part,
        forall|k: int|
            0 <= k < part.len() && outside_window(k, h, w, stride) ==> part[k] == before[pos(
                r0,
                c0,
                stride,
            ) + k],
    ensures
        after.len() == before.len(),
        forall|i: int, j: int|
            0 <= i < h && 0 <= j < w ==> after[#[trigger] pos(r0 + i, c0 + j, stride)] == part[pos(
                i,
                j,
                stride,
            )],
        forall|i: int, j: int|
            0 <= i < rows && 0 <= j < cols && !(r0 <= i < r0 + h && c0 <= j < c0 + w)
                ==> after[#[trigger] pos(i, j, stride)] == before[pos(i, j, stride)],
        forall|k: int|
            0 <= k < before.len() && outside_window(k, rows, cols, stride) ==> after[k]
                == before[k],
{
    let off = pos(r0, c0, stride);
    lemma_index_in_bounds(r0, c0, rows, cols, stride, before.len() as int);
    lemma_sub_window(before, rows, cols, stride, r0, c0, h, w);
    assert forall|i: int, j: int| 0 <= i < h && 0 <= j < w implies after[#[trigger] pos(
        r0 + i,
        c0 + j,
        stride,
    )] == part[pos(i, j, stride)] by {
        assert(0 <= pos(i, j, stride) < before.len() - off && off + pos(i, j, stride) == pos(
            r0 + i,
            c0 + j,
            stride,
        ));
    }
    assert forall|i: int, j: int|
        0 <= i < rows && 0 <= j < cols && !(r0 <= i < r0 + h && c0 <= j < c0 + w) implies after[
    #[trigger] pos(i, j, stride)] == before[pos(i, j, stride)] by {
        lemma_index_in_bounds(i, j, rows, cols, stride, before.len() as int);
        let k = pos(i, j, stride);
        if k >= off {
            assert forall|i2: int, j2: int| 0 <= i2 < h && 0 <= j2 < w implies k - off
                != #[trigger] pos(i2, j2, stride) by {
                assert(0 <= pos(i2, j2, stride) < before.len() - off && off + pos(i2, j2, stride)
                    == pos(r0 + i2, c0 + j2, stride));
                if k - off == pos(i2, j2, stride) {
                    lemma_index_injective(i, j, r0 + i2, c0 + j2, cols, stride);
                }
            }
            assert(outside_window(k - off, h, w, stride));
            assert(part[k - off] == before[off + (k - off)]);
        }
    }
    assert forall|k: int|
        0 <= k < before.len() && outside_window(k, rows, cols, stride) implies after[k]
        == before[k] by {
        if k >= off {
            assert forall|i2: int, j2: int| 0 <= i2 < h && 0 <= j2 < w implies k - off
                != #[trigger] pos(i2, j2, stride) by {
                assert(0 <= pos(i2, j2, stride) < before.len() - off && off + pos(i2, j2, stride)
                    == pos(r0 + i2, c0 + j2, stride));
                assert(k != pos(r0 + i2, c0 + j2, stride));
            }
            assert(outside_window(k - off, h, w, stride));
            assert(part[k - off] == before[off + (k - off)]);
        }
    }
}

/// Sets every entry of the window to zero. Nothing outside the window is
/// written.
pub fn zero(v: &mut MatrixViewMut)
    requires
        old(v).wf(),
    ensures
        final(v).same_window(old(v)),
        final(final(v).data)@ == final(old(v).data)@,
        final(v).model() == zero_matrix(old(v).rows as nat, old(v).cols as nat),
{
    let ghost d0 = v.data@;
    let ghost s = v.stride as int;
    let rows = v.rows;
    let cols = v.cols;
    for i in 0..rows
        invariant
            v.wf(),
            rows == v.rows == old(v).rows,
            cols == v.cols == old(v).cols,
            s == v.stride == old(v).stride,
            d0 == old(v).data@,
            v.data@.len() == d0.len(),
            final(v.data)@ == final(old(v).data)@,
            forall|k: int|
                0 <= k < d0.len() && outside_window(k, rows as int, cols as int, s) ==> v.data@[k]
                    == d0[k],
            forall|i2: int, j2: int|
                0 <= i2 < i && 0 <= j2 < cols ==> v.data@[#[trigger] pos(i2, j2, s)] == 0,
    {
        for j in 0..cols
            invariant
                v.wf(),
                rows == v.rows == old(v).rows,
                cols == v.cols == old(v).cols,
                s == v.stride == old(v).stride,
                0 <= i < rows,
                v.data@.len() == d0.len(),
                final(v.data)@ == final(old(v).data)@,
                forall|k: int|
                    0 <= k < d0.len() && outside_window(k, rows as int, cols as int, s)
                        ==> v.data@[k] == d0[k],
                forall|i2: int, j2: int|
                    0 <= i2 < i && 0 <= j2 < cols ==> v.data@[#[trigger] pos(i2, j2, s)] == 0,
                forall|j2: int| 0 <= j2 < j ==> v.data@[#[trigger] pos(i as int, j2, s)] == 0,
        {
            proof {
                v.lemma_entry(i as int, j as int);
                lemma_window_update(v.data@, rows as int, cols as int, s, i as int, j as int, 0);
            }
            v.set(i, j, 0);
        }
    }
    proof {
        let want = zero_matrix(rows as nat, cols as nat);
        assert forall|i2: int, j2: int| 0 <= i2 < rows && 0 <= j2 < cols implies v.model().at(
            i2,
            j2,
        ) == want.at(i2, j2) by {
            assert(v.data@[pos(i2, j2, s)] == 0);
        }
        lemma_same_entries(v.model(), want);
    }
}

/// What `add_views` leaves in an output with contents `c` for operands `a`
/// and `b`: `c + (a + b)`, each sum reduced to 32-bit words, or
/// `ShapeMismatch` where the three are not of one shape.
pub open spec fn add_onto_spec(c: IntMatrix, a: IntMatrix, b: IntMatrix) -> Result<
    IntMatrix,
    MatrixError,
> {
    if same_shape(a, b) && same_shape(a, c) {
        Ok(wrapped(sum(c, wrapped(sum(a, b)))))
    } else {
        Err(MatrixError::ShapeMismatch)
    }
}

/// Adds the entrywise sum of the windows `a` and `b` onto the window `out`,
/// with wrapping arithmetic. Nothing outside the window is written. Where
/// the shapes differ, `out` is left as it was.
pub fn add_views(a: &MatrixViewMut, b: &MatrixViewMut, out: &mut MatrixViewMut) -> (r: Result<
    (),
    MatrixError,
>)
    requires
        a.wf(),
        b.wf(),
        old(out).wf(),
    ensures
        final(out).same_window(old(out)),
        final(final(out).data)@ == final(old(out).data)@,
        match r {
            Ok(_) => add_onto_spec(old(out).model(), a.model(), b.model()) == Ok::<
                IntMatrix,
                MatrixError,
            >(final(out).model()),
            Err(e) => add_onto_spec(old(out).model(), a.model(), b.model()) == Err::<
                IntMatrix,
                MatrixError,
            >(e) && final(out).buffer() == old(out).buffer(),
        },
{
    if a.rows != b.rows || a.cols != b.cols || a.rows != out.rows || a.cols != out.cols {
        return Err(MatrixError::ShapeMismatch);
    }
    let ghost d0 = out.data@;
    let ghost s = out.stride as int;
    let ghost sa = a.stride as int;
    let ghost sb = b.stride as int;
    let ghost da = a.buffer();
    let ghost db = b.buffer();
    let rows = a.rows;
    let cols = a.cols;
    for i in 0..rows
        invariant
            a.wf(),
            b.wf(),
            out.wf(),
            da == a.buffer(),
            db == b.buffer(),
            sa == a.stride,
            sb == b.stride,
            rows == a.rows == b.rows == out.rows == old(out).rows,
            cols == a.cols == b.cols == out.cols == old(out).cols,
            s == out.stride == old(out).stride,
            d0 == old(out).data@,
            out.data@.len() == d0.len(),
            final(out.data)@ == final(old(out).data)@,
            forall|k: int|
                0 <= k < d0.len() && outside_window(k, rows as int, cols as int, s)
                    ==> out.data@[k] == d0[k],
            forall|i2: int, j2: int|
                0 <= i2 < i && 0 <= j2 < cols ==> out.data@[#[trigger] pos(i2, j2, s)] == wrap32(
                    d0[pos(i2, j2, s)] + wrap32(da[pos(i2, j2, sa)] + db[pos(i2, j2, sb)]),
                ),
            forall|i2: int, j2: int|
                i <= i2 < rows && 0 <= j2 < cols ==> out.data@[#[trigger] pos(i2, j2, s)]
                    == d0[pos(i2, j2, s)],
    {
        for j in 0..cols
            invariant
                a.wf(),
                b.wf(),
                out.wf(),
                da == a.buffer(),
                db == b.buffer(),
                sa == a.stride,
                sb == b.stride,
                rows == a.rows == b.rows == out.rows == old(out).rows,
                cols == a.cols == b.cols == out.cols == old(out).cols,
                s == out.stride == old(out).stride,
                0 <= i < rows,
                out.data@.len() == d0.len(),
                final(out.data)@ == final(old(out).data)@,
                forall|k: int|
                    0 <= k < d0.len() && outside_window(k, rows as int, cols as int, s)
                        ==> out.data@[k] == d0[k],
                forall|i2: int, j2: int|
                    0 <= i2 < i && 0 <= j2 < cols ==> out.data@[#[trigger] pos(i2, j2, s)]
                        == wrap32(
                        d0[pos(i2, j2, s)] + wrap32(da[pos(i2, j2, sa)] + db[pos(i2, j2, sb)]),
                    ),
                forall|i2: int, j2: int|
                    i < i2 < rows && 0 <= j2 < cols ==> out.data@[#[trigger] pos(i2, j2, s)]
                        == d0[pos(i2, j2, s)],
                forall|j2: int|
                    0 <= j2 < j ==> out.data@[#[trigger] pos(i as int, j2, s)] == wrap32(
                        d0[pos(i as int, j2, s)] + wrap32(
                            da[pos(i as int, j2, sa)] + db[pos(i as int, j2, sb)],
                        ),
                    ),
                forall|j2: int|
                    j <= j2 < cols ==> out.data@[#[trigger] pos(i as int, j2, s)] == d0[pos(
                        i as int,
                        j2,
                        s,
                    )],
        {
            proof {
                a.lemma_entry(i as int, j as int);
                b.lemma_entry(i as int, j as int);
                out.lemma_entry(i as int, j as int);
            }
            let x = a.get(i, j);
            let y = b.get(i, j);
            let z = out.get(i, j);
            let v = z.wrapping_add(x.wrapping_add(y));
            proof {
                lemma_wrapping_add(x, y);
                lemma_wrapping_add(z, x.wrapping_add(y));
                lemma_window_update(out.data@, rows as int, cols as int, s, i as int, j as int, v);
            }
            out.set(i, j, v);
        }
    }
    proof {
        let want = wrapped(sum(old(out).model(), wrapped(sum(a.model(), b.model()))));
        assert forall|i2: int, j2: int| 0 <= i2 < rows && 0 <= j2 < cols implies out.model().at(
            i2,
            j2,
        ) == want.at(i2, j2) by {
            assert(out.data@[pos(i2, j2, s)] == wrap32(
                d0[pos(i2, j2, s)] + wrap32(da[pos(i2, j2, sa)] + db[pos(i2, j2, sb)]),
            ));
        }
        lemma_same_entries(out.model(), want);
    }
    Ok(())
}

/// The model of a result: the model of the matrix, or the error.
pub open spec fn outcome(r: Result<Matrix, MatrixError>) -> Result<IntMatrix, MatrixError> {
    match r {
        Ok(m) => Ok(m.model()),
        Err(e) => Err(e),
    }
}

} // verus!
