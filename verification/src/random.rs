//! Test matrices with random small entries.

use crate::matrix::Matrix;
use rand::Rng;
use vstd::prelude::*;

verus! {

/// The generator of random numbers that `rand` keeps for each thread. Nothing
/// is known of its state.
#[verifier::external_type_specification]
#[verifier::external_body]
pub struct ExThreadRng(rand::rngs::ThreadRng);

/// `rand::thread_rng` hands out the generator of the calling thread. Nothing
/// is claimed of it.
pub assume_specification[ rand::thread_rng ]() -> rand::rngs::ThreadRng
;

/// `Rng::gen_range` on the half-open range `low..high` of `i32`: it panics on
/// an empty range, which the precondition leaves out, and otherwise returns
/// some value of the range. Which one is not known, and two calls may differ.
#[verifier::external_body]
fn random_in(rng: &mut rand::rngs::ThreadRng, low: i32, high: i32) -> (v: i32)
    requires
        low < high,
    ensures
        low <= v < high,
{
    rng.gen_range(low..high)
}

/// A matrix of the given shape whose entries are random digits: each lies in
/// `0..10`, and nothing more is known of them.
pub fn generate_matrix(rows: usize, cols: usize) -> (m: Matrix)
    requires
        rows * cols <= usize::MAX,
    ensures
        m.wf(),
        m.rows == rows,
        m.cols == cols,
        forall|k: int| 0 <= k < m.data@.len() ==> 0 <= #[trigger] m.data@[k] < 10,
{
    let mut rng = rand::thread_rng();

    let mut data = Vec::with_capacity(rows * cols);
    for n in 0..rows * cols
        invariant
            data@.len() == n,
            forall|k: int| 0 <= k < data@.len() ==> 0 <= #[trigger] data@[k] < 10,
    {
        let v = random_in(&mut rng, 0, 10);
        data.push(v);
    }

    Matrix { rows, cols, data }
}

} // verus!
