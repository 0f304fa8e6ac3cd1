//! The fork-join primitives of the thread pool that the parallel multipliers
//! run on.

use vstd::prelude::*;

verus! {

/// `rayon::join` runs both closures, possibly at the same time on two
/// threads of the pool, and returns when both have returned, with the pair of
/// what they returned. The contract says no more than that: each closure must
/// be callable, and each component of the pair is a value that its closure can
/// return.
pub assume_specification<A, B, RA, RB>[ rayon::join::<A, B, RA, RB> ](oper_a: A, oper_b: B) -> (r: (
    RA,
    RB,
)) where A: FnOnce() -> RA + Send, B: FnOnce() -> RB + Send, RA: Send, RB: Send
    requires
        oper_a.requires(()),
        oper_b.requires(()),
    ensures
        oper_a.ensures((), r.0),
        oper_b.ensures((), r.1),
;

} // verus!
