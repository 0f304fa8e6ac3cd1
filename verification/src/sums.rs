//! Finite sums of integer functions: the facts about `sum_over` that the
//! algebra of matrix products rests on.

use crate::model::sum_over;
use crate::wrap::{congruent, lemma_congruent_add, lemma_congruent_mul};
use vstd::prelude::*;

verus! {

/// The pointwise sum of two functions.
pub open spec fn plus(f: spec_fn(int) -> int, g: spec_fn(int) -> int) -> spec_fn(int) -> int {
    |k: int| f(k) + g(k)
}

/// The pointwise difference of two functions.
pub open spec fn minus(f: spec_fn(int) -> int, g: spec_fn(int) -> int) -> spec_fn(int) -> int {
    |k: int| f(k) - g(k)
}

/// The pointwise product of two functions.
pub open spec fn times(f: spec_fn(int) -> int, g: spec_fn(int) -> int) -> spec_fn(int) -> int {
    |k: int| f(k) * g(k)
}

/// The function `f` moved by `d`: its value at `k` is `f(k + d)`.
pub open spec fn shifted(f: spec_fn(int) -> int, d: int) -> spec_fn(int) -> int {
    |k: int| f(k + d)
}

/// The inner product of the first `n` values of `f` with those of `g`.
pub open spec fn inner(f: spec_fn(int) -> int, g: spec_fn(int) -> int, n: int) -> int {
    sum_over(times(f, g), 0, n)
}

/// Functions that agree on a range have the same sum over it.
pub proof fn lemma_sum_equal(f: spec_fn(int) -> int, g: spec_fn(int) -> int, lo: int, hi: int)
    requires
        forall|k: int| lo <= k < hi ==> #[trigger] f(k) == g(k),
    ensures
        sum_over(f, lo, hi) == sum_over(g, lo, hi),
    decreases hi - lo,
{
    if hi > lo {
        lemma_sum_equal(f, g, lo, hi - 1);
        assert(f(hi - 1) == g(hi - 1));
    }
}

/// Functions whose values on a range have the same 32-bit words have sums
/// over it with the same 32-bit word.
pub proof fn lemma_sum_congruent(
    f: spec_fn(int) -> int,
    g: spec_fn(int) -> int,
    lo: int,
    hi: int,
)
    requires
        forall|k: int| lo <= k < hi ==> congruent(#[trigger] f(k), g(k)),
    ensures
        congruent(sum_over(f, lo, hi), sum_over(g, lo, hi)),
    decreases hi - lo,
{
    if hi > lo {
        lemma_sum_congruent(f, g, lo, hi - 1);
        assert(congruent(f(hi - 1), g(hi - 1)));
        lemma_congruent_add(
            sum_over(f, lo, hi - 1),
            sum_over(g, lo, hi - 1),
            f(hi - 1),
            g(hi - 1),
        );
    }
}

/// A sum over a range is the sum over its two parts.
pub proof fn lemma_sum_split(f: spec_fn(int) -> int, lo: int, mid: int, hi: int)
    requires
        lo <= mid <= hi,
    ensures
        sum_over(f, lo, hi) == sum_over(f, lo, mid) + sum_over(f, mid, hi),
    decreases hi - mid,
{
    if hi > mid {
        lemma_sum_split(f, lo, mid, hi - 1);
    }
}

/// Moving the function and the range by the same distance keeps the sum.
pub proof fn lemma_sum_shift(f: spec_fn(int) -> int, lo: int, hi: int, d: int)
    ensures
        sum_over(shifted(f, d), lo, hi) == sum_over(f, lo + d, hi + d),
    decreases hi - lo,
{
    if hi > lo {
        lemma_sum_shift(f, lo, hi - 1, d);
        assert(shifted(f, d)(hi - 1) == f(hi - 1 + d));
    }
}

/// The sum of a pointwise sum is the sum of the sums.
pub proof fn lemma_sum_plus(f: spec_fn(int) -> int, g: spec_fn(int) -> int, lo: int, hi: int)
    ensures
        sum_over(plus(f, g), lo, hi) == sum_over(f, lo, hi) + sum_over(g, lo, hi),
    decreases hi - lo,
{
    if hi > lo {
        lemma_sum_plus(f, g, lo, hi - 1);
        assert(plus(f, g)(hi - 1) == f(hi - 1) + g(hi - 1));
    }
}

/// The sum of a function that is zero on the range is zero.
pub proof fn lemma_sum_zero(f: spec_fn(int) -> int, lo: int, hi: int)
    requires
        forall|k: int| lo <= k < hi ==> #[trigger] f(k) == 0,
    ensures
        sum_over(f, lo, hi) == 0,
    decreases hi - lo,
{
    if hi > lo {
        lemma_sum_zero(f, lo, hi - 1);
        assert(f(hi - 1) == 0);
    }
}

/// The sum of a function that is zero on the range but at `p` is its value
/// at `p`.
pub proof fn lemma_sum_single(f: spec_fn(int) -> int, lo: int, hi: int, p: int)
    requires
        lo <= p < hi,
        forall|k: int| lo <= k < hi && k != p ==> #[trigger] f(k) == 0,
    ensures
        sum_over(f, lo, hi) == f(p),
{
    lemma_sum_split(f, lo, p, hi);
    lemma_sum_split(f, p, p + 1, hi);
    lemma_sum_zero(f, lo, p);
    lemma_sum_zero(f, p + 1, hi);
    assert(sum_over(f, p, p + 1) == sum_over(f, p, p) + f(p));
}

/// The sum of a function scaled by `c` is `c` times its sum.
pub proof fn lemma_sum_scale(
    f: spec_fn(int) -> int,
    g: spec_fn(int) -> int,
    c: int,
    lo: int,
    hi: int,
)
    requires
        forall|k: int| lo <= k < hi ==> #[trigger] g(k) == c * f(k),
    ensures
        sum_over(g, lo, hi) == c * sum_over(f, lo, hi),
    decreases hi - lo,
{
    if hi > lo {
        lemma_sum_scale(f, g, c, lo, hi - 1);
        assert(g(hi - 1) == c * f(hi - 1));
        assert(c * (sum_over(f, lo, hi - 1) + f(hi - 1)) == c * sum_over(f, lo, hi - 1) + c * f(
            hi - 1,
        )) by (nonlinear_arith);
    } else {
        assert(c * 0 == 0) by (nonlinear_arith);
    }
}

/// Inner products of functions whose values have the same 32-bit words have
/// the same 32-bit word.
pub proof fn lemma_inner_congruent(
    f1: spec_fn(int) -> int,
    g1: spec_fn(int) -> int,
    f2: spec_fn(int) -> int,
    g2: spec_fn(int) -> int,
    n: int,
)
    requires
        forall|k: int| 0 <= k < n ==> congruent(#[trigger] f1(k), f2(k)),
        forall|k: int| 0 <= k < n ==> congruent(#[trigger] g1(k), g2(k)),
    ensures
        congruent(inner(f1, g1, n), inner(f2, g2, n)),
{
    assert forall|k: int| 0 <= k < n implies congruent(
        #[trigger] times(f1, g1)(k),
        times(f2, g2)(k),
    ) by {
        assert(congruent(f1(k), f2(k)));
        assert(congruent(g1(k), g2(k)));
        lemma_congruent_mul(f1(k), f2(k), g1(k), g2(k));
    }
    lemma_sum_congruent(times(f1, g1), times(f2, g2), 0, n);
}

/// The function of `l` that a function of two arguments is at a fixed first
/// argument `k`.
pub open spec fn at_first(f: spec_fn(int, int) -> int, k: int) -> spec_fn(int) -> int {
    |l: int| f(k, l)
}

/// The function of `k` that a function of two arguments is at a fixed second
/// argument `l`.
pub open spec fn at_second(f: spec_fn(int, int) -> int, l: int) -> spec_fn(int) -> int {
    |k: int| f(k, l)
}

/// For each first argument `k`, the sum of `f(k, l)` over `0 <= l < m`.
pub open spec fn sums_over_second(f: spec_fn(int, int) -> int, m: int) -> spec_fn(int) -> int {
    |k: int| sum_over(at_first(f, k), 0, m)
}

/// For each second argument `l`, the sum of `f(k, l)` over `0 <= k < n`.
pub open spec fn sums_over_first(f: spec_fn(int, int) -> int, n: int) -> spec_fn(int) -> int {
    |l: int| sum_over(at_second(f, l), 0, n)
}

/// A double sum can be taken in either order.
pub proof fn lemma_sum_exchange(f: spec_fn(int, int) -> int, n: int, m: int)
    requires
        0 <= n,
        0 <= m,
    ensures
        sum_over(sums_over_second(f, m), 0, n) == sum_over(sums_over_first(f, n), 0, m),
    decreases n,
{
    if n == 0 {
        assert forall|l: int| 0 <= l < m implies #[trigger] sums_over_first(f, 0)(l) == 0 by {}
        lemma_sum_zero(sums_over_first(f, 0), 0, m);
    } else {
        lemma_sum_exchange(f, n - 1, m);
        let last = at_first(f, n - 1);
        let short = sums_over_first(f, n - 1);
        let long = sums_over_first(f, n);
        assert forall|l: int| 0 <= l < m implies #[trigger] long(l) == plus(short, last)(l) by {
            assert(at_second(f, l)(n - 1) == f(n - 1, l));
            assert(last(l) == f(n - 1, l));
        }
        lemma_sum_equal(long, plus(short, last), 0, m);
        lemma_sum_plus(short, last, 0, m);
        assert(sums_over_second(f, m)(n - 1) == sum_over(last, 0, m));
    }
}

} // verus!
