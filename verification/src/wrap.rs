//! Arithmetic of 32-bit two's-complement words, stated over the integers.
//!
//! Entries of a matrix are `i32` values and every sum, difference and product
//! of entries is taken with the wrapping operations of `i32`. An entry of a
//! result is therefore the true integer result reduced to its 32-bit word,
//! and equals the true result whenever that fits in an `i32`.

use vstd::arithmetic::div_mod::lemma_mul_mod_noop_general;
use vstd::prelude::*;

verus! {

/// The 32-bit two's-complement word of the integer `x`: the one integer in
/// the range of `i32` that differs from `x` by a multiple of 2^32.
pub open spec fn wrap32(x: int) -> int {
    let r = x % 0x1_0000_0000;
    if r > 0x7fff_ffff {
        r - 0x1_0000_0000
    } else {
        r
    }
}

/// Two integers have the same 32-bit word.
pub open spec fn congruent(x: int, y: int) -> bool {
    wrap32(x) == wrap32(y)
}

/// A word lies in the range of `i32`, and a value in that range is its own word.
pub proof fn lemma_wrap32_range(x: int)
    ensures
        i32::MIN <= wrap32(x) <= i32::MAX,
        i32::MIN <= x <= i32::MAX ==> wrap32(x) == x,
        congruent(wrap32(x), x),
{
}

/// Two integers have the same word exactly when they leave the same
/// remainder modulo 2^32.
pub proof fn lemma_congruent_mod(x: int, y: int)
    ensures
        congruent(x, y) <==> x % 0x1_0000_0000 == y % 0x1_0000_0000,
{
}

/// Sums of congruent integers are congruent.
pub proof fn lemma_congruent_add(x1: int, x2: int, y1: int, y2: int)
    requires
        congruent(x1, x2),
        congruent(y1, y2),
    ensures
        congruent(x1 + y1, x2 + y2),
{
}

/// Differences of congruent integers are congruent.
pub proof fn lemma_congruent_sub(x1: int, x2: int, y1: int, y2: int)
    requires
        congruent(x1, x2),
        congruent(y1, y2),
    ensures
        congruent(x1 - y1, x2 - y2),
{
}

/// Products of congruent integers are congruent.
pub proof fn lemma_congruent_mul(x1: int, x2: int, y1: int, y2: int)
    requires
        congruent(x1, x2),
        congruent(y1, y2),
    ensures
        congruent(x1 * y1, x2 * y2),
{
    let m: int = 0x1_0000_0000;
    lemma_congruent_mod(x1, x2);
    lemma_congruent_mod(y1, y2);
    lemma_mul_mod_noop_general(x1, y1, m);
    lemma_mul_mod_noop_general(x2, y2, m);
    assert((x1 * y1) % m == ((x1 % m) * (y1 % m)) % m);
    assert((x2 * y2) % m == ((x2 % m) * (y2 % m)) % m);
    lemma_congruent_mod(x1 * y1, x2 * y2);
}

/// `i32::wrapping_add` yields the word of the integer sum.
pub proof fn lemma_wrapping_add(x: i32, y: i32)
    ensures
        x.wrapping_add(y) == wrap32(x + y),
{
}

/// `i32::wrapping_sub` yields the word of the integer difference.
pub proof fn lemma_wrapping_sub(x: i32, y: i32)
    ensures
        x.wrapping_sub(y) == wrap32(x - y),
{
}

/// `i32::wrapping_mul` yields the word of the integer product.
pub proof fn lemma_wrapping_mul(x: i32, y: i32)
    ensures
        x.wrapping_mul(y) == wrap32(x * y),
{
}

/// One step of a wrapped multiply-accumulate: adding the wrapped product of
/// two words to a word congruent to `acc` gives the word of `acc + x * y`.
pub proof fn lemma_wrapping_mul_add(c: i32, acc: int, x: i32, y: i32)
    requires
        congruent(c as int, acc),
    ensures
        c.wrapping_add(x.wrapping_mul(y)) == wrap32(acc + x * y),
{
    lemma_wrapping_mul(x, y);
    lemma_wrapping_add(c, x.wrapping_mul(y));
    lemma_wrap32_range(x * y);
    lemma_congruent_add(c as int, acc, wrap32(x * y), x * y);
}

} // verus!
