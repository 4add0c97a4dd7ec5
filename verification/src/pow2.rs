//! Powers of two, as far as the shape of the tree needs them.
use vstd::arithmetic::power::pow;
use vstd::arithmetic::power2::{
    is_pow2, is_pow2_equiv, is_pow2_exists, lemma2_to64, lemma2_to64_rest, lemma_pow2,
};
use vstd::prelude::*;

verus! {

/// The smallest power of two that is at least `n`; it is 1 for `n <= 1`.
///
/// [`lemma_ceil_pow2`] and [`lemma_ceil_pow2_least`] show that the recursion
/// computes exactly that.
pub open spec fn ceil_pow2(n: nat) -> nat
    decreases n,
{
    if n <= 1 {
        1
    } else {
        2 * ceil_pow2((n + 1) / 2)
    }
}

/// A power of two is positive, and is even unless it is 1; its half is then a
/// power of two again, and so is its double.
pub proof fn lemma_pow2_step(p: int)
    requires
        is_pow2(p),
    ensures
        p >= 1,
        p > 1 ==> p % 2 == 0 && is_pow2(p / 2),
        is_pow2(2 * p),
{
    reveal(is_pow2);
    assert((2 * p) / 2 == p);
}

/// Between a power of two and its double lies no other power of two.
pub proof fn lemma_pow2_gap(p: int, q: int)
    requires
        is_pow2(p),
        is_pow2(q),
        p < q,
    ensures
        2 * p <= q,
    decreases q,
{
    lemma_pow2_step(p);
    lemma_pow2_step(q);
    if p < q / 2 {
        lemma_pow2_gap(p, q / 2);
    } else if p > q / 2 {
        lemma_pow2_gap(p / 2, q / 2);
    }
}

/// `ceil_pow2(n)` is a power of two and is not below `n`.
pub proof fn lemma_ceil_pow2(n: nat)
    ensures
        is_pow2(ceil_pow2(n) as int),
        n <= ceil_pow2(n),
    decreases n,
{
    reveal(is_pow2);
    if n > 1 {
        lemma_ceil_pow2((n + 1) / 2);
        lemma_pow2_step(ceil_pow2((n + 1) / 2) as int);
    }
}

/// No power of two that is at least `n` is smaller than `ceil_pow2(n)`.
pub proof fn lemma_ceil_pow2_least(n: nat, q: int)
    requires
        is_pow2(q),
        n <= q,
    ensures
        ceil_pow2(n) <= q,
    decreases n,
{
    lemma_pow2_step(q);
    if n > 1 {
        lemma_ceil_pow2_least((n + 1) / 2, q / 2);
    }
}

/// A quarter of the range of `usize` is a power of two.
proof fn lemma_quarter_of_usize()
    ensures
        is_pow2(usize::MAX / 4 + 1),
        4 * (usize::MAX / 4 + 1) == usize::MAX + 1,
{
    lemma2_to64();
    lemma2_to64_rest();
    lemma_pow2(30);
    lemma_pow2(62);
    assert(is_pow2_exists(0x4000_0000)) by {
        assert(pow(2, 30) == 0x4000_0000);
    }
    assert(is_pow2_exists(0x4000_0000_0000_0000)) by {
        assert(pow(2, 62) == 0x4000_0000_0000_0000);
    }
    is_pow2_equiv(0x4000_0000);
    is_pow2_equiv(0x4000_0000_0000_0000);
}

/// Twice `ceil_pow2(n)` fits in a `usize` exactly when `n` is at most a
/// quarter of the range of `usize`.
pub proof fn lemma_double_ceil_pow2_fits(n: nat)
    ensures
        2 * ceil_pow2(n) <= usize::MAX <==> n <= usize::MAX / 4 + 1,
{
    let quarter = usize::MAX / 4 + 1;
    lemma_quarter_of_usize();
    lemma_ceil_pow2(n);
    if n <= quarter {
        lemma_ceil_pow2_least(n, quarter);
    } else {
        lemma_pow2_gap(quarter, ceil_pow2(n) as int);
    }
}

} // verus!
