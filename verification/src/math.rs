//! Small arithmetic helpers shared by the arena and the hash tables:
//! a floor base-two logarithm and an executable power of two.

use vstd::prelude::*;
use vstd::arithmetic::power2::pow2;
use vstd::arithmetic::power2::lemma_pow2_unfold;
use vstd::arithmetic::power2::lemma_pow2_strictly_increases;

verus! {

/// Floor of the base-two logarithm of `n`, with `log2(0) == 0`.
pub open spec fn log2(n: nat) -> nat
    decreases n,
{
    if n <= 1 {
        0
    } else {
        1 + log2(n / 2)
    }
}

/// `log2` is the floor logarithm: for positive `n` it is the unique `m`
/// with `pow2(m) <= n < pow2(m + 1)`.
pub proof fn lemma_log2_bounds(n: nat)
    requires
        n >= 1,
    ensures
        pow2(log2(n)) <= n < pow2(log2(n) + 1),
    decreases n,
{
    if n <= 1 {
        vstd::arithmetic::power2::lemma2_to64();
    } else {
        lemma_log2_bounds(n / 2);
        lemma_pow2_unfold(log2(n));
        lemma_pow2_unfold(log2(n) + 1);
    }
}

/// The bounds `pow2(m) <= n < pow2(m + 1)` pin `m` down to `log2(n)`.
pub proof fn lemma_log2_unique(n: nat, m: nat)
    requires
        n >= 1,
        pow2(m) <= n < pow2(m + 1),
    ensures
        m == log2(n),
{
    lemma_log2_bounds(n);
    if m < log2(n) {
        lemma_pow2_strictly_increases(m + 1, log2(n) + 1);
        if m + 1 < log2(n) {
            lemma_pow2_strictly_increases(m + 1, log2(n));
        }
        assert(pow2(m + 1) <= pow2(log2(n)));
    }
    if m > log2(n) {
        if log2(n) + 1 < m {
            lemma_pow2_strictly_increases(log2(n) + 1, m);
        }
        assert(pow2(log2(n) + 1) <= pow2(m));
    }
}

/// Computes `pow2(e)` for exponents small enough that the result fits.
pub fn pow2_exec(e: usize) -> (r: usize)
    requires
        pow2(e as nat) <= usize::MAX,
    ensures
        r == pow2(e as nat),
{
    let mut i: usize = 0;
    let mut p: usize = 1;
    proof {
        vstd::arithmetic::power2::lemma2_to64();
    }
    while i < e
        invariant
            i <= e,
            p == pow2(i as nat),
            pow2(e as nat) <= usize::MAX,
        decreases e - i,
    {
        proof {
            lemma_pow2_unfold(i as nat + 1);
            if i as nat + 1 < e as nat {
                lemma_pow2_strictly_increases(i as nat + 1, e as nat);
            }
        }
        p = p * 2;
        i = i + 1;
    }
    p
}

/// Computes `pow2(e)` as a 64-bit value, for exponents below 64.
pub fn pow2_u64(e: usize) -> (r: u64)
    requires
        e < 64,
    ensures
        r == pow2(e as nat),
{
    let mut i: usize = 0;
    let mut p: u64 = 1;
    proof {
        vstd::arithmetic::power2::lemma2_to64();
        vstd::arithmetic::power2::lemma2_to64_rest();
    }
    while i < e
        invariant
            i <= e,
            e < 64,
            p == pow2(i as nat),
        decreases e - i,
    {
        proof {
            lemma_pow2_unfold(i as nat + 1);
            if i as nat + 1 < 64 {
                lemma_pow2_strictly_increases(i as nat + 1, 64);
            }
            assert(pow2(64) == 0x1_0000_0000_0000_0000) by {
                vstd::arithmetic::power2::lemma2_to64_rest();
            }
        }
        p = p * 2;
        i = i + 1;
    }
    p
}

/// A power of two that fits in `usize` is at most half the modulus of
/// `usize`: doubling it cannot overflow past `usize::MAX + 1`.
pub proof fn lemma_pow2_usize_half(e: nat)
    requires
        pow2(e) <= usize::MAX,
    ensures
        2 * pow2(e) <= usize::MAX + 1,
{
    vstd::layout::unsigned_int_max_values();
    if e >= usize::BITS as nat {
        if e > usize::BITS as nat {
            lemma_pow2_strictly_increases(usize::BITS as nat, e);
        }
        assert(pow2(e) >= pow2(usize::BITS as nat));
    }
    assert(e < usize::BITS as nat);
    if e + 1 < usize::BITS as nat {
        lemma_pow2_strictly_increases(e + 1, usize::BITS as nat);
    }
    lemma_pow2_unfold(e + 1);
}

} // verus!
