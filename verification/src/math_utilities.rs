//! Arithmetic helpers for sizing hardware.
use vstd::prelude::*;
use vstd::arithmetic::power2::{pow2, lemma_pow2_unfold, lemma2_to64};

verus! {

/// The number of bits in the binary writing of `n`, without leading zeros
/// (0 for 0).
pub open spec fn bit_width(n: nat) -> nat
    decreases n,
{
    if n == 0 {
        0
    } else {
        1 + bit_width(n / 2)
    }
}

/// `bit_width(n)` bits hold `n`, and no fewer do: `n < 2^bit_width(n)`, and
/// `2^(bit_width(n) - 1) <= n` when `n > 0`.
pub proof fn lemma_bit_width_bounds(n: nat)
    ensures
        n < pow2(bit_width(n)),
        n > 0 ==> pow2((bit_width(n) - 1) as nat) <= n,
    decreases n,
{
    reveal(pow2);
    if n > 0 {
        lemma_bit_width_bounds(n / 2);
        lemma_pow2_unfold(bit_width(n));
        if n / 2 > 0 {
            lemma_pow2_unfold((bit_width(n) - 1) as nat);
        } else {
            assert(bit_width(n / 2) == 0);
            vstd::arithmetic::power::lemma_pow0(2);
        }
    } else {
        vstd::arithmetic::power::lemma_pow0(2);
    }
}

/// A value below `2^k` needs at most `k` bits.
pub proof fn lemma_bit_width_le(n: nat, k: nat)
    requires
        n < pow2(k),
    ensures
        bit_width(n) <= k,
    decreases k,
{
    if n > 0 {
        if k == 0 {
            vstd::arithmetic::power::lemma_pow0(2);
            reveal(pow2);
        } else {
            lemma_pow2_unfold(k);
            lemma_bit_width_le(n / 2, (k - 1) as nat);
        }
    }
}

/// Returns the bit width necessary to represent `states`.
pub fn get_bit_width_from(states: u64) -> (w: u64)
    ensures
        w == bit_width(states as nat),
        w <= 64,
{
    proof {
        lemma2_to64();
        lemma_bit_width_le(states as nat, 64);
    }
    let mut w: u64 = 0;
    let mut x: u64 = states;
    while x > 0
        invariant
            w + bit_width(x as nat) == bit_width(states as nat),
            bit_width(states as nat) <= 64,
        decreases x,
    {
        x = x / 2;
        w = w + 1;
    }
    w
}

} // verus!
