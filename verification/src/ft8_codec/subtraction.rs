//! Sizes for the removal of a decoded signal.
use vstd::arithmetic::power2::*;
use vstd::prelude::*;

verus! {

/// The least power of two that is not below `n`.
pub fn next_power_of_2(n: usize) -> (p: usize)
    requires
        n <= usize::MAX / 2 + 1,
    ensures
        exists|k: nat| p == #[trigger] pow2(k),
        p >= n,
        p == 1 || p / 2 < n,
{
    let mut p: usize = 1;
    let ghost mut k: nat = 0;
    proof {
        lemma2_to64();
    }
    while p < n
        invariant
            n <= usize::MAX / 2 + 1,
            p >= 1,
            p == pow2(k),
            p == 1 || p / 2 < n,
        decreases
            if p < n {
                n - p
            } else {
                0
            },
    {
        p = p * 2;
        proof {
            k = k + 1;
            lemma_pow2_unfold(k);
        }
    }
    p
}

} // verus!
