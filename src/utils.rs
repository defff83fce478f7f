use vstd::prelude::*;
use vstd::arithmetic::power2::{pow2, lemma_pow2_pos, lemma_pow2_unfold, lemma_pow2_strictly_increases};

verus! {

/// `x` is `2^k` for some `k >= 0` (so 1 counts as a power of two).
pub open spec fn is_power_of_two(x: int) -> bool {
    exists|k: nat| pow2(k) == x
}

/// Powers of two are strictly increasing in the exponent, in both directions.
pub proof fn lemma_pow2_order(a: nat, b: nat)
    ensures
        a < b <==> pow2(a) < pow2(b),
        a == b <==> pow2(a) == pow2(b),
{
    if a < b {
        lemma_pow2_strictly_increases(a, b);
    } else if b < a {
        lemma_pow2_strictly_increases(b, a);
    }
}

/// A value strictly between `2^(k-1)` and `2^k` is no power of two; a value
/// in `(2^(k-1), 2^k]` is one exactly when it equals `2^k`.
pub proof fn lemma_pow2_between(x: int, k: nat)
    requires
        k == 0 || pow2((k - 1) as nat) < x,
        x <= pow2(k),
    ensures
        is_power_of_two(x) <==> x == pow2(k),
{
    if is_power_of_two(x) {
        let j = choose|j: nat| pow2(j) == x;
        lemma_pow2_order(j, k);
        if j < k {
            lemma_pow2_order(j, (k - 1) as nat);
        }
    }
}

/// Returns `true` if `nr` is a power of two (including 1).
pub fn is_pow2(nr: u32) -> (r: bool)
    ensures
        r == is_power_of_two(nr as int),
{
    if nr == 0 {
        proof {
            if is_power_of_two(0) {
                let k = choose|k: nat| pow2(k) == 0;
                lemma_pow2_pos(k);
            }
        }
        return false;
    }
    let mut p: u64 = 1;
    let ghost mut k: nat = 0;
    proof {
        lemma_pow2_unfold(1);
        assert(pow2(0) == 1) by {
            vstd::arithmetic::power2::lemma2_to64();
        }
    }
    while p < nr as u64
        invariant
            nr > 0,
            p == pow2(k),
            p >= 1,
            k == 0 || pow2((k - 1) as nat) < nr,
        decreases 2 * (nr as int) - p as int,
    {
        proof {
            lemma_pow2_unfold(k + 1);
            lemma_pow2_pos(k);
        }
        p = p * 2;
        proof {
            k = k + 1;
        }
    }
    proof {
        lemma_pow2_between(nr as int, k);
    }
    p == nr as u64
}

} // verus!
