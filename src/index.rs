//! Packing small tuples of indices into one table position.

use vstd::prelude::*;

verus! {

/// A pair packed as `a * k + b` stays below `n * k`.
pub proof fn lemma_mix_bound(a: int, b: int, n: int, k: int)
    requires
        0 <= a < n,
        0 <= b < k,
    ensures
        0 <= a * k + b < n * k,
{
    assert(a * k + b < n * k) by (nonlinear_arith)
        requires
            0 <= a < n,
            0 <= b < k,
    ;
    assert(0 <= a * k) by (nonlinear_arith)
        requires
            0 <= a,
            0 <= k,
    ;
}

/// Packing a pair as `a * k + b` loses nothing.
pub proof fn lemma_mix_inj(a1: int, b1: int, a2: int, b2: int, k: int)
    requires
        0 <= a1,
        0 <= a2,
        0 <= b1 < k,
        0 <= b2 < k,
        a1 * k + b1 == a2 * k + b2,
    ensures
        a1 == a2,
        b1 == b2,
{
    if a1 < a2 {
        assert(a1 * k + k <= a2 * k) by (nonlinear_arith)
            requires
                a1 < a2,
                0 < k,
        ;
    } else if a2 < a1 {
        assert(a2 * k + k <= a1 * k) by (nonlinear_arith)
            requires
                a2 < a1,
                0 < k,
        ;
    }
}

} // verus!
