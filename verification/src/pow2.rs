//! Powers of two: the least power of two at or above a number.

use vstd::prelude::*;
use vstd::arithmetic::power2::*;

verus! {

/// The smallest power of two `p` with `p >= n`, searching upwards from `p`.
pub open spec fn next_pow2_from(n: nat, p: nat) -> nat
    decreases 2 * n - p,
{
    if p == 0 || p >= n {
        p
    } else {
        next_pow2_from(n, 2 * p)
    }
}

/// The smallest power of two that is at least `n` (one for zero).
pub open spec fn spec_next_power_of_two(n: nat) -> nat {
    next_pow2_from(n, 1)
}

proof fn lemma_next_pow2_from(n: nat, k: nat)
    requires
        k == 0 || pow2((k - 1) as nat) < n,
    ensures
        exists|m: nat| #![trigger pow2(m)] m >= k && next_pow2_from(n, pow2(k)) == pow2(m) && pow2(m) >= n
            && (m == 0 || pow2((m - 1) as nat) < n),
    decreases 2 * n - pow2(k),
{
    lemma_pow2_pos(k);
    if pow2(k) >= n {
        assert(next_pow2_from(n, pow2(k)) == pow2(k));
    } else {
        lemma_pow2_unfold(k + 1);
        assert(pow2(k + 1) == 2 * pow2(k));
        lemma_next_pow2_from(n, k + 1);
    }
}

/// `spec_next_power_of_two(n)` is a power of two, at least `n`, and the least such.
pub proof fn lemma_next_power_of_two(n: nat) -> (k: nat)
    ensures
        spec_next_power_of_two(n) == pow2(k),
        pow2(k) >= n,
        k == 0 || pow2((k - 1) as nat) < n,
{
    lemma2_to64();
    lemma_next_pow2_from(n, 0);
    choose|m: nat| #![trigger pow2(m)] m >= 0 && next_pow2_from(n, pow2(0)) == pow2(m) && pow2(m) >= n
        && (m == 0 || pow2((m - 1) as nat) < n)
}

/// The smallest power of two that is at least `n`; `1` for `0`.
pub fn next_power_of_two(n: usize) -> (res: usize)
    requires
        n <= usize::MAX / 2 + 1,
    ensures
        res == spec_next_power_of_two(n as nat),
        res >= n,
        res >= 1,
{
    let mut p: usize = 1;
    while p < n
        invariant
            1 <= p,
            p < 2 * n || p == 1,
            n <= usize::MAX / 2 + 1,
            next_pow2_from(n as nat, p as nat) == spec_next_power_of_two(n as nat),
        decreases 2 * n - p,
    {
        p = p * 2;
    }
    p
}

/// The FFT length for a window of `win_length` samples: the least power of two that holds it.
pub fn calc_proper_n_fft(win_length: usize) -> (n_fft: usize)
    requires
        win_length <= usize::MAX / 2 + 1,
    ensures
        n_fft == spec_next_power_of_two(win_length as nat),
{
    next_power_of_two(win_length)
}

} // verus!
