//! Sizing of the dispersion kernel.
//!
//! The kernel is the inverse real FFT of an all-pass spectrum; its length is the
//! smallest power of two that holds the whole dispersion spread plus a fixed
//! margin, capped by the quality budget.

use vstd::prelude::*;
use vstd::arithmetic::power2::{pow2, lemma_pow2_pos, lemma_pow2_unfold, lemma_pow2_strictly_increases};

verus! {

/// Extra taps added to the dispersion spread before rounding up to a power of two.
pub const KERNEL_MARGIN: usize = 2048;

/// `n` is a power of two.
pub open spec fn is_power_of_two(n: int) -> bool {
    exists|k: nat| pow2(k) == n
}

/// `n` is the FFT length for a kernel that needs `need` taps under the cap
/// `max_len`: the smallest power of two that is at least `need`, or `max_len`
/// when that power of two would exceed it.
pub open spec fn is_kernel_len(n: int, need: int, max_len: int) -> bool {
    &&& is_power_of_two(n)
    &&& n <= max_len
    &&& (n >= need || n == max_len)
    &&& n / 2 < need
}

/// FFT length of the dispersion kernel: the smallest power of two holding
/// `spread_samples + KERNEL_MARGIN` taps, capped at `max_len`.
///
/// `spread_samples` is the dispersion spread in samples, rounded up.
pub fn kernel_fft_len(spread_samples: usize, max_len: usize) -> (n: usize)
    requires
        is_power_of_two(max_len as int),
        spread_samples + KERNEL_MARGIN <= usize::MAX,
    ensures
        is_kernel_len(n as int, spread_samples + KERNEL_MARGIN, max_len as int),
{
    let need: usize = spread_samples + KERNEL_MARGIN;
    let ghost m: nat = choose|k: nat| pow2(k) == max_len;
    let mut n: usize = 1;
    let ghost mut k: nat = 0;
    assert(pow2(0) == 1) by {
        vstd::arithmetic::power2::lemma2_to64();
    }
    proof {
        lemma_pow2_pos(m);
    }
    while n < need && n < max_len
        invariant
            need == spread_samples + KERNEL_MARGIN,
            pow2(m) == max_len,
            pow2(k) == n,
            n <= max_len,
            n / 2 < need,
        decreases max_len - n,
    {
        proof {
            lemma_pow2_pos(k);
            if k >= m {
                if k > m {
                    lemma_pow2_strictly_increases(m, k);
                }
                assert(false);
            }
            lemma_pow2_unfold(k + 1);
            if k + 1 < m {
                lemma_pow2_strictly_increases(k + 1, m);
            }
        }
        n = n * 2;
        proof {
            k = k + 1;
        }
    }
    n
}

/// Number of bins of the one-sided spectrum of a real signal of length `n`.
pub fn spectrum_bins(n: usize) -> (bins: usize)
    ensures
        bins == n / 2 + 1,
{
    n / 2 + 1
}

} // verus!
