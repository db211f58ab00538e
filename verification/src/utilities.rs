//! Shared helpers: power-of-two buffer sizing and the bitmask form of
//! index wraparound that the circular buffers rely on.

use vstd::prelude::*;
use vstd::arithmetic::power2::{pow2, lemma_pow2_unfold, lemma_pow2_pos, lemma2_to64};
use vstd::arithmetic::div_mod::{
    lemma_div_is_ordered,
    lemma_div_multiples_vanish,
    lemma_mod_bound,
    lemma_fundamental_div_mod,
};
use vstd::bits::{low_bits_mask, lemma_usize_low_bits_mask_is_mod};
use crate::fixed::{SCALE, qmul, qmul_spec, abs_val, lemma_qmul_bound};
use crate::math::{PI_Q, sin_series, sin_kernel};

verus! {

/// Arguments closer to zero than one micro-sample count as zero for the
/// sampling function.
pub const SINC_EPSILON: i64 = 1;

/// Largest magnitude the sampling function accepts, in micro-samples.
pub const SINC_ARG_LIMIT: i64 = 1_000_000_000_000;

/// The normalized sampling function `sin(pi x) / (pi x)` in
/// micro-units, evaluated by splitting the argument's magnitude into
/// its nearest integer `m` and fraction `f`, so that only `sin(pi |f|)`
/// is ever summed: the value is `(-1)^m sin(pi f) / (pi |x|)` with the
/// sign of the whole attached at the end, and one exactly near zero.
pub open spec fn sinc_spec(x: int) -> int {
    let ax = abs_val(x);
    if ax < SINC_EPSILON {
        SCALE as int
    } else {
        let s = SCALE as int;
        let m = (ax + 500_000) / s;
        let f = ax - m * s;
        let sv = sin_series(qmul_spec(PI_Q as int, abs_val(f)));
        let d = qmul_spec(PI_Q as int, ax);
        let mag = (sv * s) / d;
        if (m % 2 == 0) == (f >= 0) {
            mag
        } else {
            -mag
        }
    }
}

/// Computes `sinc_spec(x)`: the normalized sampling function, one near
/// zero, never above one in magnitude.
pub fn sinc(x: i64) -> (r: i64)
    requires
        -SINC_ARG_LIMIT <= x <= SINC_ARG_LIMIT,
    ensures
        r as int == sinc_spec(x as int),
        -SCALE <= r <= SCALE,
        abs_val(x as int) < SINC_EPSILON ==> r == SCALE,
{
    let ax = if x >= 0 {
        x
    } else {
        -x
    };
    if ax < SINC_EPSILON {
        return SCALE;
    }
    let m = ((ax as u64 + 500_000) / (SCALE as u64)) as i64;
    proof {
        lemma_fundamental_div_mod(ax as int + 500_000, SCALE as int);
        lemma_mod_bound(ax as int + 500_000, SCALE as int);
        lemma_div_is_ordered(0, ax as int + 500_000, SCALE as int);
        lemma_div_is_ordered(ax as int + 500_000, SINC_ARG_LIMIT as int + 500_000, SCALE as int);
    }
    let f = ax - m * SCALE;
    proof {
        assert((m as int) * (SCALE as int) == (SCALE as int) * (m as int)) by (nonlinear_arith);
        assert(-500_000 <= f < 500_000 + 1);
    }
    let af = if f >= 0 {
        f
    } else {
        -f
    };
    proof {
        lemma_qmul_bound(PI_Q as int, af as int, PI_Q as int, 500_000);
        lemma_div_is_ordered(0, (PI_Q as int) * (af as int), SCALE as int);
        assert((PI_Q as int) * (af as int) >= 0) by (nonlinear_arith)
            requires af >= 0,
        ;
    }
    let u = qmul(PI_Q, af);
    let sv = sin_kernel(u);
    proof {
        lemma_qmul_bound(PI_Q as int, ax as int, PI_Q as int, SINC_ARG_LIMIT as int);
        assert((PI_Q as int) * (ax as int) >= (PI_Q as int) * 1) by (nonlinear_arith)
            requires ax >= 1,
        ;
        lemma_div_is_ordered((PI_Q as int) * 1, (PI_Q as int) * (ax as int), SCALE as int);
        assert(((PI_Q as int) * 1) / (SCALE as int) == 3);
    }
    let d = qmul(PI_Q, ax);
    proof {
        // The numerator never exceeds the denominator, so the magnitude
        // never exceeds one.
        if m == 0 {
            assert(af == ax);
            assert(u == d);
        } else {
            assert(ax >= 500_000);
            assert((PI_Q as int) * (ax as int) >= (PI_Q as int) * 500_000) by (nonlinear_arith)
                requires ax >= 500_000,
            ;
            lemma_div_is_ordered(
                (PI_Q as int) * 500_000,
                (PI_Q as int) * (ax as int),
                SCALE as int,
            );
            assert(((PI_Q as int) * 500_000) / (SCALE as int) == 1_570_796);
            assert((PI_Q as int) * (af as int) <= (PI_Q as int) * 500_000) by (nonlinear_arith)
                requires af <= 500_000,
            ;
            lemma_div_is_ordered(
                (PI_Q as int) * (af as int),
                (PI_Q as int) * 500_000,
                SCALE as int,
            );
        }
        assert(sv <= d);
        assert((sv as int) * (SCALE as int) <= (d as int) * (SCALE as int)) by (nonlinear_arith)
            requires sv as int <= d as int, SCALE > 0,
        ;
        lemma_div_is_ordered(
            (sv as int) * (SCALE as int),
            (d as int) * (SCALE as int),
            d as int,
        );
        lemma_div_multiples_vanish(SCALE as int, d as int);
        assert((d as int) * (SCALE as int) == (SCALE as int) * (d as int)) by (nonlinear_arith);
        assert((sv as int) * (SCALE as int) >= 0) by (nonlinear_arith)
            requires sv >= 0,
        ;
        lemma_div_is_ordered(0, (sv as int) * (SCALE as int), d as int);
    }
    let mag = (((sv as u64) * (SCALE as u64)) / (d as u64)) as i64;
    if (m % 2 == 0) == (f >= 0) {
        mag
    } else {
        -mag
    }
}

/// A circular-buffer length: a power of two no larger than 2^30, so that
/// it fits comfortably in `usize` on any platform and its mask covers
/// fewer bits than the word size.
pub open spec fn is_ring_len(l: int) -> bool {
    exists|k: nat| k <= 30 && l == pow2(k)
}

/// The smallest power of two that is at least `n` (and at least 1).
///
/// The result is pinned down exactly: it is a power of two, it is at
/// least `n`, and half of it (if it is more than 1) is below `n`.
pub fn next_power_of_two(n: usize) -> (r: usize)
    requires
        n <= 0x4000_0000,
    ensures
        is_ring_len(r as int),
        n <= r,
        1 <= r <= 0x4000_0000,
        r == 1 || r / 2 < n,
{
    let mut r: usize = 1;
    let ghost mut k: nat = 0nat;
    proof {
        lemma2_to64();
        assert(pow2(0) == 1);
    }
    while r < n
        invariant
            n <= 0x4000_0000,
            r == pow2(k),
            k <= 30,
            1 <= r,
            r == 1 || r / 2 < n,
        decreases n + n - r,
    {
        proof {
            // r < n <= 2^30 and r == pow2(k), so k < 30 and doubling stays in range.
            lemma2_to64();
            if k >= 30 {
                assert(pow2(30) == 0x4000_0000);
            }
            k = k + 1;
            lemma_pow2_unfold(k);
        }
        r = r * 2;
    }
    proof {
        assert(k <= 30 && r == pow2(k));
    }
    r
}

/// For a power-of-two length, masking with `len - 1` is reduction
/// modulo `len`.
pub proof fn lemma_mask_is_mod(x: usize, len: usize)
    requires
        is_ring_len(len as int),
    ensures
        x & (len - 1) as usize == x as int % len as int,
{
    let k = choose|k: nat| k <= 30 && len as int == pow2(k);
    lemma_pow2_pos(k);
    lemma_usize_low_bits_mask_is_mod(x, k);
    assert(low_bits_mask(k) == (pow2(k) - 1) as nat);
    assert((len - 1) as usize == low_bits_mask(k) as usize);
}

} // verus!
