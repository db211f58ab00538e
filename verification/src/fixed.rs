//! Fixed-point arithmetic in micro-units.
//!
//! A value `v: i64` stands for the real number `v / SCALE`, so one unit is
//! one millionth. The product of two such values is defined as the
//! mathematical product scaled back down, rounded toward negative infinity:
//! `qmul_spec(a, b) == (a * b) / SCALE` with Euclidean division, which for
//! the positive divisor `SCALE` is exactly the floor.

use vstd::prelude::*;
use vstd::arithmetic::div_mod::{
    lemma_fundamental_div_mod,
    lemma_fundamental_div_mod_converse_div,
    lemma_div_is_ordered,
    lemma_div_multiples_vanish,
};

verus! {

/// One whole (1.0) in micro-units.
pub const SCALE: i64 = 1_000_000;

/// Largest sample magnitude the engine accepts: one million times full
/// scale, far beyond any audio signal, chosen so that convolution sums
/// stay within `i64`.
pub const SAMPLE_LIMIT: i64 = 1_000_000_000_000;

/// Largest magnitude of a single filter coefficient (8.0).
pub const COEFF_LIMIT: i64 = 8_000_000;

/// Largest number of coefficients a filter may carry.
pub const MAX_TAPS: usize = 1_048_576;

/// The scaled-down product of two micro-unit values, rounded toward
/// negative infinity.
pub open spec fn qmul_spec(a: int, b: int) -> int {
    (a * b) / (SCALE as int)
}

/// Euclidean division of `-p` by a positive `d` equals the negated
/// rounded-up quotient of `p`.
pub proof fn lemma_neg_div(p: int, d: int)
    requires
        p >= 0,
        d > 0,
    ensures
        (-p) / d == -((p + d - 1) / d),
{
    let q = p / d;
    let r = p % d;
    lemma_fundamental_div_mod(p, d);
    assert(p == d * q + r);
    if r == 0 {
        assert(-p == (-q) * d + 0) by (nonlinear_arith)
            requires p == d * q + r, r == 0,
        ;
        assert(p + d - 1 == q * d + (d - 1)) by (nonlinear_arith)
            requires p == d * q + r, r == 0,
        ;
        lemma_fundamental_div_mod_converse_div(-p, d, -q, 0);
        lemma_fundamental_div_mod_converse_div(p + d - 1, d, q, d - 1);
    } else {
        assert(-p == (-q - 1) * d + (d - r)) by (nonlinear_arith)
            requires p == d * q + r,
        ;
        assert(p + d - 1 == (q + 1) * d + (r - 1)) by (nonlinear_arith)
            requires p == d * q + r,
        ;
        lemma_fundamental_div_mod_converse_div(-p, d, -q - 1, d - r);
        lemma_fundamental_div_mod_converse_div(p + d - 1, d, q + 1, r - 1);
    }
}

/// Bounds on the operands carry over to the scaled product.
pub proof fn lemma_qmul_bound(a: int, b: int, bound_a: int, bound_b: int)
    requires
        -bound_a <= a <= bound_a,
        -bound_b <= b <= bound_b,
        0 <= bound_a,
        0 <= bound_b,
    ensures
        -((bound_a * bound_b) / (SCALE as int)) - 1 <= qmul_spec(a, b)
            <= (bound_a * bound_b) / (SCALE as int),
{
    let s = SCALE as int;
    let top = bound_a * bound_b;
    assert(-top <= a * b <= top) by (nonlinear_arith)
        requires
            -bound_a <= a <= bound_a,
            -bound_b <= b <= bound_b,
            0 <= bound_a,
            0 <= bound_b,
            top == bound_a * bound_b,
    ;
    lemma_div_is_ordered(a * b, top, s);
    lemma_div_is_ordered(-top, a * b, s);
    lemma_neg_div(top, s);
    assert((-top) / s == -((top + s - 1) / s));
    lemma_div_is_ordered(top, top + s - 1, s);
    assert((top + s - 1) / s <= top / s + 1) by {
        lemma_fundamental_div_mod(top, s);
        let q = top / s;
        let r = top % s;
        if r == 0 {
            assert(top + s - 1 == q * s + (s - 1)) by (nonlinear_arith)
                requires top == s * q + r, r == 0,
            ;
            lemma_fundamental_div_mod_converse_div(top + s - 1, s, q, s - 1);
        } else {
            assert(top + s - 1 == (q + 1) * s + (r - 1)) by (nonlinear_arith)
                requires top == s * q + r,
            ;
            lemma_fundamental_div_mod_converse_div(top + s - 1, s, q + 1, r - 1);
        }
    }
}

/// Multiplying by zero or by one whole unit is exact.
pub proof fn lemma_qmul_unit(a: int)
    ensures
        qmul_spec(a, SCALE as int) == a,
        qmul_spec(SCALE as int, a) == a,
        qmul_spec(a, 0) == 0,
        qmul_spec(0, a) == 0,
{
    let s = SCALE as int;
    lemma_div_multiples_vanish(a, s);
    assert(a * s == s * a) by (nonlinear_arith);
    assert(a * 0 == 0) by (nonlinear_arith);
    assert(0 * a == 0) by (nonlinear_arith);
    assert(0int / s == 0);
}

/// Scaling a non-negative value by a factor of at most one never grows
/// it.
pub proof fn lemma_qmul_shrink(v: int, f: int)
    requires
        0 <= v,
        0 <= f <= SCALE as int,
    ensures
        0 <= qmul_spec(v, f) <= v,
{
    let s = SCALE as int;
    assert(0 <= v * f <= v * s) by (nonlinear_arith)
        requires 0 <= v, 0 <= f <= s,
    ;
    lemma_div_is_ordered(0, v * f, s);
    lemma_div_is_ordered(v * f, v * s, s);
    lemma_div_multiples_vanish(v, s);
    assert(v * s == s * v) by (nonlinear_arith);
}

/// Fixed-point product: `(a * b) / SCALE`, rounded toward negative
/// infinity, computed without overflow through 128-bit intermediates.
pub fn qmul(a: i64, b: i64) -> (r: i64)
    requires
        i64::MIN <= qmul_spec(a as int, b as int) <= i64::MAX,
    ensures
        r as int == qmul_spec(a as int, b as int),
{
    let s = SCALE as u128;
    let aa: u128 = if a >= 0 {
        a as u128
    } else {
        (-(a as i128)) as u128
    };
    let bb: u128 = if b >= 0 {
        b as u128
    } else {
        (-(b as i128)) as u128
    };
    assert(aa as int == abs_val(a as int));
    assert(bb as int == abs_val(b as int));
    assert(aa * bb < u128::MAX) by (nonlinear_arith)
        requires
            aa <= 0x8000_0000_0000_0000u128,
            bb <= 0x8000_0000_0000_0000u128,
    ;
    let prod: u128 = aa * bb;
    let nonneg = (a >= 0) == (b >= 0);
    proof {
        if nonneg {
            assert(a as int * b as int == prod as int) by (nonlinear_arith)
                requires
                    prod as int == abs_val(a as int) * abs_val(b as int),
                    (a as int >= 0) == (b as int >= 0),
                    abs_val(a as int) == if a as int >= 0 { a as int } else { -(a as int) },
                    abs_val(b as int) == if b as int >= 0 { b as int } else { -(b as int) },
            ;
        } else {
            assert(a as int * b as int == -(prod as int)) by (nonlinear_arith)
                requires
                    prod as int == abs_val(a as int) * abs_val(b as int),
                    (a as int >= 0) != (b as int >= 0),
                    abs_val(a as int) == if a as int >= 0 { a as int } else { -(a as int) },
                    abs_val(b as int) == if b as int >= 0 { b as int } else { -(b as int) },
            ;
        }
    }
    if nonneg {
        let q: u128 = prod / s;
        proof {
            assert(q as int == (prod as int) / (SCALE as int));
        }
        q as i64
    } else {
        let q: u128 = (prod + (s - 1)) / s;
        proof {
            lemma_neg_div(prod as int, SCALE as int);
            assert(q as int == ((prod as int) + (SCALE as int) - 1) / (SCALE as int));
        }
        (-(q as i128)) as i64
    }
}

/// Division of a non-negative value by a positive constant.
pub fn div_nn(a: i64, d: u64) -> (r: i64)
    requires
        a >= 0,
        d >= 1,
    ensures
        r as int == a as int / d as int,
        0 <= r <= a,
{
    let q = (a as u64) / d;
    proof {
        lemma_div_is_ordered(a as int, a as int, d as int);
        vstd::arithmetic::div_mod::lemma_div_nonincreasing(a as int, d as int);
    }
    q as i64
}

/// The magnitude of an integer.
pub open spec fn abs_val(x: int) -> int {
    if x >= 0 {
        x
    } else {
        -x
    }
}

/// Saturating addition: the exact sum, clamped to the given symmetric
/// bound.
pub open spec fn sat_add_spec(a: int, b: int, limit: int) -> int {
    let sum = a + b;
    if sum > limit {
        limit
    } else if sum < -limit {
        -limit
    } else {
        sum
    }
}

/// Adds two values and clamps the result to `[-limit, limit]`.
pub fn sat_add(a: i64, b: i64, limit: i64) -> (r: i64)
    requires
        0 <= limit,
        -0x4000_0000_0000_0000 < a < 0x4000_0000_0000_0000,
        -0x4000_0000_0000_0000 < b < 0x4000_0000_0000_0000,
    ensures
        r as int == sat_add_spec(a as int, b as int, limit as int),
{
    let sum = a + b;
    if sum > limit {
        limit
    } else if sum < -limit {
        -limit
    } else {
        sum
    }
}

} // verus!
