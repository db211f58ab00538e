//! Fixed-point approximations of the transcendental functions the
//! engine needs. Each routine computes a deterministic micro-unit
//! approximation whose exact value is pinned down by a spec-level
//! mirror of the algorithm, together with proved range facts.

use vstd::prelude::*;
use vstd::arithmetic::div_mod::{
    lemma_fundamental_div_mod_converse_div,
    lemma_div_is_ordered,
};
use crate::fixed::{SCALE, qmul, qmul_spec, lemma_qmul_bound, div_nn};

verus! {

/// Arguments at least this large (20.0) make `exp(-t)` smaller than one
/// micro-unit, so the decay routine returns zero outright.
pub const EXP_UNDERFLOW: i64 = 20_000_000;

/// One fixed-point product step `(a * u) / SCALE` keeps a value in
/// `[0, a]`, and strictly shrinks a positive value when `u < SCALE`.
pub proof fn lemma_decay_step(a: int, u: int)
    requires
        0 <= a <= SCALE as int,
        0 <= u < SCALE as int,
    ensures
        0 <= qmul_spec(a, u),
        qmul_spec(a, u) <= a,
        a >= 1 ==> qmul_spec(a, u) <= a - 1,
{
    let s = SCALE as int;
    assert(0 <= a * u) by (nonlinear_arith)
        requires 0 <= a, 0 <= u,
    ;
    assert(a * u >= 0 ==> a * u / s >= 0) by {
        lemma_div_is_ordered(0, a * u, s);
    }
    if a >= 1 {
        assert(a * u <= a * s - a) by (nonlinear_arith)
            requires 0 <= a, 0 <= u, u <= s - 1,
        ;
        assert((a * s - a) / s == a - 1) by {
            assert(a * s - a == (a - 1) * s + (s - a)) by (nonlinear_arith);
            lemma_fundamental_div_mod_converse_div(a * s - a, s, a - 1, s - a);
        }
        lemma_div_is_ordered(a * u, a * s - a, s);
    } else {
        assert(a == 0);
        assert(a * u == 0) by (nonlinear_arith)
            requires a == 0,
        ;
    }
}

/// The truncated alternating series for `exp(-u)` with `0 <= u < 1`,
/// in micro-units: nine terms, each obtained from the last by one
/// fixed-point product and one division.
pub open spec fn exp_series(u: int) -> int {
    let t1 = u;
    let t2 = qmul_spec(t1, u) / 2;
    let t3 = qmul_spec(t2, u) / 3;
    let t4 = qmul_spec(t3, u) / 4;
    let t5 = qmul_spec(t4, u) / 5;
    let t6 = qmul_spec(t5, u) / 6;
    let t7 = qmul_spec(t6, u) / 7;
    let t8 = qmul_spec(t7, u) / 8;
    let t9 = qmul_spec(t8, u) / 9;
    SCALE - t1 + t2 - t3 + t4 - t5 + t6 - t7 + t8 - t9
}

/// The decay value `exp(-t)` in micro-units: zero once the argument is
/// past the underflow bound, the series for small arguments, and the
/// squared half-argument value in between.
pub open spec fn exp_neg_spec(t: int) -> int
    decreases t,
{
    if t >= EXP_UNDERFLOW {
        0
    } else if t >= SCALE {
        let s = exp_neg_spec(t / 2);
        qmul_spec(s, s)
    } else {
        exp_series(t)
    }
}

/// Computes `exp_neg_spec(t)`, the fixed-point decay factor for a
/// non-negative argument. The result sits in `[0, 1]` and equals one
/// exactly when the argument is zero.
pub fn exp_neg(t: i64) -> (r: i64)
    requires
        t >= 0,
    ensures
        r as int == exp_neg_spec(t as int),
        0 <= r <= SCALE,
        t == 0 ==> r == SCALE,
        t > 0 ==> r < SCALE,
    decreases t,
{
    if t >= EXP_UNDERFLOW {
        0
    } else if t >= SCALE {
        let s = exp_neg(div_nn(t, 2));
        proof {
            lemma_decay_step(s as int, s as int);
            lemma_qmul_bound(s as int, s as int, SCALE as int, SCALE as int);
        }
        qmul(s, s)
    } else {
        let t1 = t;
        proof { lemma_decay_step(t1 as int, t as int); }
        let t2 = div_nn(qmul(t1, t), 2);
        proof { lemma_decay_step(t2 as int, t as int); }
        let t3 = div_nn(qmul(t2, t), 3);
        proof { lemma_decay_step(t3 as int, t as int); }
        let t4 = div_nn(qmul(t3, t), 4);
        proof { lemma_decay_step(t4 as int, t as int); }
        let t5 = div_nn(qmul(t4, t), 5);
        proof { lemma_decay_step(t5 as int, t as int); }
        let t6 = div_nn(qmul(t5, t), 6);
        proof { lemma_decay_step(t6 as int, t as int); }
        let t7 = div_nn(qmul(t6, t), 7);
        proof { lemma_decay_step(t7 as int, t as int); }
        let t8 = div_nn(qmul(t7, t), 8);
        proof { lemma_decay_step(t8 as int, t as int); }
        let t9 = div_nn(qmul(t8, t), 9);
        SCALE - t1 + t2 - t3 + t4 - t5 + t6 - t7 + t8 - t9
    }
}

/// Pi in micro-units, rounded to nearest.
pub const PI_Q: i64 = 3_141_593;

/// The natural logarithm of ten, in micro-units.
pub const LN10_Q: i64 = 2_302_585;

/// Twenty times the base-ten logarithm of two, in micro-units: the
/// decibel value of one octave.
pub const DB_PER_OCTAVE_Q: i64 = 6_020_600;

/// The level floor reported for silence: minus two hundred decibels,
/// in micro-decibels.
pub const LEVEL_FLOOR_Q: i64 = -200_000_000;

/// How many doublings bring a positive value below one whole up to at
/// least one whole.
pub open spec fn norm_exp(v: int) -> nat
    decreases 2 * (SCALE as int) - v,
{
    if v <= 0 || v >= SCALE {
        0
    } else {
        1 + norm_exp(2 * v)
    }
}

/// Twenty binary digits of the base-two logarithm of `v / SCALE` for
/// `v` in `[1, 2)`, most significant first, obtained by repeated
/// squaring: the first component is the digits' value, the second the
/// residual mantissa.
pub open spec fn log_bits(v: int, n: nat) -> (int, int)
    decreases n,
{
    if n == 0 {
        (0, v)
    } else {
        let v2 = qmul_spec(v, v);
        if v2 >= 2 * SCALE {
            let r = log_bits(v2 / 2, (n - 1) as nat);
            (vstd::arithmetic::power2::pow2((n - 1) as nat) as int + r.0, r.1)
        } else {
            log_bits(v2, (n - 1) as nat)
        }
    }
}

/// Computes `log_bits(v, n)`.
fn log_bits_exec(v: i64, n: usize) -> (r: (i64, i64))
    requires
        SCALE <= v < 2 * SCALE,
        n <= 20,
    ensures
        r.0 as int == log_bits(v as int, n as nat).0,
        r.1 as int == log_bits(v as int, n as nat).1,
        0 <= r.0 < vstd::arithmetic::power2::pow2(n as nat),
        SCALE <= r.1 < 2 * SCALE,
    decreases n,
{
    proof {
        vstd::arithmetic::power2::lemma2_to64();
    }
    if n == 0 {
        (0, v)
    } else {
        proof {
            lemma_qmul_bound(v as int, v as int, 1_999_999, 1_999_999);
            assert((v as int) * (v as int) >= (SCALE as int) * (SCALE as int)) by (nonlinear_arith)
                requires v as int >= SCALE as int,
            ;
            lemma_div_is_ordered(
                (SCALE as int) * (SCALE as int),
                (v as int) * (v as int),
                SCALE as int,
            );
            vstd::arithmetic::div_mod::lemma_div_multiples_vanish(SCALE as int, SCALE as int);
        }
        let v2 = qmul(v, v);
        proof {
            vstd::arithmetic::power2::lemma_pow2_unfold(n as nat);
        }
        if v2 >= 2 * SCALE {
            let rest = log_bits_exec(div_nn(v2, 2), n - 1);
            let p: u64 = 1u64 << ((n - 1) as u64);
            proof {
                vstd::bits::lemma_u64_shl_is_mul(1u64, (n - 1) as u64);
                assert(p as int == vstd::arithmetic::power2::pow2((n - 1) as nat));
            }
            ((p as i64) + rest.0, rest.1)
        } else {
            log_bits_exec(v2, n - 1)
        }
    }
}

/// The level of an amplitude in micro-decibels: twenty times the
/// base-ten logarithm of `ax / SCALE`, clamped to the floor for
/// silence and to zero for full scale, measured through twenty binary
/// digits of the base-two logarithm.
pub open spec fn level_db_spec(ax: int) -> int {
    if ax <= 0 {
        LEVEL_FLOOR_Q as int
    } else if ax >= SCALE {
        0
    } else {
        let e = norm_exp(ax);
        let g = log_bits(ax * vstd::arithmetic::power2::pow2(e) as int, 20).0;
        -(((e * 1_048_576 - g) * (DB_PER_OCTAVE_Q as int)) / 1_048_576)
    }
}

/// Computes `level_db_spec(ax)`: zero at or above full scale, the
/// floor at silence, and in between a negative level no lower than the
/// floor.
pub fn level_db(ax: i64) -> (r: i64)
    requires
        ax >= 0,
    ensures
        r as int == level_db_spec(ax as int),
        LEVEL_FLOOR_Q <= r <= 0,
        ax == 0 ==> r == LEVEL_FLOOR_Q,
        ax >= SCALE ==> r == 0,
{
    if ax == 0 {
        return LEVEL_FLOOR_Q;
    }
    if ax >= SCALE {
        return 0;
    }
    let ghost e_spec = norm_exp(ax as int);
    let mut v = ax;
    let mut e: usize = 0;
    proof {
        vstd::arithmetic::power2::lemma2_to64();
    }
    while v < SCALE
        invariant
            1 <= v < 2 * SCALE,
            e <= 20,
            v as int == (ax as int) * vstd::arithmetic::power2::pow2(e as nat) as int,
            norm_exp(ax as int) == e as nat + norm_exp(v as int),
            ax >= 1,
        decreases 2 * SCALE - v,
    {
        proof {
            vstd::arithmetic::power2::lemma2_to64();
            vstd::arithmetic::power2::lemma_pow2_unfold((e + 1) as nat);
            assert((ax as int) * (2 * vstd::arithmetic::power2::pow2(e as nat) as int) == 2 * (
            (ax as int) * vstd::arithmetic::power2::pow2(e as nat) as int)) by (nonlinear_arith);
            if e >= 20 {
                // Twenty doublings take any positive value past one whole.
                assert(vstd::arithmetic::power2::pow2(20) == 1048576);
                assert((ax as int) * vstd::arithmetic::power2::pow2(e as nat) as int >= 1048576)
                    by (nonlinear_arith)
                    requires
                        ax as int >= 1,
                        vstd::arithmetic::power2::pow2(e as nat) >= 1048576,
                ;
                assert(false);
            }
        }
        v = v * 2;
        e = e + 1;
    }
    assert(norm_exp(v as int) == 0);
    let bits = log_bits_exec(v, 20);
    let g = bits.0;
    proof {
        assert(vstd::arithmetic::power2::pow2(20) == 1048576);
        assert(e as int * 1_048_576 - g as int >= 0) by (nonlinear_arith)
            requires e as int >= 1, (g as int) < 1048576,
        ;
        assert(e as int * 1_048_576 - g as int <= 20 * 1_048_576) by (nonlinear_arith)
            requires e as int <= 20, g as int >= 0,
        ;
        lemma_qmul_scale(1, 1, 1);
    }
    let numer = (e as i64) * 1_048_576 - g;
    let mag = (((numer as u64) * (DB_PER_OCTAVE_Q as u64)) / 1_048_576) as i64;
    proof {
        let nn = numer as int;
        let d = DB_PER_OCTAVE_Q as int;
        assert(0 <= nn * d <= (20 * 1_048_576) * d) by (nonlinear_arith)
            requires 0 <= nn <= 20 * 1_048_576, d > 0,
        ;
        lemma_div_is_ordered(0, nn * d, 1_048_576);
        lemma_div_is_ordered(nn * d, (20 * 1_048_576) * d, 1_048_576);
        assert(((20 * 1_048_576) * d) / 1_048_576 == 20 * d) by {
            assert((20 * 1_048_576) * d == 1_048_576 * (20 * d)) by (nonlinear_arith);
            vstd::arithmetic::div_mod::lemma_div_multiples_vanish(20 * d, 1_048_576);
        }
        // The deepest level from a one-micro-unit amplitude stays above
        // the silence floor.
        assert(20 * d < 200_000_000);
    }
    -mag
}

/// Term `k` of the positive exponential series: `u^k / k!`, computed
/// by successive fixed-point products and divisions.
pub open spec fn exp_pos_term(u: int, k: nat) -> int
    decreases k,
{
    if k <= 1 {
        u
    } else {
        qmul_spec(exp_pos_term(u, (k - 1) as nat), u) / (k as int)
    }
}

/// The sum of the first `k` series terms.
pub open spec fn exp_pos_partial(u: int, k: nat) -> int
    decreases k,
{
    if k == 0 {
        0
    } else {
        exp_pos_partial(u, (k - 1) as nat) + exp_pos_term(u, k)
    }
}

/// The everywhere-positive exponential series for arguments up to
/// about 1.2, in micro-units: one plus twelve terms.
pub open spec fn exp_pos_series(u: int) -> int {
    SCALE + exp_pos_partial(u, 12)
}

/// The growth value `exp(w)` for `w` in `[0, 4.8]`, in micro-units:
/// the series on a quarter of the argument, squared twice.
pub open spec fn exp_pos_spec(w: int) -> int {
    let s = exp_pos_series(w / 4);
    let s2 = qmul_spec(s, s);
    qmul_spec(s2, s2)
}

/// Computes `exp_pos_spec(w)`, which equals one exactly at zero.
pub fn exp_pos(w: i64) -> (r: i64)
    requires
        0 <= w <= 4_800_000,
    ensures
        r as int == exp_pos_spec(w as int),
        0 <= r <= 76_000_000_000,
        w == 0 ==> r == SCALE,
{
    let u = div_nn(w, 4);
    let mut t: i64 = u;
    let mut acc: i64 = SCALE + u;
    let mut k: u64 = 2;
    proof {
        assert(exp_pos_partial(u as int, 1) == exp_pos_partial(u as int, 0) + exp_pos_term(
            u as int,
            1,
        ));
    }
    while k <= 12
        invariant
            2 <= k <= 13,
            0 <= u <= 1_200_000,
            t as int == exp_pos_term(u as int, (k - 1) as nat),
            0 <= t <= 1_200_000,
            acc as int == SCALE + exp_pos_partial(u as int, (k - 1) as nat),
            SCALE <= acc <= SCALE + (k - 1) * 1_200_000,
            u == 0 ==> acc == SCALE && t == 0,
        decreases 13 - k,
    {
        proof {
            lemma_qmul_scale(t as int, u as int, 2);
        }
        let tn = div_nn(qmul(t, u), k);
        proof {
            assert((2 * t as int) / (k as int) <= t as int) by {
                assert((k as int) * (t as int) >= 2 * (t as int)) by (nonlinear_arith)
                    requires k as int >= 2, t as int >= 0,
                ;
                lemma_div_is_ordered(2 * t as int, (k as int) * (t as int), k as int);
                vstd::arithmetic::div_mod::lemma_div_multiples_vanish(t as int, k as int);
            }
            lemma_div_is_ordered(qmul_spec(t as int, u as int), 2 * t as int, k as int);
            assert(exp_pos_term(u as int, k as nat) == qmul_spec(
                exp_pos_term(u as int, (k - 1) as nat),
                u as int,
            ) / (k as int));
        }
        t = tn;
        acc = acc + t;
        k = k + 1;
    }
    let s = acc;
    proof {
        assert(s as int == exp_pos_series(u as int));
        lemma_qmul_bound(s as int, s as int, 16_600_000, 16_600_000);
        lemma_qmul_scale(s as int, s as int, 17);
        if w == 0 {
            crate::fixed::lemma_qmul_unit(SCALE as int);
        }
    }
    let s2 = qmul(s, s);
    proof {
        lemma_qmul_bound(s2 as int, s2 as int, 275_560_000, 275_560_000);
        lemma_qmul_scale(s2 as int, s2 as int, 276);
    }
    qmul(s2, s2)
}

/// The factor that applies a gain given in micro-decibels: ten to the
/// twentieth part of the gain, through the exponential on the natural
/// scale.
pub open spec fn pow10_gain_spec(d: int) -> int {
    if d >= 0 {
        exp_pos_spec(qmul_spec(d / 20, LN10_Q as int))
    } else {
        exp_neg_spec(qmul_spec((-d) / 20, LN10_Q as int))
    }
}

/// Computes `pow10_gain_spec(d)`: one exactly at zero gain, bounded for
/// gains up to the supported boost.
pub fn pow10_gain(d: i64) -> (r: i64)
    requires
        -10_000_000_000 <= d <= 40_000_000,
    ensures
        r as int == pow10_gain_spec(d as int),
        0 <= r <= 76_000_000_000,
        d == 0 ==> r == SCALE,
{
    if d >= 0 {
        let u = div_nn(d, 20);
        proof {
            lemma_qmul_scale(u as int, LN10_Q as int, 3);
            lemma_qmul_bound(u as int, LN10_Q as int, 2_000_000, LN10_Q as int);
        }
        let w = qmul(u, LN10_Q);
        exp_pos(w)
    } else {
        let u = div_nn(-d, 20);
        proof {
            lemma_qmul_scale(u as int, LN10_Q as int, 3);
        }
        let w = qmul(u, LN10_Q);
        exp_neg(w)
    }
}

/// Two pi in micro-units, rounded to nearest.
pub const TAU_Q: i64 = 6_283_185;

/// A product of two non-negative factors scales by at most the second
/// factor's multiple of one.
pub proof fn lemma_qmul_scale(a: int, b: int, k: int)
    requires
        0 <= a,
        0 <= b <= k * (SCALE as int),
        0 <= k,
    ensures
        0 <= qmul_spec(a, b) <= k * a,
{
    let s = SCALE as int;
    assert(0 <= a * b <= (k * a) * s) by (nonlinear_arith)
        requires 0 <= a, 0 <= b <= k * s, 0 <= k, s > 0,
    ;
    lemma_div_is_ordered(0, a * b, s);
    lemma_div_is_ordered(a * b, (k * a) * s, s);
    vstd::arithmetic::div_mod::lemma_div_multiples_vanish(k * a, s);
    assert((k * a) * s == s * (k * a)) by (nonlinear_arith);
}

/// The truncated cosine series in micro-units, for angles between zero
/// and a little over a quarter turn.
pub open spec fn cos_series(u: int) -> int {
    let u2 = qmul_spec(u, u);
    let u4 = qmul_spec(u2, u2);
    let u6 = qmul_spec(u4, u2);
    let u8 = qmul_spec(u6, u2);
    let u10 = qmul_spec(u8, u2);
    SCALE - u2 / 2 + u4 / 24 - u6 / 720 + u8 / 40320 - u10 / 3628800
}

/// Computes `cos_series(u)` for an angle in `[0, 1.6]` (radians, in
/// micro-units). The result never exceeds one, equals one exactly at
/// zero, and never drops below -0.3.
pub fn cos_kernel(u: i64) -> (r: i64)
    requires
        0 <= u <= 1_600_000,
    ensures
        r as int == cos_series(u as int),
        -300_000 <= r <= SCALE,
        u == 0 ==> r == SCALE,
{
    proof {
        lemma_qmul_scale(u as int, u as int, 2);
        lemma_qmul_bound(u as int, u as int, 1_600_000, 1_600_000);
    }
    let u2 = qmul(u, u);
    proof {
        lemma_qmul_scale(u2 as int, u2 as int, 3);
    }
    let u4 = qmul(u2, u2);
    proof {
        lemma_qmul_scale(u4 as int, u2 as int, 3);
    }
    let u6 = qmul(u4, u2);
    proof {
        lemma_qmul_scale(u6 as int, u2 as int, 3);
    }
    let u8 = qmul(u6, u2);
    proof {
        lemma_qmul_scale(u8 as int, u2 as int, 3);
    }
    let u10 = qmul(u8, u2);
    let t1 = div_nn(u2, 2);
    let t2 = div_nn(u4, 24);
    let t3 = div_nn(u6, 720);
    let t4 = div_nn(u8, 40320);
    let t5 = div_nn(u10, 3628800);
    proof {
        // Pair the alternating tail terms so both bounds are linear.
        assert(t2 as int <= t1 as int) by {
            lemma_div_is_ordered(u4 as int, 3 * u2 as int, 24);
            vstd::arithmetic::div_mod::lemma_div_is_ordered_by_denominator(u2 as int, 2, 8);
            assert((3 * u2 as int) / 24 == u2 as int / 8) by {
                vstd::arithmetic::div_mod::lemma_div_multiples_vanish_quotient(3, u2 as int, 8);
            }
        }
        assert(t3 as int <= t2 as int) by {
            lemma_div_is_ordered(u6 as int, 3 * u4 as int, 720);
            vstd::arithmetic::div_mod::lemma_div_is_ordered_by_denominator(u4 as int, 24, 240);
            assert((3 * u4 as int) / 720 == u4 as int / 240) by {
                vstd::arithmetic::div_mod::lemma_div_multiples_vanish_quotient(3, u4 as int, 240);
            }
        }
        assert(t4 as int <= t3 as int) by {
            lemma_div_is_ordered(u8 as int, 3 * u6 as int, 40320);
            vstd::arithmetic::div_mod::lemma_div_is_ordered_by_denominator(u6 as int, 720, 13440);
            assert((3 * u6 as int) / 40320 == u6 as int / 13440) by {
                vstd::arithmetic::div_mod::lemma_div_multiples_vanish_quotient(3, u6 as int, 13440);
            }
        }
        assert(t5 as int <= t4 as int) by {
            lemma_div_is_ordered(u10 as int, 3 * u8 as int, 3628800);
            vstd::arithmetic::div_mod::lemma_div_is_ordered_by_denominator(u8 as int, 40320, 1209600);
            assert((3 * u8 as int) / 3628800 == u8 as int / 1209600) by {
                vstd::arithmetic::div_mod::lemma_div_multiples_vanish_quotient(3, u8 as int, 1209600);
            }
        }
    }
    SCALE - t1 + t2 - t3 + t4 - t5
}

/// Squaring is monotone on non-negative fixed-point values.
proof fn lemma_qmul_square_mono(v: int, w: int)
    requires
        0 <= v <= w,
    ensures
        qmul_spec(v, v) <= qmul_spec(w, w),
{
    assert(v * v <= w * w) by (nonlinear_arith)
        requires 0 <= v <= w,
    ;
    lemma_div_is_ordered(v * v, w * w, SCALE as int);
}

/// The digit extraction stays in range at the spec level: the digits'
/// value is below `2^n` and the residual mantissa stays normalized.
proof fn lemma_log_bits_range(v: int, n: nat)
    requires
        SCALE as int <= v < 2 * (SCALE as int),
    ensures
        0 <= log_bits(v, n).0 < vstd::arithmetic::power2::pow2(n),
        SCALE as int <= log_bits(v, n).1 < 2 * (SCALE as int),
    decreases n,
{
    vstd::arithmetic::power2::lemma2_to64();
    if n > 0 {
        let s = SCALE as int;
        lemma_qmul_bound(v, v, 1_999_999, 1_999_999);
        assert(v * v >= s * s) by (nonlinear_arith)
            requires v >= s, s >= 0,
        ;
        lemma_div_is_ordered(s * s, v * v, s);
        vstd::arithmetic::div_mod::lemma_div_multiples_vanish(s, s);
        let v2 = qmul_spec(v, v);
        vstd::arithmetic::power2::lemma_pow2_unfold(n);
        if v2 >= 2 * s {
            lemma_div_is_ordered(2 * s, v2, 2);
            lemma_div_is_ordered(v2, 3_999_996, 2);
            assert(v2 / 2 >= s) by {
                assert((2 * s) / 2 == s) by {
                    vstd::arithmetic::div_mod::lemma_div_multiples_vanish(s, 2);
                }
            }
            lemma_log_bits_range(v2 / 2, (n - 1) as nat);
        } else {
            lemma_log_bits_range(v2, (n - 1) as nat);
        }
    }
}

/// Digit extraction is monotone: a larger mantissa never yields a
/// smaller digits' value.
proof fn lemma_log_bits_mono(v: int, w: int, n: nat)
    requires
        SCALE as int <= v <= w < 2 * (SCALE as int),
    ensures
        log_bits(v, n).0 <= log_bits(w, n).0,
    decreases n,
{
    if n > 0 {
        let s = SCALE as int;
        lemma_log_bits_range(v, n);
        lemma_log_bits_range(w, n);
        lemma_qmul_square_mono(v, w);
        let v2 = qmul_spec(v, v);
        let w2 = qmul_spec(w, w);
        lemma_qmul_bound(v, v, 1_999_999, 1_999_999);
        lemma_qmul_bound(w, w, 1_999_999, 1_999_999);
        assert(v * v >= s * s) by (nonlinear_arith)
            requires v >= s, s >= 0,
        ;
        assert(w * w >= s * s) by (nonlinear_arith)
            requires w >= s, s >= 0,
        ;
        lemma_div_is_ordered(s * s, v * v, s);
        lemma_div_is_ordered(s * s, w * w, s);
        vstd::arithmetic::div_mod::lemma_div_multiples_vanish(s, s);
        if v2 >= 2 * s && w2 >= 2 * s {
            lemma_div_is_ordered(v2, w2, 2);
            lemma_div_is_ordered(2 * s, v2, 2);
            lemma_div_is_ordered(v2, 3_999_996, 2);
            lemma_div_is_ordered(w2, 3_999_996, 2);
            assert((2 * s) / 2 == s) by {
                vstd::arithmetic::div_mod::lemma_div_multiples_vanish(s, 2);
            }
            lemma_log_bits_mono(v2 / 2, w2 / 2, (n - 1) as nat);
            lemma_log_bits_range(v2 / 2, (n - 1) as nat);
            lemma_log_bits_range(w2 / 2, (n - 1) as nat);
        } else if v2 < 2 * s && w2 < 2 * s {
            lemma_log_bits_mono(v2, w2, (n - 1) as nat);
        } else {
            // The smaller mantissa stays below the doubling threshold:
            // its digit is zero against the other's one, and the
            // remaining digits cannot make up the difference.
            assert(v2 < 2 * s && w2 >= 2 * s);
            lemma_log_bits_range(v2, (n - 1) as nat);
            lemma_div_is_ordered(2 * s, w2, 2);
            lemma_div_is_ordered(w2, 3_999_996, 2);
            assert((2 * s) / 2 == s) by {
                vstd::arithmetic::div_mod::lemma_div_multiples_vanish(s, 2);
            }
            lemma_log_bits_range(w2 / 2, (n - 1) as nat);
        }
    }
}

/// More doublings are needed for smaller values.
proof fn lemma_norm_exp_antimono(v: int, w: int)
    requires
        1 <= v <= w,
    ensures
        norm_exp(v) >= norm_exp(w),
    decreases 2 * (SCALE as int) - v,
{
    if v < SCALE && w < SCALE {
        lemma_norm_exp_antimono(2 * v, 2 * w);
    }
}

/// Twenty doublings always reach one whole from a positive value.
proof fn lemma_norm_exp_bound(v: int, k: nat)
    requires
        1 <= v,
        v * vstd::arithmetic::power2::pow2(k) as int >= SCALE as int,
    ensures
        norm_exp(v) <= k,
    decreases k,
{
    if v < SCALE {
        assert(k >= 1) by {
            if k == 0 {
                assert(vstd::arithmetic::power2::pow2(0) == 1) by {
                    vstd::arithmetic::power2::lemma2_to64();
                }
            }
        }
        vstd::arithmetic::power2::lemma_pow2_unfold(k);
        assert((2 * v) * vstd::arithmetic::power2::pow2((k - 1) as nat) as int == v
            * vstd::arithmetic::power2::pow2(k) as int) by (nonlinear_arith)
            requires
                vstd::arithmetic::power2::pow2(k) == 2 * vstd::arithmetic::power2::pow2(
                    (k - 1) as nat,
                ),
        ;
        lemma_norm_exp_bound(2 * v, (k - 1) as nat);
    }
}

/// The normalized value sits in one octave above one whole.
proof fn lemma_norm_val_range(v: int)
    requires
        1 <= v < 2 * (SCALE as int),
    ensures
        SCALE as int <= v * vstd::arithmetic::power2::pow2(norm_exp(v)) as int,
        (v * vstd::arithmetic::power2::pow2(norm_exp(v)) as int) < 2 * (SCALE as int),
    decreases 2 * (SCALE as int) - v,
{
    vstd::arithmetic::power2::lemma2_to64();
    if v >= SCALE {
        assert(vstd::arithmetic::power2::pow2(0) == 1);
        assert(norm_exp(v) == 0);
        assert(v * (vstd::arithmetic::power2::pow2(0) as int) == v) by (nonlinear_arith)
            requires vstd::arithmetic::power2::pow2(0) as int == 1,
        ;
    } else {
        lemma_norm_val_range(2 * v);
        vstd::arithmetic::power2::lemma_pow2_unfold((1 + norm_exp(2 * v)) as nat);
        assert(v * vstd::arithmetic::power2::pow2((1 + norm_exp(2 * v)) as nat) as int == (2 * v)
            * vstd::arithmetic::power2::pow2(norm_exp(2 * v)) as int) by (nonlinear_arith)
            requires
                vstd::arithmetic::power2::pow2((1 + norm_exp(2 * v)) as nat) == 2
                    * vstd::arithmetic::power2::pow2(norm_exp(2 * v)),
        ;
    }
}

/// The measured level is monotone: a quieter amplitude never reads as
/// a higher level.
pub proof fn lemma_level_db_mono(ax: int, bx: int)
    requires
        0 <= ax <= bx,
    ensures
        level_db_spec(ax) <= level_db_spec(bx),
{
    vstd::arithmetic::power2::lemma2_to64();
    let s = SCALE as int;
    let c = DB_PER_OCTAVE_Q as int;
    if ax <= 0 || bx >= s || ax == bx {
        if ax <= 0 && 0 < bx && bx < s {
            lemma_level_db_in_range(bx);
        }
        if bx >= s && 0 < ax && ax < s {
            lemma_level_db_in_range(ax);
        }
    } else {
        // Both strictly inside the open interval.
        lemma_level_db_in_range(ax);
        lemma_level_db_in_range(bx);
        let ea = norm_exp(ax);
        let eb = norm_exp(bx);
        lemma_norm_exp_antimono(ax, bx);
        let va = ax * vstd::arithmetic::power2::pow2(ea) as int;
        let vb = bx * vstd::arithmetic::power2::pow2(eb) as int;
        lemma_norm_val_range(ax);
        lemma_norm_val_range(bx);
        let ga = log_bits(va, 20).0;
        let gb = log_bits(vb, 20).0;
        lemma_log_bits_range(va, 20);
        lemma_log_bits_range(vb, 20);
        let na = ea * 1_048_576 - ga;
        let nb = eb * 1_048_576 - gb;
        assert(na >= nb) by {
            if ea == eb {
                assert(va <= vb) by (nonlinear_arith)
                    requires ax <= bx, va == ax * vstd::arithmetic::power2::pow2(ea) as int, vb == bx * vstd::arithmetic::power2::pow2(eb) as int, ea == eb,
                ;
                lemma_log_bits_mono(va, vb, 20);
            } else {
                // One extra doubling outweighs any digit value.
                assert(ea >= eb + 1);
                assert(na >= (eb + 1) * 1_048_576 - ga) by (nonlinear_arith)
                    requires na == ea * 1_048_576 - ga, ea >= eb + 1,
                ;
                assert((eb + 1) * 1_048_576 == eb * 1_048_576 + 1_048_576) by (nonlinear_arith);
            }
        }
        assert(na * c >= nb * c) by (nonlinear_arith)
            requires na >= nb, c > 0,
        ;
        lemma_div_is_ordered(nb * c, na * c, 1_048_576);
    }
}

/// Any measured level lies between the silence floor and zero.
pub proof fn lemma_level_db_bounds(ax: int)
    requires
        0 <= ax,
    ensures
        LEVEL_FLOOR_Q as int <= level_db_spec(ax) <= 0,
{
    if 0 < ax && ax < SCALE as int {
        lemma_level_db_in_range(ax);
    }
}

/// Strictly inside the interval, the level lies between the floor and
/// zero.
proof fn lemma_level_db_in_range(ax: int)
    requires
        0 < ax < SCALE as int,
    ensures
        (LEVEL_FLOOR_Q as int) < level_db_spec(ax) <= 0,
{
    vstd::arithmetic::power2::lemma2_to64();
    let s = SCALE as int;
    let c = DB_PER_OCTAVE_Q as int;
    let e = norm_exp(ax);
    let va = ax * vstd::arithmetic::power2::pow2(e) as int;
    lemma_norm_val_range(ax);
    assert(e >= 1) by {
        if e == 0 {
            assert(vstd::arithmetic::power2::pow2(0) == 1);
        }
    }
    assert(e <= 20) by {
        assert(ax * vstd::arithmetic::power2::pow2(20) as int >= s) by (nonlinear_arith)
            requires
                ax >= 1,
                vstd::arithmetic::power2::pow2(20) as int == 1048576,
                s == 1_000_000,
        ;
        lemma_norm_exp_bound(ax, 20);
    }
    let g = log_bits(va, 20).0;
    lemma_log_bits_range(va, 20);
    let numer = e * 1_048_576 - g;
    assert(1 <= numer <= 20 * 1_048_576) by (nonlinear_arith)
        requires 1 <= e <= 20, 0 <= g < 1_048_576, numer == e * 1_048_576 - g,
    ;
    assert(0 <= numer * c <= (20 * 1_048_576) * c) by (nonlinear_arith)
        requires 0 <= numer <= 20 * 1_048_576, c > 0,
    ;
    lemma_div_is_ordered(0, numer * c, 1_048_576);
    lemma_div_is_ordered(numer * c, (20 * 1_048_576) * c, 1_048_576);
    assert(((20 * 1_048_576) * c) / 1_048_576 == 20 * c) by {
        assert((20 * 1_048_576) * c == 1_048_576 * (20 * c)) by (nonlinear_arith);
        vstd::arithmetic::div_mod::lemma_div_multiples_vanish(20 * c, 1_048_576);
    }
}

/// The truncated sine series in micro-units, for angles between zero
/// and a little over a quarter turn. The result never exceeds the
/// angle itself.
pub open spec fn sin_series(u: int) -> int {
    let u2 = qmul_spec(u, u);
    let t3 = qmul_spec(u, u2) / 6;
    let t5 = qmul_spec(t3, u2) / 20;
    let t7 = qmul_spec(t5, u2) / 42;
    let t9 = qmul_spec(t7, u2) / 72;
    u - t3 + t5 - t7 + t9
}

/// The sine series stays between zero and its angle.
pub proof fn lemma_sin_series_range(u: int)
    requires
        0 <= u <= 1_600_000,
    ensures
        0 <= sin_series(u) <= u,
{
    let s = SCALE as int;
    lemma_qmul_scale(u, u, 2);
    lemma_qmul_bound(u, u, 1_600_000, 1_600_000);
    let u2 = qmul_spec(u, u);
    lemma_qmul_scale(u, u2, 3);
    let t3 = qmul_spec(u, u2) / 6;
    assert(t3 <= u) by {
        lemma_div_is_ordered(qmul_spec(u, u2), 3 * u, 6);
        vstd::arithmetic::div_mod::lemma_div_multiples_vanish_quotient(3, u, 2);
        vstd::arithmetic::div_mod::lemma_div_is_ordered_by_denominator(u, 1, 2);
        vstd::arithmetic::div_mod::lemma_div_multiples_vanish(u, 1);
        assert(1 * u == u) by (nonlinear_arith);
    }
    assert(0 <= t3) by {
        lemma_div_is_ordered(0, qmul_spec(u, u2), 6);
    }
    lemma_qmul_scale(t3, u2, 3);
    let t5 = qmul_spec(t3, u2) / 20;
    assert(0 <= t5 <= t3) by {
        lemma_div_is_ordered(0, qmul_spec(t3, u2), 20);
        lemma_div_is_ordered(qmul_spec(t3, u2), 20 * t3, 20);
        vstd::arithmetic::div_mod::lemma_div_multiples_vanish(t3, 20);
        assert(20 * t3 == 20 * t3) by (nonlinear_arith);
    }
    lemma_qmul_scale(t5, u2, 3);
    let t7 = qmul_spec(t5, u2) / 42;
    assert(0 <= t7 <= t5) by {
        lemma_div_is_ordered(0, qmul_spec(t5, u2), 42);
        lemma_div_is_ordered(qmul_spec(t5, u2), 42 * t5, 42);
        vstd::arithmetic::div_mod::lemma_div_multiples_vanish(t5, 42);
    }
    lemma_qmul_scale(t7, u2, 3);
    let t9 = qmul_spec(t7, u2) / 72;
    assert(0 <= t9 <= t7) by {
        lemma_div_is_ordered(0, qmul_spec(t7, u2), 72);
        lemma_div_is_ordered(qmul_spec(t7, u2), 72 * t7, 72);
        vstd::arithmetic::div_mod::lemma_div_multiples_vanish(t7, 72);
    }
}

/// Computes `sin_series(u)`.
pub fn sin_kernel(u: i64) -> (r: i64)
    requires
        0 <= u <= 1_600_000,
    ensures
        r as int == sin_series(u as int),
        0 <= r <= u,
{
    proof {
        lemma_sin_series_range(u as int);
        lemma_qmul_scale(u as int, u as int, 2);
        lemma_qmul_bound(u as int, u as int, 1_600_000, 1_600_000);
    }
    let u2 = qmul(u, u);
    proof {
        lemma_qmul_scale(u as int, u2 as int, 3);
    }
    let t3 = div_nn(qmul(u, u2), 6);
    proof {
        lemma_qmul_scale(t3 as int, u2 as int, 3);
    }
    let t5 = div_nn(qmul(t3, u2), 20);
    proof {
        lemma_qmul_scale(t5 as int, u2 as int, 3);
    }
    let t7 = div_nn(qmul(t5, u2), 42);
    proof {
        lemma_qmul_scale(t7 as int, u2 as int, 3);
    }
    let t9 = div_nn(qmul(t7, u2), 72);
    u - t3 + t5 - t7 + t9
}

/// The cosine of the phase `i / denom` of a full turn, in micro-units,
/// computed by quarter-turn symmetry reduction and the series kernel.
pub open spec fn cos_phase_spec(i: int, denom: int) -> int
    recommends
        0 <= i <= denom,
{
    if denom <= 0 {
        SCALE as int
    } else {
        let r = if 2 * i > denom {
            denom - i
        } else {
            i
        };
        if 4 * r > denom {
            -cos_series(
                ((PI_Q as int) * (denom - 2 * r)) / denom,
            )
        } else {
            cos_series(((TAU_Q as int) * (2 * r)) / (2 * denom))
        }
    }
}

/// The phase cosine is symmetric: positions `i` and `denom - i` see
/// the same value.
pub proof fn lemma_cos_phase_symmetric(i: int, denom: int)
    requires
        0 <= i <= denom,
    ensures
        cos_phase_spec(i, denom) == cos_phase_spec(denom - i, denom),
{
}

/// Computes `cos_phase_spec(i, denom)`.
pub fn cos_phase(i: usize, denom: usize) -> (r: i64)
    requires
        i <= denom,
        denom <= 100_000_000,
    ensures
        r as int == cos_phase_spec(i as int, denom as int),
        -SCALE <= r <= SCALE,
{
    if denom == 0 {
        return SCALE;
    }
    let rr: usize = if 2 * i > denom {
        denom - i
    } else {
        i
    };
    if 4 * rr > denom {
        let num = (PI_Q as u64) * ((denom - 2 * rr) as u64);
        let q = num / (denom as u64);
        proof {
            let d = denom as int;
            let m = (denom - 2 * rr) as int;
            assert(num as int >= 0) by (nonlinear_arith)
                requires num as int == (PI_Q as int) * m, m >= 0,
            ;
            assert(num as int <= 1_600_000 * d) by (nonlinear_arith)
                requires num as int == (PI_Q as int) * m, 2 * m <= d, m >= 0, d >= 1,
            ;
            lemma_div_is_ordered(0, num as int, d);
            lemma_div_is_ordered(num as int, 1_600_000 * d, d);
            vstd::arithmetic::div_mod::lemma_div_multiples_vanish(1_600_000, d);
            assert(1_600_000 * d == d * 1_600_000) by (nonlinear_arith);
        }
        let u = q as i64;
        let c = cos_kernel(u);
        -c
    } else {
        let num = (TAU_Q as u64) * ((2 * rr) as u64);
        let q = num / ((2 * denom) as u64);
        proof {
            let d = denom as int;
            let m = 2 * (rr as int);
            assert(num as int >= 0) by (nonlinear_arith)
                requires num as int == (TAU_Q as int) * m, m >= 0,
            ;
            assert(num as int <= 1_600_000 * (2 * d)) by (nonlinear_arith)
                requires num as int == (TAU_Q as int) * m, 2 * m <= d, m >= 0, d >= 1,
            ;
            lemma_div_is_ordered(0, num as int, 2 * d);
            lemma_div_is_ordered(num as int, 1_600_000 * (2 * d), 2 * d);
            vstd::arithmetic::div_mod::lemma_div_multiples_vanish(1_600_000, 2 * d);
            assert(1_600_000 * (2 * d) == (2 * d) * 1_600_000) by (nonlinear_arith);
        }
        let u = q as i64;
        cos_kernel(u)
    }
}

} // verus!
