//! Filter design for fractional-delay filters.
//!
//! The design routines map a desired delay, given in micro-samples (any
//! non-negative amount of samples with a resolution of one millionth of a
//! sample), to FIR coefficient sequences in micro-units.

use vstd::prelude::*;
use crate::fixed::{SCALE, COEFF_LIMIT, MAX_TAPS, abs_val, qmul, qmul_spec, lemma_qmul_bound};
use crate::filter::window::{WindowKind, window_kind_coeff, window_of, window_denom};
use crate::utilities::{sinc, sinc_spec, SINC_ARG_LIMIT};

verus! {

/// Delays closer to zero than this (one millionth of a sample) count as
/// zero and yield the identity filter.
pub const EPSILON: i64 = 1;

/// Largest delay the design routines accept, in micro-samples: half a
/// million samples, bounded so the coefficient vector stays within the
/// engine's tap limit.
pub const MAX_DESIGN_DELAY: i64 = 500_000_000_000;

/// Feed-forward coefficients of a causal FIR filter
/// `y[n] = sum b[i] * x[n - i]`, in micro-units.
#[derive(Debug)]
pub struct FirCoeffs {
    pub b: Vec<i64>,
}

/// Feedback filter coefficients, reserved for future execution support.
pub struct IirCoeffs {
    pub b: Vec<i64>,
    pub a: Vec<i64>,
}

/// One biquad section, reserved for future execution support. The
/// leading feedback coefficient is implicitly one.
pub struct SecondOrderSection {
    pub b0: i64,
    pub b1: i64,
    pub b2: i64,
    pub a1: i64,
    pub a2: i64,
}

/// A cascade of second-order sections, reserved for future execution
/// support.
pub struct SosCoeffs {
    pub sections: Vec<SecondOrderSection>,
}

/// Why a design request was rejected.
#[derive(Clone, Copy, Debug, PartialEq, Eq, Structural)]
pub enum DesignError {
    /// The requested delay was negative.
    NegativeDelay,
    /// A sinc half width of zero was supplied.
    ZeroSincHalfWidth,
    /// The supplied sinc half width exceeds the rounded delay, which
    /// would demand a non-causal filter.
    HalfWidthTooLarge,
}

/// A coefficient sequence the FIR engine can take: not too long, every
/// value within the coefficient magnitude limit.
pub open spec fn coeffs_wf(b: Seq<i64>) -> bool {
    &&& b.len() <= MAX_TAPS
    &&& forall|i: int| 0 <= i < b.len() ==> -COEFF_LIMIT <= #[trigger] b[i] <= COEFF_LIMIT
}

/// The coefficients of the linear-interpolation delay design: the
/// identity filter for a near-zero delay, otherwise a sequence of
/// `floor(delay) + 2` taps that is zero everywhere except the two taps
/// around the requested delay, which split one whole unit in proportion
/// to the fractional part.
pub open spec fn linear_coeffs(delay: int) -> Seq<i64> {
    if delay < EPSILON {
        seq![SCALE]
    } else {
        let n1 = delay / (SCALE as int);
        let frac = delay % (SCALE as int);
        Seq::new(
            (n1 + 2) as nat,
            |i: int|
                if i == n1 {
                    (SCALE - frac) as i64
                } else if i == n1 + 1 {
                    frac as i64
                } else {
                    0i64
                },
        )
    }
}

/// Delay filter design using linear interpolation: a two-tap
/// interpolator embedded at the end of a delay line of the right length.
///
/// Fails exactly on negative delays; a delay within `EPSILON` of zero
/// yields the identity filter `[1.0]`.
pub fn linear_interpolation(delay: i64) -> (r: Result<FirCoeffs, DesignError>)
    requires
        delay <= MAX_DESIGN_DELAY,
    ensures
        delay < 0 <==> r is Err,
        r matches Err(e) ==> e == DesignError::NegativeDelay,
        r matches Ok(c) ==> c.b@ == linear_coeffs(delay as int),
        r matches Ok(c) ==> coeffs_wf(c.b@),
{
    if delay < 0 {
        return Err(DesignError::NegativeDelay);
    }
    if delay < EPSILON {
        let mut b: Vec<i64> = Vec::new();
        b.push(SCALE);
        assert(b@ =~= linear_coeffs(delay as int));
        return Ok(FirCoeffs { b });
    }

    let d = delay as u64;
    proof {
        vstd::arithmetic::div_mod::lemma_div_is_ordered(
            delay as int,
            MAX_DESIGN_DELAY as int,
            SCALE as int,
        );
        vstd::arithmetic::div_mod::lemma_div_is_ordered(0, delay as int, SCALE as int);
    }
    let n1 = (d / (SCALE as u64)) as usize;
    let frac = (d % (SCALE as u64)) as i64;
    let num_taps = n1 + 2;

    let mut b: Vec<i64> = zero_vec(num_taps);
    b.set(n1, SCALE - frac);
    b.set(n1 + 1, frac);
    assert(b@ =~= linear_coeffs(delay as int));
    Ok(FirCoeffs { b })
}

impl FirCoeffs {
    /// Wraps a coefficient vector. The values must fit the engine's
    /// tap count and magnitude limits.
    pub fn new(b: Vec<i64>) -> (r: FirCoeffs)
        requires
            coeffs_wf(b@),
        ensures
            r.b@ == b@,
            coeffs_wf(r.b@),
    {
        FirCoeffs { b }
    }
}

/// A zero-filled coefficient vector.
fn zero_vec(n: usize) -> (r: Vec<i64>)
    ensures
        r@.len() == n,
        forall|j: int| 0 <= j < n ==> r@[j] == 0i64,
{
    let mut b: Vec<i64> = Vec::new();
    let mut i: usize = 0;
    while i < n
        invariant
            b@.len() == i,
            i <= n,
            forall|j: int| 0 <= j < i ==> b@[j] == 0i64,
        decreases n - i,
    {
        b.push(0);
        i = i + 1;
    }
    b
}

/// The half width of the sinc kernel is capped at this many samples
/// when chosen automatically.
pub const MAX_SINC_HALF_WIDTH: usize = 32;

/// The integer part of a delay, rounded to the nearest sample.
pub open spec fn nearest_delay(delay: int) -> int {
    (delay + 500_000) / (SCALE as int)
}

/// What remains of a delay after taking out the nearest whole sample:
/// at most half a sample in magnitude.
pub open spec fn sinc_frac(delay: int) -> int {
    delay - nearest_delay(delay) * (SCALE as int)
}

/// The kernel half width in force: the supplied one, or the nearest
/// integer delay capped at `MAX_SINC_HALF_WIDTH`.
pub open spec fn sinc_hw_choice(delay: int, hw: Option<usize>) -> int {
    match hw {
        Some(h) => h as int,
        None => if nearest_delay(delay) < MAX_SINC_HALF_WIDTH as int {
            nearest_delay(delay)
        } else {
            MAX_SINC_HALF_WIDTH as int
        },
    }
}

/// The window family in force: the supplied one, or Hamming.
pub open spec fn sinc_window_choice(wk: Option<WindowKind>) -> WindowKind {
    match wk {
        Some(w) => w,
        None => WindowKind::Hamming,
    }
}

/// When the sinc design rejects a request: a negative delay always;
/// otherwise, on the general (truly fractional) path, a half width of
/// zero or one larger than the nearest integer delay, either of which
/// would make the kernel impossible to place causally.
pub open spec fn sinc_rejects(delay: int, hw: Option<usize>) -> bool {
    ||| delay < 0
    ||| (delay >= EPSILON && abs_val(sinc_frac(delay)) >= EPSILON && (sinc_hw_choice(delay, hw)
        == 0 || sinc_hw_choice(delay, hw) > nearest_delay(delay)))
}

/// A delta function: a single unit tap after `nearest` zeros.
pub open spec fn delta_coeffs(nearest: int) -> Seq<i64> {
    Seq::new(
        (nearest + 1) as nat,
        |i: int|
            if i == nearest {
                SCALE
            } else {
                0i64
            },
    )
}

/// One tap of the windowed-sinc fractional-delay kernel of half width
/// `hw`: the sampling function at the tap's distance from the kernel
/// centre, shifted by the fractional delay and weighted by the
/// symmetric window.
pub open spec fn sinc_kernel_coeff(hw: int, frac: int, wk: WindowKind, i: int) -> int {
    qmul_spec(
        sinc_spec((i - hw) * (SCALE as int) - frac),
        window_kind_coeff(wk, i, window_denom(2 * hw + 1, true)),
    )
}

/// The full sinc design on the general path: the kernel of width
/// `2 hw + 1`, placed after `nearest - hw` zeros so the total group
/// delay equals the request.
pub open spec fn sinc_coeffs(delay: int, hw: int, wk: WindowKind) -> Seq<i64> {
    let nearest = nearest_delay(delay);
    let frac = sinc_frac(delay);
    let delta = nearest - hw;
    Seq::new(
        (nearest + hw + 1) as nat,
        |i: int|
            if i < delta {
                0i64
            } else {
                sinc_kernel_coeff(hw, frac, wk, i - delta) as i64
            },
    )
}

/// The windowed fractional-delay kernel: `2 * sinc_half_width + 1`
/// taps of the sampling function shifted by the fractional delay and
/// weighted by the symmetric window. It realizes a delay of
/// `sinc_half_width + frac_delay` samples.
fn sinc_fractional_delay(sinc_half_width: usize, frac_delay: i64, window: WindowKind) -> (r: Vec<
    i64,
>)
    requires
        1 <= sinc_half_width <= 500_001,
        -500_000 <= frac_delay <= 500_000,
    ensures
        r@.len() == 2 * sinc_half_width + 1,
        forall|j: int|
            0 <= j < r@.len() ==> #[trigger] r@[j] as int == sinc_kernel_coeff(
                sinc_half_width as int,
                frac_delay as int,
                window,
                j,
            ),
        forall|j: int| 0 <= j < r@.len() ==> -COEFF_LIMIT <= #[trigger] r@[j] <= COEFF_LIMIT,
{
    let hw = sinc_half_width;
    let sinc_width = 2 * hw + 1;
    let win = window_of(window, sinc_width, true);
    let mut r: Vec<i64> = Vec::new();
    let mut k: usize = 0;
    while k < sinc_width
        invariant
            r@.len() == k,
            k <= sinc_width,
            sinc_width == 2 * hw + 1,
            hw <= 500_001,
            -500_000 <= frac_delay <= 500_000,
            win@.len() == sinc_width,
            forall|i2: int|
                0 <= i2 < sinc_width ==> #[trigger] win@[i2] as int == window_kind_coeff(
                    window,
                    i2,
                    window_denom(sinc_width as int, true),
                ),
            forall|i2: int| 0 <= i2 < sinc_width ==> 0 <= #[trigger] win@[i2] <= SCALE + 1,
            forall|j: int|
                0 <= j < k ==> #[trigger] r@[j] as int == sinc_kernel_coeff(
                    hw as int,
                    frac_delay as int,
                    window,
                    j,
                ),
            forall|j: int| 0 <= j < k ==> -COEFF_LIMIT <= #[trigger] r@[j] <= COEFF_LIMIT,
        decreases sinc_width - k,
    {
        let arg = ((k as i64) - (hw as i64)) * SCALE - frac_delay;
        proof {
            assert(-SINC_ARG_LIMIT <= arg <= SINC_ARG_LIMIT) by (nonlinear_arith)
                requires
                    arg as int == ((k as int) - (hw as int)) * (SCALE as int)
                        - frac_delay as int,
                    0 <= k as int <= 2 * (hw as int),
                    hw as int <= 500_001,
                    -500_000 <= frac_delay as int <= 500_000,
            ;
        }
        let sc = sinc(arg);
        proof {
            lemma_qmul_bound(sc as int, win@[k as int] as int, SCALE as int, SCALE as int + 1);
        }
        let tap = qmul(sc, win[k]);
        r.push(tap);
        k = k + 1;
    }
    r
}

/// What the sinc design returns when it accepts a request: the
/// identity for a near-zero delay, a delta function for a whole-sample
/// delay, and the placed windowed-sinc kernel otherwise.
pub open spec fn sinc_result(delay: int, hw: Option<usize>, wk: Option<WindowKind>) -> Seq<i64> {
    if delay < EPSILON {
        seq![SCALE]
    } else if abs_val(sinc_frac(delay)) < EPSILON {
        delta_coeffs(nearest_delay(delay))
    } else {
        sinc_coeffs(delay, sinc_hw_choice(delay, hw), sinc_window_choice(wk))
    }
}

/// Delay filter design using windowed sinc interpolation: an integer
/// delay (a delta function) combined with a fractional-delay sinc
/// kernel.
///
/// Fails exactly on negative delays and, on the truly fractional path,
/// on a zero half width or one exceeding the nearest integer delay. A
/// delay within `EPSILON` of zero yields the identity filter; a delay
/// within `EPSILON` of a whole sample yields a delta function.
#[verifier::rlimit(60)]
pub fn sinc_interpolation(
    delay: i64,
    sinc_half_width: Option<usize>,
    window: Option<WindowKind>,
) -> (r: Result<FirCoeffs, DesignError>)
    requires
        delay <= MAX_DESIGN_DELAY,
    ensures
        r is Err <==> sinc_rejects(delay as int, sinc_half_width),
        delay < 0 ==> (r matches Err(e) && e == DesignError::NegativeDelay),
        r matches Err(e) ==> (delay >= 0 ==> (if sinc_hw_choice(delay as int, sinc_half_width)
            == 0 {
            e == DesignError::ZeroSincHalfWidth
        } else {
            e == DesignError::HalfWidthTooLarge
        })),
        r matches Ok(c) ==> c.b@ == sinc_result(delay as int, sinc_half_width, window),
        r matches Ok(c) ==> coeffs_wf(c.b@),
{
    if delay < 0 {
        return Err(DesignError::NegativeDelay);
    }
    if delay < EPSILON {
        let mut b: Vec<i64> = Vec::new();
        b.push(SCALE);
        assert(b@ =~= sinc_result(delay as int, sinc_half_width, window));
        return Ok(FirCoeffs { b });
    }

    // Factorize the delay into its nearest whole sample and fraction.
    let nearest = (((delay as u64) + 500_000) / (SCALE as u64)) as usize;
    proof {
        vstd::arithmetic::div_mod::lemma_fundamental_div_mod(delay as int + 500_000, SCALE as int);
        vstd::arithmetic::div_mod::lemma_mod_bound(delay as int + 500_000, SCALE as int);
        vstd::arithmetic::div_mod::lemma_div_is_ordered(0, delay as int + 500_000, SCALE as int);
        vstd::arithmetic::div_mod::lemma_div_is_ordered(
            delay as int + 500_000,
            MAX_DESIGN_DELAY as int + 500_000,
            SCALE as int,
        );
        assert((nearest as int) * (SCALE as int) == (SCALE as int) * (nearest as int))
            by (nonlinear_arith);
    }
    let frac = delay - (nearest as i64) * SCALE;
    assert(frac as int == sinc_frac(delay as int));
    assert(-500_000 <= frac <= 500_000);
    let afrac = if frac >= 0 {
        frac
    } else {
        -frac
    };

    if afrac < EPSILON {
        // A whole-sample delay reduces to a delta function.
        let mut b: Vec<i64> = zero_vec(nearest + 1);
        b.set(nearest, SCALE);
        assert(b@ =~= delta_coeffs(nearest as int));
        return Ok(FirCoeffs { b });
    }

    // Determine the kernel half width.
    let hw: usize = match sinc_half_width {
        Some(h) => h,
        None => if nearest < MAX_SINC_HALF_WIDTH {
            nearest
        } else {
            MAX_SINC_HALF_WIDTH
        },
    };
    assert(hw as int == sinc_hw_choice(delay as int, sinc_half_width));
    if hw == 0 {
        return Err(DesignError::ZeroSincHalfWidth);
    }
    if hw > nearest {
        return Err(DesignError::HalfWidthTooLarge);
    }

    let wk = match window {
        Some(w) => w,
        None => WindowKind::Hamming,
    };

    // Build the windowed kernel and place it after the integer delay.
    let delta_delay = nearest - hw;
    let sinc_width = 2 * hw + 1;
    let kernel = sinc_fractional_delay(hw, frac, wk);
    let mut b: Vec<i64> = zero_vec(delta_delay);
    let mut k: usize = 0;
    while k < sinc_width
        invariant
            b@.len() == delta_delay + k,
            k <= sinc_width,
            sinc_width == 2 * hw + 1,
            kernel@.len() == sinc_width,
            forall|j: int|
                0 <= j < sinc_width ==> #[trigger] kernel@[j] as int == sinc_kernel_coeff(
                    hw as int,
                    frac as int,
                    wk,
                    j,
                ),
            forall|j: int| 0 <= j < sinc_width ==> -COEFF_LIMIT <= #[trigger] kernel@[j]
                <= COEFF_LIMIT,
            forall|j: int| 0 <= j < delta_delay ==> b@[j] == 0i64,
            forall|j: int| 0 <= j < k ==> #[trigger] b@[delta_delay + j] == kernel@[j],
        decreases sinc_width - k,
    {
        b.push(kernel[k]);
        k = k + 1;
    }
    proof {
        let target = sinc_coeffs(delay as int, hw as int, wk);
        assert forall|i: int| 0 <= i < b@.len() implies b@[i] == target[i] by {
            if i >= delta_delay {
                let j = i - delta_delay;
                assert(b@[delta_delay + j] as int == sinc_kernel_coeff(
                    hw as int,
                    frac as int,
                    wk,
                    j,
                ));
                assert(-COEFF_LIMIT <= b@[delta_delay + j] <= COEFF_LIMIT);
            }
        }
        assert(b@ =~= target);
        assert forall|i: int| 0 <= i < b@.len() implies -COEFF_LIMIT <= #[trigger] b@[i]
            <= COEFF_LIMIT by {
            if i >= delta_delay {
                let j = i - delta_delay;
                assert(-COEFF_LIMIT <= b@[delta_delay + j] <= COEFF_LIMIT);
            }
        }
    }
    Ok(FirCoeffs { b })
}

} // verus!
