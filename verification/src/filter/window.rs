//! Window functions: symmetric or periodic weighting sequences of the
//! raised-cosine family, used by the windowed-sinc filter design.
//!
//! Each weight is `a0 - a1 * cos(2 pi i / denom)` in micro-units, with
//! `denom = n - 1` for a symmetric window and `denom = n` for a
//! periodic one.

use vstd::prelude::*;
use crate::fixed::{SCALE, qmul, qmul_spec, lemma_qmul_bound};
use crate::math::{cos_phase, cos_phase_spec, lemma_cos_phase_symmetric};

verus! {

/// Largest window length the generators accept.
pub const MAX_WINDOW_LEN: usize = 2_000_000;

/// The divisor that turns an index into a phase: one less than the
/// length for a symmetric window, the length itself for a periodic one.
pub open spec fn window_denom(n: int, sym: bool) -> int {
    if sym {
        n - 1
    } else {
        n
    }
}

/// One raised-cosine weight in micro-units.
pub open spec fn window_coeff(a0: int, a1: int, i: int, denom: int) -> int {
    a0 - qmul_spec(a1, cos_phase_spec(i, denom))
}

/// The Hamming weight at one position.
pub open spec fn hamming_coeff(i: int, denom: int) -> int {
    window_coeff(540_000, 460_000, i, denom)
}

/// The Hann weight at one position.
pub open spec fn hann_coeff(i: int, denom: int) -> int {
    window_coeff(500_000, 500_000, i, denom)
}

/// The window families the sinc design can use.
#[derive(Clone, Copy, Debug, PartialEq, Eq, Structural)]
pub enum WindowKind {
    Hamming,
    Hann,
}

/// The weight of the chosen window family at one position.
pub open spec fn window_kind_coeff(wk: WindowKind, i: int, denom: int) -> int {
    match wk {
        WindowKind::Hamming => hamming_coeff(i, denom),
        WindowKind::Hann => hann_coeff(i, denom),
    }
}

/// The coefficients of the chosen window family.
pub fn window_of(wk: WindowKind, n: usize, sym: bool) -> (r: Vec<i64>)
    requires
        n <= MAX_WINDOW_LEN,
    ensures
        r@.len() == n,
        forall|i: int|
            0 <= i < n ==> #[trigger] r@[i] as int == window_kind_coeff(
                wk,
                i,
                window_denom(n as int, sym),
            ),
        forall|i: int| 0 <= i < n ==> 0 <= #[trigger] r@[i] <= SCALE + 1,
{
    match wk {
        WindowKind::Hamming => hamming(n, sym),
        WindowKind::Hann => hann(n, sym),
    }
}

/// A symmetric window reads the same forwards and backwards: position
/// `i` and position `n - 1 - i` carry the same weight.
pub proof fn lemma_window_symmetric(a0: int, a1: int, n: int, i: int)
    requires
        0 <= i < n,
    ensures
        window_coeff(a0, a1, i, window_denom(n, true)) == window_coeff(
            a0,
            a1,
            n - 1 - i,
            window_denom(n, true),
        ),
{
    lemma_cos_phase_symmetric(i, n - 1);
}

/// Builds one raised-cosine window.
fn raised_cosine(n: usize, sym: bool, a0: i64, a1: i64) -> (r: Vec<i64>)
    requires
        n <= MAX_WINDOW_LEN,
        0 <= a1 <= a0,
        a0 + a1 <= SCALE,
    ensures
        r@.len() == n,
        forall|i: int|
            0 <= i < n ==> #[trigger] r@[i] as int == window_coeff(
                a0 as int,
                a1 as int,
                i,
                window_denom(n as int, sym),
            ),
        forall|i: int| 0 <= i < n ==> 0 <= #[trigger] r@[i] <= SCALE + 1,
{
    let denom: usize = if sym {
        if n == 0 {
            0
        } else {
            n - 1
        }
    } else {
        n
    };
    let mut r: Vec<i64> = Vec::new();
    let mut i: usize = 0;
    while i < n
        invariant
            r@.len() == i,
            i <= n,
            n <= MAX_WINDOW_LEN,
            0 <= a1 <= a0,
            a0 + a1 <= SCALE,
            denom as int == if sym && n > 0 {
                n - 1
            } else {
                n as int
            },
            forall|j: int|
                0 <= j < i ==> #[trigger] r@[j] as int == window_coeff(
                    a0 as int,
                    a1 as int,
                    j,
                    window_denom(n as int, sym),
                ),
            forall|j: int| 0 <= j < i ==> 0 <= #[trigger] r@[j] <= SCALE + 1,
        decreases n - i,
    {
        let c = cos_phase(i, denom);
        proof {
            lemma_qmul_bound(a1 as int, c as int, a1 as int, SCALE as int);
            vstd::arithmetic::div_mod::lemma_div_multiples_vanish(a1 as int, SCALE as int);
            assert(a1 as int * SCALE as int == SCALE as int * a1 as int) by (nonlinear_arith);
        }
        let w = a0 - qmul(a1, c);
        proof {
            assert(window_denom(n as int, sym) == denom as int || (sym && n == 0));
        }
        r.push(w);
        i = i + 1;
    }
    r
}

/// The coefficients of a Hamming window of `n` points, symmetric or
/// periodic.
pub fn hamming(n: usize, sym: bool) -> (r: Vec<i64>)
    requires
        n <= MAX_WINDOW_LEN,
    ensures
        r@.len() == n,
        forall|i: int|
            0 <= i < n ==> #[trigger] r@[i] as int == hamming_coeff(
                i,
                window_denom(n as int, sym),
            ),
        forall|i: int| 0 <= i < n ==> 0 <= #[trigger] r@[i] <= SCALE + 1,
{
    raised_cosine(n, sym, 540_000, 460_000)
}

/// The coefficients of a Hann window of `n` points, symmetric or
/// periodic.
pub fn hann(n: usize, sym: bool) -> (r: Vec<i64>)
    requires
        n <= MAX_WINDOW_LEN,
    ensures
        r@.len() == n,
        forall|i: int|
            0 <= i < n ==> #[trigger] r@[i] as int == hann_coeff(i, window_denom(n as int, sym)),
        forall|i: int| 0 <= i < n ==> 0 <= #[trigger] r@[i] <= SCALE + 1,
{
    raised_cosine(n, sym, 500_000, 500_000)
}

} // verus!
