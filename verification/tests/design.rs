//! Tests for the fractional-delay filter designs, the window
//! generators and the sampling function. Values are micro-units: one
//! whole is 1_000_000.

use rustafx::filter::design::{
    linear_interpolation, sinc_interpolation, DesignError, FirCoeffs,
};
use rustafx::filter::window::{hamming, hann, WindowKind};
use rustafx::utilities::{next_power_of_two, sinc};
use rustafx::math::{exp_neg, pow10_gain};

#[test]
fn linear_zero_delay() {
    let coeffs = linear_interpolation(0).unwrap();
    assert_eq!(coeffs.b, vec![1_000_000]);
}

#[test]
fn linear_epsilon_delay() {
    // Anything below one millionth of a sample is zero in micro-units.
    let delay = 0;
    let coeffs = linear_interpolation(delay).unwrap();
    assert_eq!(coeffs.b, vec![1_000_000]);
}

#[test]
fn linear_negative_delay() {
    let delay = -1_000_000;
    assert_eq!(
        linear_interpolation(delay).unwrap_err(),
        DesignError::NegativeDelay
    );
}

#[test]
fn linear_case_1() {
    // A delay of 3.3 samples: two taps splitting one whole, 0.7 / 0.3.
    let coeffs = linear_interpolation(3_300_000).unwrap();
    assert_eq!(coeffs.b, vec![0, 0, 0, 700_000, 300_000]);
}

#[test]
fn sinc_zero_delay() {
    let coeffs = sinc_interpolation(0, None, None).unwrap();
    assert_eq!(coeffs.b, vec![1_000_000]);
}

#[test]
fn sinc_epsilon_delay() {
    let delay = 0;
    let coeffs = sinc_interpolation(delay, None, None).unwrap();
    assert_eq!(coeffs.b, vec![1_000_000]);
}

#[test]
fn sinc_negative_delay() {
    let delay = -1_000_000;
    assert_eq!(
        sinc_interpolation(delay, None, None).unwrap_err(),
        DesignError::NegativeDelay
    );
}

#[test]
fn zero_sinc_width() {
    let delay = 10_700_000;
    assert_eq!(
        sinc_interpolation(delay, Some(0), None).unwrap_err(),
        DesignError::ZeroSincHalfWidth
    );
}

#[test]
fn half_width_too_large() {
    // 5.5 samples rounds to 6; a half width of 10 cannot be placed
    // causally.
    let delay = 5_500_000;
    assert_eq!(
        sinc_interpolation(delay, Some(10), None).unwrap_err(),
        DesignError::HalfWidthTooLarge
    );
}

#[test]
fn sinc_case_1() {
    // The filter is a delta function when the delay is an integer.
    let delay = 7_000_000;
    let coeffs = sinc_interpolation(delay, None, None).unwrap();
    assert_eq!(coeffs.b, vec![0, 0, 0, 0, 0, 0, 0, 1_000_000]);
}

#[test]
fn sinc_case_2() {
    // 10.7 samples: a 23-tap kernel centred 11 samples in.
    let coeffs = sinc_interpolation(10_700_000, None, Some(WindowKind::Hamming)).unwrap();
    assert_eq!(coeffs.b.len(), 23);
    // The centre tap carries most of the unit; its neighbour toward
    // the requested delay carries the bulk of the rest.
    assert!(
        (858_300..=858_500).contains(&coeffs.b[11]),
        "centre tap {} out of range",
        coeffs.b[11]
    );
    assert!(
        (360_600..=361_400).contains(&coeffs.b[10]),
        "tap 10 {} out of range",
        coeffs.b[10]
    );
    // The kernel alternates in sign away from the centre.
    assert!(coeffs.b[12] < 0);
    assert!(coeffs.b[13] > 0);
    assert!(coeffs.b[9] < 0);
}

#[test]
fn sinc_case_3() {
    // 20.7 samples with the same half width: the same kernel, placed
    // ten samples later.
    let base = sinc_interpolation(10_700_000, Some(11), Some(WindowKind::Hamming)).unwrap();
    let coeffs = sinc_interpolation(20_700_000, Some(11), Some(WindowKind::Hamming)).unwrap();
    assert_eq!(coeffs.b.len(), 33);
    for i in 0..10 {
        assert_eq!(coeffs.b[i], 0, "expected leading zero at {}", i);
    }
    for i in 0..23 {
        assert_eq!(coeffs.b[10 + i], base.b[i], "kernel mismatch at {}", i);
    }
}

#[test]
fn hamming_window_exact_points() {
    let w = hamming(5, true);
    assert_eq!(w.len(), 5);
    // The ends are a0 - a1 and the middle a0 + a1, exactly.
    assert_eq!(w[0], 80_000);
    assert_eq!(w[4], 80_000);
    assert_eq!(w[2], 1_000_000);
    // Symmetry holds exactly.
    assert_eq!(w[1], w[3]);
    assert!((539_990..=540_010).contains(&w[1]), "w[1] = {}", w[1]);
}

#[test]
fn hann_window_periodic() {
    let w = hann(4, false);
    assert_eq!(w.len(), 4);
    assert_eq!(w[0], 0);
    assert_eq!(w[2], 1_000_000);
    assert_eq!(w[1], w[3]);
    assert!((499_990..=500_010).contains(&w[1]), "w[1] = {}", w[1]);
}

#[test]
fn window_symmetry_longer() {
    let w = hamming(23, true);
    for i in 0..23 {
        assert_eq!(w[i], w[22 - i], "asymmetry at {}", i);
    }
    let v = hann(16, true);
    for i in 0..16 {
        assert_eq!(v[i], v[15 - i], "asymmetry at {}", i);
    }
}

#[test]
fn sinc_function_values() {
    assert_eq!(sinc(0), 1_000_000);
    // Whole-sample arguments are zeros of the sampling function.
    assert_eq!(sinc(1_000_000), 0);
    assert_eq!(sinc(-1_000_000), 0);
    assert_eq!(sinc(3_000_000), 0);
    // Half a sample: 2 / pi.
    let half = sinc(500_000);
    assert!((634_000..=639_000).contains(&half), "sinc(0.5) = {}", half);
    assert_eq!(sinc(500_000), sinc(-500_000));
}

#[test]
fn next_power_of_two_values() {
    assert_eq!(next_power_of_two(0), 1);
    assert_eq!(next_power_of_two(1), 1);
    assert_eq!(next_power_of_two(10), 16);
    assert_eq!(next_power_of_two(8), 8);
    assert_eq!(next_power_of_two(100), 128);
    assert_eq!(next_power_of_two(48000), 65536);
}

#[test]
fn exponentials_at_zero() {
    assert_eq!(exp_neg(0), 1_000_000);
    assert!(exp_neg(1_000_000) < 1_000_000);
    assert_eq!(pow10_gain(0), 1_000_000);
}

#[test]
fn coefficients_carry_into_struct() {
    let c = FirCoeffs { b: vec![1_000_000, -500_000] };
    assert_eq!(c.b.len(), 2);
}
