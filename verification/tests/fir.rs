//! Tests for the FIR convolution engine and the fixed delay filters.

use rustafx::filter::design::{linear_interpolation, FirCoeffs, DesignError};
use rustafx::filter::fir::FirFilter;
use rustafx::filter::delay::{LinearInterpDelay, SincInterpDelay};

#[test]
fn buffer_length() {
    // Buffer length is the smallest power of two covering the
    // coefficients.
    let coeffs = FirCoeffs::new(vec![1_000_000; 10]);
    let filter = FirFilter::new(coeffs);
    assert_eq!(filter.buffer_len(), 16);

    let coeffs = FirCoeffs::new(vec![1_000_000; 8]);
    let filter = FirFilter::new(coeffs);
    assert_eq!(filter.buffer_len(), 8);

    let coeffs = FirCoeffs::new(vec![1_000_000; 100]);
    let filter = FirFilter::new(coeffs);
    assert_eq!(filter.buffer_len(), 128);
}

#[test]
fn fir_process_case_1() {
    // An impulse reads back the coefficient sequence, and the input is
    // untouched.
    let coeffs = FirCoeffs::new(vec![1_000_000, 2_000_000, 3_000_000, 4_000_000, 5_000_000]);
    let mut filter = FirFilter::new(coeffs);
    let input: Vec<i64> = vec![1_000_000, 0, 0, 0, 0];
    let output = filter.process(&input);
    assert_eq!(input, vec![1_000_000, 0, 0, 0, 0]);
    assert_eq!(output, vec![1_000_000, 2_000_000, 3_000_000, 4_000_000, 5_000_000]);
}

#[test]
fn fir_process_inplace_case_1() {
    let coeffs = FirCoeffs::new(vec![1_000_000, 2_000_000, 3_000_000, 4_000_000, 5_000_000]);
    let mut filter = FirFilter::new(coeffs);
    let mut buffer: Vec<i64> = vec![1_000_000, 0, 0, 0, 0];
    filter.process_inplace(&mut buffer);
    assert_eq!(buffer, vec![1_000_000, 2_000_000, 3_000_000, 4_000_000, 5_000_000]);
}

#[test]
fn fir_reset_case_1() {
    let coeffs = FirCoeffs::new(vec![1_000_000, 2_000_000, 3_000_000, 4_000_000, 5_000_000]);
    let mut filter = FirFilter::new(coeffs);
    let input: Vec<i64> = vec![1_000_000, 0];
    let output = filter.process(&input);
    assert_eq!(output, vec![1_000_000, 2_000_000]);

    // After a reset, silence in is silence out, whatever came before.
    filter.reset();
    let input: Vec<i64> = vec![0, 0, 0];
    let output = filter.process(&input);
    assert_eq!(output, vec![0, 0, 0]);
}

#[test]
fn fir_process_matches_inplace() {
    // Processing a copy in place gives exactly the non-destructive
    // result.
    let b = vec![250_000, -125_000, 1_000_000, 62_500];
    let input: Vec<i64> = vec![1_000_000, -500_000, 333_333, 0, 250_000, -1_000_000];

    let mut f1 = FirFilter::new(FirCoeffs::new(b.clone()));
    let out = f1.process(&input);
    assert_eq!(input.len(), out.len());

    let mut f2 = FirFilter::new(FirCoeffs::new(b));
    let mut copy = input.clone();
    f2.process_inplace(&mut copy);
    assert_eq!(out, copy);
}

#[test]
fn linear_delay_filter() {
    // A two-sample linear delay shifts an impulse by two samples.
    let mut f = LinearInterpDelay::new(2_000_000).unwrap();
    assert_eq!(f.delay(), 2_000_000);
    let input: Vec<i64> = vec![1_000_000, 0, 0, 0, 0];
    let out = f.process(&input);
    assert_eq!(out, vec![0, 0, 1_000_000, 0, 0]);
}

#[test]
fn linear_delay_fractional() {
    // Half a sample of delay splits the impulse across two taps.
    let mut f = LinearInterpDelay::new(1_500_000).unwrap();
    let input: Vec<i64> = vec![1_000_000, 0, 0, 0];
    let out = f.process(&input);
    assert_eq!(out, vec![0, 500_000, 500_000, 0]);
}

#[test]
fn linear_delay_rejects_negative() {
    assert!(LinearInterpDelay::new(-1).is_err());
    assert_eq!(
        linear_interpolation(-5_000_000).unwrap_err(),
        DesignError::NegativeDelay
    );
}

#[test]
fn sinc_delay_filter_integer() {
    // An integer sinc delay is a pure shift.
    let mut f = SincInterpDelay::new(3_000_000, None, None).unwrap();
    assert_eq!(f.delay(), 3_000_000);
    let input: Vec<i64> = vec![1_000_000, 0, 0, 0, 0];
    let out = f.process(&input);
    assert_eq!(out, vec![0, 0, 0, 1_000_000, 0]);
}

#[test]
fn sinc_delay_reset() {
    let mut f = SincInterpDelay::new(2_000_000, None, None).unwrap();
    let input: Vec<i64> = vec![1_000_000, 0, 0];
    let _ = f.process(&input);
    f.reset();
    let out = f.process(&vec![0, 0, 0, 0]);
    assert_eq!(out, vec![0, 0, 0, 0]);
}
