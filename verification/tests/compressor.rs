//! Tests for the dynamics compressor and the multi-channel carriers.

use rustafx::buffer_view::{BufferView, BufferViewMut};
use rustafx::effects::dynamics::Compressor;

/// 48 kHz in micro-hertz.
const SR48K: i64 = 48_000_000_000;

#[test]
fn target_gain_below_threshold_is_zero() {
    // Defaults: threshold -12 dB, ratio 2.
    let c = Compressor::new(1);
    // Silence and quiet samples sit below the threshold.
    assert_eq!(c.compute_target_gain(0), 0);
    assert_eq!(c.compute_target_gain(100_000), 0);
    assert_eq!(c.compute_target_gain(-100_000), 0);
    // A quarter of full scale is about -12.04 dB, still below.
    assert_eq!(c.compute_target_gain(250_000), 0);
}

#[test]
fn target_gain_above_threshold_is_negative() {
    let c = Compressor::new(1);
    // Full scale is 0 dB: twelve over threshold, halved by the ratio.
    assert_eq!(c.compute_target_gain(1_000_000), -6_000_000);
    assert_eq!(c.compute_target_gain(-1_000_000), -6_000_000);
    // Half of full scale is about -6 dB: above threshold, strictly
    // negative.
    let g = c.compute_target_gain(500_000);
    assert!(g < 0, "expected reduction, got {}", g);
    assert!((-3_050_000..=-2_950_000).contains(&g), "g = {}", g);
}

#[test]
fn quiet_signal_passes_unchanged() {
    let mut c = Compressor::new(1);
    c.prepare(SR48K, 128);
    let mut view = BufferViewMut::new(vec![vec![100_000, -80_000, 50_000, 0]]);
    c.process_inplace(&mut view);
    assert_eq!(view.to_vec()[0], vec![100_000, -80_000, 50_000, 0]);
}

#[test]
fn loud_signal_is_reduced() {
    let mut c = Compressor::new(1);
    c.prepare(SR48K, 128);
    let loud = vec![1_000_000i64; 64];
    let mut view = BufferViewMut::new(vec![loud.clone()]);
    c.process_inplace(&mut view);
    let out = &view.to_vec()[0];
    // Gain reduction builds up over the attack: outputs shrink and
    // keep shrinking.
    assert!(out[0] < 1_000_000);
    assert!(out[63] < out[0]);
    for &v in out.iter() {
        assert!(v > 0);
    }
}

#[test]
fn unprepared_compressor_is_noop() {
    let mut c = Compressor::new(1);
    let mut view = BufferViewMut::new(vec![vec![1_000_000, -1_000_000]]);
    c.process_inplace(&mut view);
    assert_eq!(view.to_vec()[0], vec![1_000_000, -1_000_000]);
}

#[test]
fn stereo_fully_linked_shares_reduction() {
    let mut c = Compressor::new(2);
    c.set_linking(1_000_000);
    c.prepare(SR48K, 128);
    // Only the left channel is loud; with full linking both channels
    // see the same (deeper) reduction, so the right channel shrinks
    // although it is quiet.
    let left = vec![1_000_000i64; 32];
    let right = vec![200_000i64; 32];
    let mut view = BufferViewMut::new(vec![left, right]);
    c.process_inplace(&mut view);
    let out = view.to_vec();
    assert!(out[0][31] < 1_000_000);
    assert!(out[1][31] < 200_000);
}

#[test]
fn stereo_unlinked_leaves_quiet_channel() {
    let mut c = Compressor::new(2);
    c.set_linking(0);
    c.prepare(SR48K, 128);
    let left = vec![1_000_000i64; 32];
    let right = vec![100_000i64; 32];
    let mut view = BufferViewMut::new(vec![left, right]);
    c.process_inplace(&mut view);
    let out = view.to_vec();
    assert!(out[0][31] < 1_000_000);
    // The quiet channel is below threshold and unlinked: untouched.
    assert_eq!(out[1], vec![100_000i64; 32]);
}

#[test]
fn compressor_reset_clears_state() {
    let mut c = Compressor::new(1);
    c.prepare(SR48K, 128);
    let mut view = BufferViewMut::new(vec![vec![1_000_000i64; 16]]);
    c.process_inplace(&mut view);
    c.reset();
    // After a reset a quiet signal passes unchanged again.
    let mut view = BufferViewMut::new(vec![vec![50_000i64, -50_000]]);
    c.process_inplace(&mut view);
    assert_eq!(view.to_vec()[0], vec![50_000, -50_000]);
}

#[test]
fn compressor_process_copies_input() {
    let mut c = Compressor::new(1);
    c.prepare(SR48K, 128);
    let input = BufferView::new(vec![vec![100_000, 50_000]]);
    let out = c.process(&input);
    assert_eq!(out, vec![vec![100_000, 50_000]]);
    assert_eq!(input.to_vec(), vec![vec![100_000, 50_000]]);
}

#[test]
fn buffer_views_report_shape() {
    let view = BufferView::new(vec![vec![1, 2, 3], vec![4, 5, 6]]);
    assert_eq!(view.num_channels(), 2);
    assert_eq!(view.num_samples(), 3);
    assert_eq!(view.channel(1), &vec![4, 5, 6]);
    assert_eq!(view.to_vec(), vec![vec![1, 2, 3], vec![4, 5, 6]]);

    let empty = BufferView::new(Vec::new());
    assert_eq!(empty.num_channels(), 0);
    assert_eq!(empty.num_samples(), 0);

    let mut mview = BufferViewMut::new(vec![vec![7, 8]]);
    assert_eq!(mview.num_channels(), 1);
    assert_eq!(mview.num_samples(), 2);
    mview.channel_mut(0).push(9);
    assert_eq!(mview.to_vec(), vec![vec![7, 8, 9]]);
}
