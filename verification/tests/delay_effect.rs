//! Tests for the digital delay effect: parameters, preparation, the
//! dry path, the wet path, feedback echoes and stereo separation.

use rustafx::buffer_view::{BufferView, BufferViewMut};
use rustafx::effects::delay::{
    DigitalDelay, DEFAULT_DELAY_TIME, DEFAULT_FEEDBACK, DEFAULT_DRY_GAIN, DEFAULT_WET_GAIN,
};

/// 48 kHz in micro-hertz.
const SR48K: i64 = 48_000_000_000;

fn mono_view(samples: Vec<i64>) -> BufferViewMut {
    BufferViewMut::new(vec![samples])
}

#[test]
fn test_new_delay() {
    let delay = DigitalDelay::new(2);
    assert_eq!(delay.delay_time(), DEFAULT_DELAY_TIME);
    assert_eq!(delay.feedback(), DEFAULT_FEEDBACK);
    assert_eq!(delay.dry_gain(), DEFAULT_DRY_GAIN);
    assert_eq!(delay.wet_gain(), DEFAULT_WET_GAIN);
    assert_eq!(delay.num_channels(), 2);
}

#[test]
fn test_parameter_setters() {
    let mut delay = DigitalDelay::new(1);

    delay.set_delay_time(737_000_000);
    assert_eq!(delay.delay_time(), 737_000_000);

    delay.set_feedback(430_000);
    assert_eq!(delay.feedback(), 430_000);

    delay.set_dry_gain(290_000);
    assert_eq!(delay.dry_gain(), 290_000);

    delay.set_wet_gain(120_000);
    assert_eq!(delay.wet_gain(), 120_000);
}

#[test]
fn test_prepare() {
    let mut delay = DigitalDelay::new(1);
    delay.set_delay_time(100_000_000);
    delay.prepare(SR48K, 128);

    // 48 samples per millisecond, so 100 ms is 4800 samples.
    assert_eq!(delay.sample_rate_per_ms(), 48_000_000);
    assert_eq!(delay.delay_samples(), 4_800_000_000);
    assert_eq!(delay.smoothed_delay_samples(), 4_800_000_000);

    // The ring covers a full second and is a power of two.
    let len = delay.ring_buffer_len();
    assert!(len >= 48_000);
    assert!(len.is_power_of_two());
    assert_eq!(len, 65_536);
}

#[test]
fn test_process_dry_only() {
    let mut delay = DigitalDelay::new(1);
    delay.set_wet_gain(0);
    delay.set_dry_gain(1_000_000);
    delay.prepare(SR48K, 128);

    let mut view = mono_view(vec![1_000_000, 500_000, -500_000, -1_000_000]);
    delay.process_inplace(&mut view);

    // With zero wet gain the output equals the input exactly.
    assert_eq!(
        view.to_vec()[0],
        vec![1_000_000, 500_000, -500_000, -1_000_000]
    );
}

#[test]
fn test_process_wet_only() {
    let mut delay = DigitalDelay::new(1);
    delay.set_delay_time(11_000_000);
    delay.set_feedback(0);
    delay.set_dry_gain(0);
    delay.set_wet_gain(1_000_000);
    delay.prepare(SR48K, 128);

    let mut samples: Vec<i64> = vec![1_000_000, 500_000, -500_000, -1_000_000];
    samples.resize(1000, 0);
    let mut view = mono_view(samples);
    delay.process_inplace(&mut view);
    let out = &view.to_vec()[0];

    // Silence until the delay elapses: 11 ms at 48 samples/ms is 528.
    let expected_delay = 48 * 11;
    for i in 0..expected_delay {
        assert_eq!(out[i], 0, "expected out[{}] to be zero, got {}", i, out[i]);
    }
    assert_eq!(
        &out[expected_delay..expected_delay + 4],
        &[1_000_000, 500_000, -500_000, -1_000_000]
    );
}

#[test]
fn test_delay_scenario() {
    // An impulse through an 11 ms wet-only delay at 48 kHz: silence
    // for 528 samples, then the impulse.
    let mut delay = DigitalDelay::new(1);
    delay.set_delay_time(11_000_000);
    delay.prepare(SR48K, 128);
    delay.set_feedback(0);
    delay.set_dry_gain(0);
    delay.set_wet_gain(1_000_000);

    let mut samples: Vec<i64> = vec![1_000_000];
    samples.resize(1000, 0);
    let mut view = mono_view(samples);
    delay.process_inplace(&mut view);
    let out = &view.to_vec()[0];

    for i in 0..528 {
        assert_eq!(out[i], 0, "expected silence at {}", i);
    }
    assert_eq!(&out[528..532], &[1_000_000, 0, 0, 0]);
}

#[test]
fn test_feedback() {
    let mut delay = DigitalDelay::new(1);
    delay.set_delay_time(11_000_000);
    delay.set_feedback(300_000);
    delay.set_dry_gain(0);
    delay.set_wet_gain(1_000_000);
    delay.prepare(SR48K, 128);

    let mut samples: Vec<i64> = vec![1_000_000];
    samples.resize(2000, 0);
    let mut view = mono_view(samples);
    delay.process_inplace(&mut view);
    let out = &view.to_vec()[0];

    // Echoes at multiples of 528, each 0.3 times the one before.
    let d = 48 * 11;
    let amps = [1_000_000i64, 300_000, 90_000];
    for i in 0..out.len() {
        if i > 0 && i % d == 0 {
            let k = i / d;
            assert_eq!(out[i], amps[k - 1], "echo {} at {}", k, i);
        } else {
            assert_eq!(out[i], 0, "expected out[{}] to be zero, got {}", i, out[i]);
        }
    }
}

#[test]
fn test_process_stereo() {
    let mut delay = DigitalDelay::new(2);
    delay.set_delay_time(11_000_000);
    delay.set_feedback(300_000);
    delay.set_dry_gain(0);
    delay.set_wet_gain(1_000_000);
    delay.prepare(SR48K, 128);

    // The right channel's impulse arrives two samples later and at
    // half the height; there is no cross-talk between channels.
    let mut left: Vec<i64> = vec![1_000_000, 0, 0];
    let mut right: Vec<i64> = vec![0, 0, 500_000];
    left.resize(2000, 0);
    right.resize(2000, 0);
    let mut view = BufferViewMut::new(vec![left, right]);
    delay.process_inplace(&mut view);
    let out = view.to_vec();

    let d = 48 * 11;
    let left_amps = [1_000_000i64, 300_000, 90_000];
    let right_amps = [500_000i64, 150_000, 45_000];
    for k in 1..=3 {
        assert_eq!(out[0][k * d], left_amps[k - 1], "left echo {}", k);
        assert_eq!(out[0][k * d + 1], 0);
        assert_eq!(out[1][k * d + 2], right_amps[k - 1], "right echo {}", k);
        assert_eq!(out[1][k * d], 0);
    }
}

#[test]
fn test_unprepared_is_noop() {
    let mut delay = DigitalDelay::new(1);
    let mut view = mono_view(vec![1_000_000, -1_000_000]);
    delay.process_inplace(&mut view);
    assert_eq!(view.to_vec()[0], vec![1_000_000, -1_000_000]);
}

#[test]
fn test_process_copies() {
    let mut delay = DigitalDelay::new(1);
    delay.set_wet_gain(0);
    delay.set_dry_gain(1_000_000);
    delay.prepare(SR48K, 128);

    let input = BufferView::new(vec![vec![123_456, -654_321]]);
    let out = delay.process(&input);
    assert_eq!(out, vec![vec![123_456, -654_321]]);
    // The input carrier still holds its samples.
    assert_eq!(input.to_vec(), vec![vec![123_456, -654_321]]);
}
