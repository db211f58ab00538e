//! A real-time audio DSP engine on fixed-point samples.
//!
//! Samples, gains, times and frequencies are carried as `i64` values in
//! micro-units: one unit is one millionth, so full scale (1.0) is
//! `fixed::SCALE`. Every processing routine states exactly what it computes
//! over that representation, and the statements are machine-checked.

pub mod fixed;
pub mod utilities;
pub mod buffer_view;
pub mod math;
pub mod filter;
pub mod effects;
