//! Audio effects: block-based multi-channel processors with a
//! prepare / reset / process lifecycle.
//!
//! An effect must be prepared before it processes anything; until then
//! processing is a no-op. Preparing is where sample-rate dependent
//! allocation and coefficient work happens, never the per-sample path.

use vstd::prelude::*;
use crate::fixed::SAMPLE_LIMIT;
use crate::buffer_view::{BufferView, BufferViewMut};

pub mod delay;
pub mod dynamics;

pub use delay::DigitalDelay;
pub use dynamics::Compressor;

verus! {

/// The lifecycle contract of a multi-channel block effect. Each
/// implementor's inherent methods carry the exact statements; the
/// trait states what holds of any effect.
pub trait Effect {
    /// The effect is in a state its operations accept.
    spec fn effect_wf(&self) -> bool;

    /// How many channels the effect expects once prepared.
    spec fn effect_channels(&self) -> int;

    /// Whether `prepare` has been run.
    spec fn effect_prepared(&self) -> bool;

    /// Readies the effect for a sample rate (micro-hertz) and block
    /// size; sample-rate dependent allocation happens here.
    fn prepare(&mut self, sample_rate: i64, block_size: usize)
        requires
            old(self).effect_wf(),
            1_000_000 <= sample_rate <= 1_000_000_000_000,
        ensures
            final(self).effect_wf(),
            final(self).effect_prepared(),
    ;

    /// Clears internal history to silence without reallocating.
    fn reset(&mut self)
        requires
            old(self).effect_wf(),
        ensures
            final(self).effect_wf(),
    ;

    /// Processes a copy of the input and returns the output channels.
    fn process(&mut self, input: &BufferView) -> (out: Vec<Vec<i64>>)
        requires
            old(self).effect_wf(),
            input.wf(),
            old(self).effect_prepared() ==> input.chans().len() == old(self).effect_channels(),
            forall|c: int, j: int|
                0 <= c < input.chans().len() && 0 <= j < input.chans()[c].len()
                    ==> -SAMPLE_LIMIT <= #[trigger] input.chans()[c][j] <= SAMPLE_LIMIT,
        ensures
            final(self).effect_wf(),
            out@.len() == input.chans().len(),
    ;

    /// Processes the buffer in place; a no-op before `prepare`.
    fn process_inplace(&mut self, buffer: &mut BufferViewMut)
        requires
            old(self).effect_wf(),
            old(buffer).wf(),
            old(self).effect_prepared() ==> old(buffer).chans().len() == old(
                self,
            ).effect_channels(),
            forall|c: int, j: int|
                0 <= c < old(buffer).chans().len() && 0 <= j < old(buffer).chans()[c].len()
                    ==> -SAMPLE_LIMIT <= #[trigger] old(buffer).chans()[c][j] <= SAMPLE_LIMIT,
        ensures
            final(self).effect_wf(),
            final(buffer).wf(),
            final(buffer).chans().len() == old(buffer).chans().len(),
    ;
}

} // verus!
