//! Digital filters: coefficient design, the FIR convolution engine, and
//! fixed fractional-delay filters built on it.

use vstd::prelude::*;
use crate::fixed::SAMPLE_LIMIT;
use crate::filter::fir::all_bounded;

pub mod design;
pub mod fir;
pub mod window;
pub mod delay;

pub use fir::FirFilter;
pub use delay::LinearInterpDelay;
pub use delay::SincInterpDelay;

verus! {

/// Common interface for digital audio filters: stream processing,
/// in-place processing, and a state reset. Each implementor's inherent
/// methods carry the exact statements; the trait states what holds of
/// any filter.
pub trait Filter {
    /// The filter is in a state its operations accept.
    spec fn filter_wf(&self) -> bool;

    /// Processes input samples into a fresh output stream of the same
    /// length, leaving the input untouched.
    fn process(&mut self, input: &Vec<i64>) -> (out: Vec<i64>)
        requires
            old(self).filter_wf(),
            all_bounded(input@, SAMPLE_LIMIT as int),
        ensures
            final(self).filter_wf(),
            out@.len() == input@.len(),
    ;

    /// Processes the buffer in place, keeping its length.
    fn process_inplace(&mut self, buffer: &mut Vec<i64>)
        requires
            old(self).filter_wf(),
            all_bounded(old(buffer)@, SAMPLE_LIMIT as int),
        ensures
            final(self).filter_wf(),
            final(buffer)@.len() == old(buffer)@.len(),
    ;

    /// Clears the stored history.
    fn reset(&mut self)
        requires
            old(self).filter_wf(),
        ensures
            final(self).filter_wf(),
    ;
}

/// A filter whose only purpose is a fixed delay, which it reports in
/// micro-samples.
pub trait DelayFilter: Filter {
    fn delay(&self) -> i64;
}

} // verus!
