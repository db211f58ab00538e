//! Fixed fractional-delay filters: a FIR engine paired with
//! coefficients from the delay designs. The delay amount is chosen at
//! construction and cannot change afterwards; a runtime-variable delay
//! belongs to the delay effect instead, because changing the amount
//! here would mean recomputing the coefficients and reallocating the
//! engine's buffer.

use vstd::prelude::*;
use crate::fixed::SAMPLE_LIMIT;
use crate::filter::fir::all_bounded;
use crate::filter::design::{
    linear_interpolation,
    sinc_interpolation,
    linear_coeffs,
    sinc_result,
    sinc_rejects,
    DesignError,
    MAX_DESIGN_DELAY,
};
use crate::filter::fir::{FirFilter, fir_hist_after, fir_outputs, zero_hist};
use crate::filter::window::WindowKind;

verus! {

/// A fixed delay realized by linear interpolation: simple and cheap,
/// at the cost of high-frequency attenuation.
pub struct LinearInterpDelay {
    delay: i64,
    filter: FirFilter,
}

/// A fixed delay realized by windowed sinc interpolation: nearly flat
/// group delay over a wide passband, at a higher cost per sample.
pub struct SincInterpDelay {
    delay: i64,
    filter: FirFilter,
}

impl LinearInterpDelay {
    /// The delay this filter realizes, in micro-samples.
    pub closed spec fn delay_spec(&self) -> int {
        self.delay as int
    }

    /// The inner engine's coefficients.
    pub closed spec fn coeff_seq(&self) -> Seq<i64> {
        self.filter.coeff_seq()
    }

    /// The inner engine's history.
    pub closed spec fn hist(&self) -> Seq<i64> {
        self.filter.hist()
    }

    pub closed spec fn ring_len(&self) -> int {
        self.filter.ring_len()
    }

    /// A well-formed fixed delay: a sound engine whose coefficients are
    /// exactly the linear-interpolation design for the stored delay.
    pub closed spec fn wf(&self) -> bool {
        &&& self.filter.wf()
        &&& self.coeff_seq() == linear_coeffs(self.delay as int)
        &&& 0 <= self.delay <= MAX_DESIGN_DELAY
    }

    /// Designs the coefficients for the requested delay and builds the
    /// engine. Fails exactly on negative delays.
    pub fn new(delay: i64) -> (r: Result<LinearInterpDelay, DesignError>)
        requires
            delay <= MAX_DESIGN_DELAY,
        ensures
            delay < 0 <==> r is Err,
            r matches Err(e) ==> e == DesignError::NegativeDelay,
            r matches Ok(f) ==> {
                &&& f.wf()
                &&& f.delay_spec() == delay
                &&& f.hist() == zero_hist(f.ring_len() as nat)
            },
    {
        let coeffs = match linear_interpolation(delay) {
            Ok(c) => c,
            Err(e) => {
                return Err(e);
            },
        };
        let filter = FirFilter::new(coeffs);
        Ok(LinearInterpDelay { delay, filter })
    }

    /// The delay in micro-samples.
    pub fn delay(&self) -> (r: i64)
        ensures
            r as int == self.delay_spec(),
    {
        self.delay
    }

    /// Filters a copy of the input, leaving it untouched; same result
    /// as `process_inplace` on a copy.
    pub fn process(&mut self, input: &Vec<i64>) -> (out: Vec<i64>)
        requires
            old(self).wf(),
            all_bounded(input@, SAMPLE_LIMIT as int),
        ensures
            final(self).wf(),
            final(self).delay_spec() == old(self).delay_spec(),
            final(self).hist() == fir_hist_after(old(self).hist(), input@),
            out@.len() == input@.len(),
            forall|j: int|
                0 <= j < input@.len() ==> out@[j] as int == fir_outputs(
                    old(self).coeff_seq(),
                    old(self).hist(),
                    input@,
                )[j],
    {
        self.filter.process(input)
    }

    /// Filters the buffer in place.
    pub fn process_inplace(&mut self, buffer: &mut Vec<i64>)
        requires
            old(self).wf(),
            all_bounded(old(buffer)@, SAMPLE_LIMIT as int),
        ensures
            final(self).wf(),
            final(self).delay_spec() == old(self).delay_spec(),
            final(self).hist() == fir_hist_after(old(self).hist(), old(buffer)@),
            final(buffer)@.len() == old(buffer)@.len(),
            forall|j: int|
                0 <= j < old(buffer)@.len() ==> final(buffer)@[j] as int == fir_outputs(
                    old(self).coeff_seq(),
                    old(self).hist(),
                    old(buffer)@,
                )[j],
    {
        self.filter.process_inplace(buffer)
    }

    /// Clears the engine's history.
    pub fn reset(&mut self)
        requires
            old(self).wf(),
        ensures
            final(self).wf(),
            final(self).delay_spec() == old(self).delay_spec(),
            final(self).hist() == zero_hist(final(self).ring_len() as nat),
            final(self).ring_len() == old(self).ring_len(),
    {
        self.filter.reset()
    }
}

impl SincInterpDelay {
    /// The delay this filter realizes, in micro-samples.
    pub closed spec fn delay_spec(&self) -> int {
        self.delay as int
    }

    /// The inner engine's coefficients.
    pub closed spec fn coeff_seq(&self) -> Seq<i64> {
        self.filter.coeff_seq()
    }

    /// The inner engine's history.
    pub closed spec fn hist(&self) -> Seq<i64> {
        self.filter.hist()
    }

    pub closed spec fn ring_len(&self) -> int {
        self.filter.ring_len()
    }

    pub closed spec fn wf(&self) -> bool {
        &&& self.filter.wf()
        &&& 0 <= self.delay <= MAX_DESIGN_DELAY
    }

    /// Designs the windowed-sinc coefficients for the requested delay
    /// and builds the engine. Fails exactly where the sinc design does.
    pub fn new(delay: i64, sinc_half_width: Option<usize>, window_type: Option<WindowKind>) -> (r:
        Result<SincInterpDelay, DesignError>)
        requires
            delay <= MAX_DESIGN_DELAY,
        ensures
            r is Err <==> sinc_rejects(delay as int, sinc_half_width),
            delay < 0 ==> (r matches Err(e) && e == DesignError::NegativeDelay),
            r matches Ok(f) ==> {
                &&& f.wf()
                &&& f.delay_spec() == delay
                &&& f.coeff_seq() == sinc_result(delay as int, sinc_half_width, window_type)
                &&& f.hist() == zero_hist(f.ring_len() as nat)
            },
    {
        let coeffs = match sinc_interpolation(delay, sinc_half_width, window_type) {
            Ok(c) => c,
            Err(e) => {
                return Err(e);
            },
        };
        let filter = FirFilter::new(coeffs);
        Ok(SincInterpDelay { delay, filter })
    }

    /// The delay in micro-samples.
    pub fn delay(&self) -> (r: i64)
        ensures
            r as int == self.delay_spec(),
    {
        self.delay
    }

    /// Filters a copy of the input, leaving it untouched; same result
    /// as `process_inplace` on a copy.
    pub fn process(&mut self, input: &Vec<i64>) -> (out: Vec<i64>)
        requires
            old(self).wf(),
            all_bounded(input@, SAMPLE_LIMIT as int),
        ensures
            final(self).wf(),
            final(self).delay_spec() == old(self).delay_spec(),
            final(self).coeff_seq() == old(self).coeff_seq(),
            final(self).hist() == fir_hist_after(old(self).hist(), input@),
            out@.len() == input@.len(),
            forall|j: int|
                0 <= j < input@.len() ==> out@[j] as int == fir_outputs(
                    old(self).coeff_seq(),
                    old(self).hist(),
                    input@,
                )[j],
    {
        self.filter.process(input)
    }

    /// Filters the buffer in place.
    pub fn process_inplace(&mut self, buffer: &mut Vec<i64>)
        requires
            old(self).wf(),
            all_bounded(old(buffer)@, SAMPLE_LIMIT as int),
        ensures
            final(self).wf(),
            final(self).delay_spec() == old(self).delay_spec(),
            final(self).coeff_seq() == old(self).coeff_seq(),
            final(self).hist() == fir_hist_after(old(self).hist(), old(buffer)@),
            final(buffer)@.len() == old(buffer)@.len(),
            forall|j: int|
                0 <= j < old(buffer)@.len() ==> final(buffer)@[j] as int == fir_outputs(
                    old(self).coeff_seq(),
                    old(self).hist(),
                    old(buffer)@,
                )[j],
    {
        self.filter.process_inplace(buffer)
    }

    /// Clears the engine's history.
    pub fn reset(&mut self)
        requires
            old(self).wf(),
        ensures
            final(self).wf(),
            final(self).delay_spec() == old(self).delay_spec(),
            final(self).coeff_seq() == old(self).coeff_seq(),
            final(self).hist() == zero_hist(final(self).ring_len() as nat),
            final(self).ring_len() == old(self).ring_len(),
    {
        self.filter.reset()
    }
}

impl crate::filter::Filter for LinearInterpDelay {
    open spec fn filter_wf(&self) -> bool {
        self.wf()
    }

    fn process(&mut self, input: &Vec<i64>) -> (out: Vec<i64>) {
        LinearInterpDelay::process(self, input)
    }

    fn process_inplace(&mut self, buffer: &mut Vec<i64>) {
        LinearInterpDelay::process_inplace(self, buffer)
    }

    fn reset(&mut self) {
        LinearInterpDelay::reset(self)
    }
}

impl crate::filter::DelayFilter for LinearInterpDelay {
    fn delay(&self) -> i64 {
        LinearInterpDelay::delay(self)
    }
}

impl crate::filter::Filter for SincInterpDelay {
    open spec fn filter_wf(&self) -> bool {
        self.wf()
    }

    fn process(&mut self, input: &Vec<i64>) -> (out: Vec<i64>) {
        SincInterpDelay::process(self, input)
    }

    fn process_inplace(&mut self, buffer: &mut Vec<i64>) {
        SincInterpDelay::process_inplace(self, buffer)
    }

    fn reset(&mut self) {
        SincInterpDelay::reset(self)
    }
}

impl crate::filter::DelayFilter for SincInterpDelay {
    fn delay(&self) -> i64 {
        SincInterpDelay::delay(self)
    }
}

} // verus!
