//! The FIR convolution engine: a stateful single-channel filter that
//! convolves an input stream against fixed coefficients using a
//! power-of-two circular history buffer with bitmask wraparound.
//!
//! The contracts speak of the engine's *history*: the buffer contents in
//! chronological order, oldest sample first. Feeding one sample shifts
//! the history left and appends the sample; the output is the
//! coefficient-weighted sum over the most recent samples.

use vstd::prelude::*;
use crate::fixed::{SCALE, SAMPLE_LIMIT, COEFF_LIMIT, qmul, qmul_spec, lemma_qmul_bound, lemma_qmul_unit};
use crate::filter::design::{FirCoeffs, coeffs_wf};
use crate::utilities::{is_ring_len, next_power_of_two, lemma_mask_is_mod};

verus! {

/// The chronological reading of a circular buffer whose next write
/// position is `w`: index 0 is the oldest sample, the last index the
/// newest.
pub open spec fn rotate(buf: Seq<i64>, w: int) -> Seq<i64> {
    Seq::new(buf.len(), |j: int| buf[(w + j) % (buf.len() as int)])
}

/// One step of history: the oldest sample leaves, `x` enters as the
/// newest.
pub open spec fn shift_in(h: Seq<i64>, x: i64) -> Seq<i64> {
    h.drop_first().push(x)
}

/// The sum of the first `i` convolution terms over history `h`:
/// coefficient `b[k]` weights the sample `k` steps back from the newest.
pub open spec fn conv_out(b: Seq<i64>, h: Seq<i64>, i: nat) -> int
    decreases i,
{
    if i == 0 {
        0
    } else {
        conv_out(b, h, (i - 1) as nat) + qmul_spec(
            b[i - 1] as int,
            h[h.len() - i] as int,
        )
    }
}

/// The filter output for history `h`: the full convolution sum.
pub open spec fn fir_y(b: Seq<i64>, h: Seq<i64>) -> int {
    conv_out(b, h, b.len())
}

/// The history after feeding every sample of `xs` in order.
pub open spec fn fir_hist_after(h: Seq<i64>, xs: Seq<i64>) -> Seq<i64>
    decreases xs.len(),
{
    if xs.len() == 0 {
        h
    } else {
        fir_hist_after(shift_in(h, xs[0]), xs.drop_first())
    }
}

/// The output stream produced by feeding every sample of `xs` in order,
/// starting from history `h`.
pub open spec fn fir_outputs(b: Seq<i64>, h: Seq<i64>, xs: Seq<i64>) -> Seq<int>
    decreases xs.len(),
{
    if xs.len() == 0 {
        Seq::<int>::empty()
    } else {
        seq![fir_y(b, shift_in(h, xs[0]))] + fir_outputs(
            b,
            shift_in(h, xs[0]),
            xs.drop_first(),
        )
    }
}

/// Every sample of `s` has magnitude at most `limit`.
pub open spec fn all_bounded(s: Seq<i64>, limit: int) -> bool {
    forall|i: int| 0 <= i < s.len() ==> -limit <= #[trigger] s[i] <= limit
}

/// A history of given length holding only silence.
pub open spec fn zero_hist(len: nat) -> Seq<i64> {
    Seq::new(len, |j: int| 0i64)
}

pub proof fn lemma_fir_outputs_len(b: Seq<i64>, h: Seq<i64>, xs: Seq<i64>)
    ensures
        fir_outputs(b, h, xs).len() == xs.len(),
    decreases xs.len(),
{
    if xs.len() > 0 {
        lemma_fir_outputs_len(b, shift_in(h, xs[0]), xs.drop_first());
    }
}

/// Histories keep their length as samples are fed.
pub proof fn lemma_fir_hist_after_len(h: Seq<i64>, xs: Seq<i64>)
    requires
        h.len() >= 1,
    ensures
        fir_hist_after(h, xs).len() == h.len(),
    decreases xs.len(),
{
    if xs.len() > 0 {
        lemma_fir_hist_after_len(shift_in(h, xs[0]), xs.drop_first());
    }
}

/// Feeding one more sample extends the history fold by one shift.
pub proof fn lemma_fir_hist_after_snoc(h: Seq<i64>, xs: Seq<i64>, n: int)
    requires
        0 <= n < xs.len(),
    ensures
        fir_hist_after(h, xs.take(n + 1)) == shift_in(fir_hist_after(h, xs.take(n)), xs[n]),
    decreases n,
{
    if n == 0 {
        let e = Seq::<i64>::empty();
        assert(xs.take(0) =~= e);
        assert(fir_hist_after(h, xs.take(0)) == h);
        assert(xs.take(1).len() == 1);
        assert(xs.take(1)[0] == xs[0]);
        assert(xs.take(1).drop_first() =~= e);
        assert(fir_hist_after(h, xs.take(1)) == fir_hist_after(
            shift_in(h, xs.take(1)[0]),
            xs.take(1).drop_first(),
        ));
        assert(fir_hist_after(shift_in(h, xs[0]), e) == shift_in(h, xs[0]));
    } else {
        let h1 = shift_in(h, xs[0]);
        let ys = xs.drop_first();
        assert(xs.take(n + 1)[0] == xs[0]);
        assert(xs.take(n)[0] == xs[0]);
        assert(xs.take(n + 1).drop_first() =~= ys.take(n));
        assert(xs.take(n).drop_first() =~= ys.take(n - 1));
        assert(fir_hist_after(h, xs.take(n + 1)) == fir_hist_after(h1, ys.take(n)));
        assert(fir_hist_after(h, xs.take(n)) == fir_hist_after(h1, ys.take(n - 1)));
        lemma_fir_hist_after_snoc(h1, ys, n - 1);
        assert(ys[n - 1] == xs[n]);
    }
}

/// Feeding one more sample appends one output to the output fold.
pub proof fn lemma_fir_outputs_snoc(b: Seq<i64>, h: Seq<i64>, xs: Seq<i64>, n: int)
    requires
        0 <= n < xs.len(),
    ensures
        fir_outputs(b, h, xs.take(n + 1)) == fir_outputs(b, h, xs.take(n)).push(
            fir_y(b, shift_in(fir_hist_after(h, xs.take(n)), xs[n])),
        ),
    decreases n,
{
    if n == 0 {
        let e = Seq::<i64>::empty();
        assert(xs.take(0) =~= e);
        assert(fir_hist_after(h, xs.take(0)) == h);
        assert(fir_outputs(b, h, xs.take(0)) == Seq::<int>::empty());
        assert(xs.take(1).len() == 1);
        assert(xs.take(1)[0] == xs[0]);
        assert(xs.take(1).drop_first() =~= e);
        assert(fir_outputs(b, h, xs.take(1)) == seq![fir_y(b, shift_in(h, xs.take(1)[0]))]
            + fir_outputs(b, shift_in(h, xs.take(1)[0]), xs.take(1).drop_first()));
        assert(fir_outputs(b, shift_in(h, xs[0]), e) == Seq::<int>::empty());
        assert(seq![fir_y(b, shift_in(h, xs[0]))] + Seq::<int>::empty() =~= Seq::<
            int,
        >::empty().push(fir_y(b, shift_in(h, xs[0]))));
    } else {
        let h1 = shift_in(h, xs[0]);
        let ys = xs.drop_first();
        assert(xs.take(n + 1)[0] == xs[0]);
        assert(xs.take(n)[0] == xs[0]);
        assert(xs.take(n + 1).drop_first() =~= ys.take(n));
        assert(xs.take(n).drop_first() =~= ys.take(n - 1));
        lemma_fir_outputs_snoc(b, h1, ys, n - 1);
        assert(ys[n - 1] == xs[n]);
        assert(fir_hist_after(h, xs.take(n)) == fir_hist_after(h1, ys.take(n - 1)));
        assert(seq![fir_y(b, h1)] + fir_outputs(b, h1, ys.take(n)) =~= (seq![fir_y(b, h1)]
            + fir_outputs(b, h1, ys.take(n - 1))).push(
            fir_y(b, shift_in(fir_hist_after(h1, ys.take(n - 1)), ys[n - 1])),
        ));
    }
}

/// Writing `x` at position `w` and advancing the write position is, in
/// chronological reading, one history shift.
pub proof fn lemma_rotate_step(buf: Seq<i64>, w: int, x: i64)
    requires
        0 <= w < buf.len(),
    ensures
        rotate(buf.update(w, x), w + 1) =~= shift_in(rotate(buf, w), x),
{
    let len = buf.len() as int;
    let buf1 = buf.update(w, x);
    assert forall|j: int| 0 <= j < len implies rotate(buf1, w + 1)[j] == shift_in(
        rotate(buf, w),
        x,
    )[j] by {
        vstd::arithmetic::div_mod::lemma_mod_bound(w + 1 + j, len);
        if j < len - 1 {
            // Not the slot just written: (w + 1 + j) is never w modulo len here.
            assert((w + 1 + j) % len == (w + (j + 1)) % len);
            if (w + 1 + j) % len == w {
                let q = (w + 1 + j) / len;
                vstd::arithmetic::div_mod::lemma_fundamental_div_mod(w + 1 + j, len);
                assert(w + 1 + j == len * q + w);
                assert(1 + j == len * q) by (nonlinear_arith)
                    requires w + 1 + j == len * q + w,
                ;
                assert(len * 1 == len) by (nonlinear_arith);
                assert(len * 2 == len + len) by (nonlinear_arith);
                if q <= 0 {
                    assert(len * q <= 0) by (nonlinear_arith)
                        requires q <= 0, len > 0,
                    ;
                } else if q >= 2 {
                    assert(len * q >= len * 2) by (nonlinear_arith)
                        requires q >= 2, len > 0,
                    ;
                }
                assert(false);
            }
        } else {
            // The newest slot reads back the sample just written.
            let q = (w + len) / len;
            vstd::arithmetic::div_mod::lemma_fundamental_div_mod(w + len, len);
            vstd::arithmetic::div_mod::lemma_mod_bound(w + len, len);
            let r = (w + len) % len;
            assert(w + len == len * q + r);
            assert(r == w) by {
                assert(len * 1 == len) by (nonlinear_arith);
                assert(len * 2 == len + len) by (nonlinear_arith);
                if q <= 0 {
                    assert(len * q <= 0) by (nonlinear_arith)
                        requires q <= 0, len > 0,
                    ;
                } else if q >= 2 {
                    assert(len * q >= len + len) by (nonlinear_arith)
                        requires q >= 2, len > 0,
                    ;
                }
                assert(q == 1);
                assert(len * 1 == len) by (nonlinear_arith);
            }
        }
    }
}

/// Reducing the rotation offset modulo the length reads the same
/// history.
pub proof fn lemma_rotate_reduce(buf: Seq<i64>, w: int)
    requires
        buf.len() >= 1,
        w >= 0,
    ensures
        rotate(buf, w % (buf.len() as int)) =~= rotate(buf, w),
{
    let len = buf.len() as int;
    assert forall|j: int| 0 <= j < len implies rotate(buf, w % len)[j] == rotate(buf, w)[j] by {
        vstd::arithmetic::div_mod::lemma_add_mod_noop(w, j, len);
        vstd::arithmetic::div_mod::lemma_mod_twice(w, len);
        vstd::arithmetic::div_mod::lemma_mod_twice(j, len);
        vstd::arithmetic::div_mod::lemma_add_mod_noop(w % len, j, len);
        vstd::arithmetic::div_mod::lemma_mod_bound(j, len);
    }
}

/// A chronological reading of a bounded buffer is bounded.
pub proof fn lemma_rotate_bounded(buf: Seq<i64>, w: int, limit: int)
    requires
        buf.len() >= 1,
        all_bounded(buf, limit),
    ensures
        all_bounded(rotate(buf, w), limit),
{
    let len = buf.len() as int;
    assert forall|j: int| 0 <= j < len implies -limit <= #[trigger] rotate(buf, w)[j] <= limit by {
        vstd::arithmetic::div_mod::lemma_mod_bound(w + j, len);
    }
}

/// The convolution sum grows by at most one bounded term per
/// coefficient.
pub proof fn lemma_conv_out_bound(b: Seq<i64>, h: Seq<i64>, i: nat)
    requires
        i <= b.len(),
        coeffs_wf(b),
        all_bounded(h, SAMPLE_LIMIT as int),
        h.len() >= b.len(),
    ensures
        -(i as int) * 8_000_000_000_001 <= conv_out(b, h, i) <= (i as int) * 8_000_000_000_001,
    decreases i,
{
    if i > 0 {
        lemma_conv_out_bound(b, h, (i - 1) as nat);
        lemma_qmul_bound(
            b[i - 1] as int,
            h[h.len() - i] as int,
            COEFF_LIMIT as int,
            SAMPLE_LIMIT as int,
        );
    }
}

/// A single-channel FIR filter with fixed coefficients and a
/// power-of-two circular history buffer.
pub struct FirFilter {
    coeffs: FirCoeffs,
    buffer: Vec<i64>,
    buffer_index: usize,
}

impl FirFilter {
    /// The fixed coefficient sequence.
    pub closed spec fn coeff_seq(&self) -> Seq<i64> {
        self.coeffs.b@
    }

    /// The history buffer length.
    pub closed spec fn ring_len(&self) -> int {
        self.buffer@.len() as int
    }

    /// The stored history in chronological order, oldest first.
    pub closed spec fn hist(&self) -> Seq<i64> {
        rotate(self.buffer@, self.buffer_index as int)
    }

    /// Well-formedness: acceptable coefficients, a power-of-two buffer
    /// at least as long as the coefficient sequence, a write position
    /// inside it, and bounded stored samples.
    pub closed spec fn wf(&self) -> bool {
        &&& coeffs_wf(self.coeffs.b@)
        &&& is_ring_len(self.buffer@.len() as int)
        &&& 1 <= self.buffer@.len() <= 0x4000_0000
        &&& self.buffer@.len() >= self.coeffs.b@.len()
        &&& (self.buffer_index as int) < self.buffer@.len()
        &&& all_bounded(self.buffer@, SAMPLE_LIMIT as int)
    }

    /// Builds a filter from coefficients. The history buffer is sized
    /// to the smallest power of two that holds the coefficients, and
    /// starts silent.
    pub fn new(coeffs: FirCoeffs) -> (r: FirFilter)
        requires
            coeffs_wf(coeffs.b@),
        ensures
            r.wf(),
            r.coeff_seq() == coeffs.b@,
            r.hist() == zero_hist(r.ring_len() as nat),
            is_ring_len(r.ring_len()),
            r.ring_len() >= coeffs.b@.len(),
            r.ring_len() == 1 || r.ring_len() / 2 < coeffs.b@.len(),
    {
        let size = next_power_of_two(coeffs.b.len());
        let mut buffer: Vec<i64> = Vec::new();
        let mut i: usize = 0;
        while i < size
            invariant
                buffer@.len() == i,
                i <= size,
                forall|j: int| 0 <= j < i ==> buffer@[j] == 0i64,
            decreases size - i,
        {
            buffer.push(0);
            i = i + 1;
        }
        let r = FirFilter { coeffs, buffer, buffer_index: 0 };
        proof {
            assert forall|j: int| 0 <= j < r.buffer@.len() implies r.hist()[j] == 0i64 by {
                vstd::arithmetic::div_mod::lemma_small_mod(j as nat, r.buffer@.len());
            }
            assert(r.hist() =~= zero_hist(r.ring_len() as nat));
        }
        r
    }

    /// The length of the circular history buffer.
    pub fn buffer_len(&self) -> (r: usize)
        ensures
            r as int == self.ring_len(),
    {
        self.buffer.len()
    }

    /// Clears the history to silence without touching the coefficients
    /// or reallocating.
    pub fn reset(&mut self)
        requires
            old(self).wf(),
        ensures
            final(self).wf(),
            final(self).coeff_seq() == old(self).coeff_seq(),
            final(self).ring_len() == old(self).ring_len(),
            final(self).hist() == zero_hist(final(self).ring_len() as nat),
    {
        let len = self.buffer.len();
        let mut i: usize = 0;
        while i < len
            invariant
                self.buffer@.len() == len,
                i <= len,
                forall|j: int| 0 <= j < i ==> self.buffer@[j] == 0i64,
                self.coeffs.b@ == old(self).coeffs.b@,
                self.buffer_index == old(self).buffer_index,
            decreases len - i,
        {
            self.buffer.set(i, 0);
            i = i + 1;
        }
        self.buffer_index = 0;
        proof {
            assert forall|j: int| 0 <= j < self.buffer@.len() implies self.hist()[j] == 0i64 by {
                vstd::arithmetic::div_mod::lemma_small_mod(j as nat, self.buffer@.len());
            }
            assert(self.hist() =~= zero_hist(self.ring_len() as nat));
        }
    }

    /// Convolves the buffer against the coefficients in place: each
    /// sample is pushed into the history and replaced by the filter
    /// output for that step.
    pub fn process_inplace(&mut self, buffer: &mut Vec<i64>)
        requires
            old(self).wf(),
            all_bounded(old(buffer)@, SAMPLE_LIMIT as int),
        ensures
            final(self).wf(),
            final(self).coeff_seq() == old(self).coeff_seq(),
            final(self).ring_len() == old(self).ring_len(),
            final(self).hist() == fir_hist_after(old(self).hist(), old(buffer)@),
            final(buffer)@.len() == old(buffer)@.len(),
            forall|j: int|
                0 <= j < old(buffer)@.len() ==> final(buffer)@[j] as int == fir_outputs(
                    old(self).coeff_seq(),
                    old(self).hist(),
                    old(buffer)@,
                )[j],
    {
        let ghost b0 = self.coeffs.b@;
        let ghost h0 = self.hist();
        let ghost xs = buffer@;
        let num_taps = self.coeffs.b.len();
        let len = self.buffer.len();
        let buffer_mask = len - 1;
        let num_samples = buffer.len();
        proof {
            lemma_fir_outputs_len(b0, h0, xs);
        }
        let mut n: usize = 0;
        #[verifier::loop_isolation(false)]
        while n < num_samples
            invariant
                n <= num_samples,
                buffer@.len() == num_samples,
                forall|j: int| n <= j < num_samples ==> buffer@[j] == xs[j],
                forall|j: int|
                    0 <= j < n ==> buffer@[j] as int == fir_outputs(b0, h0, xs).take(n as int)[j],
                fir_outputs(b0, h0, xs).take(n as int) == fir_outputs(b0, h0, xs.take(n as int)),
                self.coeffs.b@ == b0,
                self.buffer@.len() == len,
                (self.buffer_index as int) < len as int,
                all_bounded(self.buffer@, SAMPLE_LIMIT as int),
                self.hist() == fir_hist_after(h0, xs.take(n as int)),
            decreases num_samples - n,
        {
            let ghost buf_prev = self.buffer@;
            let ghost w = self.buffer_index as int;
            let x = buffer[n];
            self.buffer.set(self.buffer_index, x);
            let ghost h_new = rotate(self.buffer@, w + 1);
            proof {
                lemma_rotate_step(buf_prev, w, x);
                assert(h_new == shift_in(fir_hist_after(h0, xs.take(n as int)), xs[n as int]));
                lemma_fir_hist_after_len(h0, xs.take(n as int));
                assert(h_new.len() == len as int);
                lemma_rotate_bounded(self.buffer@, w + 1, SAMPLE_LIMIT as int);
            }

            let mut acc: i64 = 0;
            let mut i: usize = 0;
            #[verifier::loop_isolation(false)]
            while i < num_taps
                invariant
                    i <= num_taps,
                    acc as int == conv_out(b0, h_new, i as nat),
                    self.buffer@ == buf_prev.update(w, x),
                    self.buffer_index as int == w,
                decreases num_taps - i,
            {
                proof {
                    lemma_conv_out_bound(b0, h_new, i as nat);
                    lemma_qmul_bound(
                        b0[i as int] as int,
                        h_new[len - 1 - i] as int,
                        COEFF_LIMIT as int,
                        SAMPLE_LIMIT as int,
                    );
                    lemma_mask_is_mod((self.buffer_index + (len - i)) as usize, len);
                    vstd::arithmetic::div_mod::lemma_mod_bound(w + (len - i) as int, len as int);
                    assert(h_new[len - 1 - i] == self.buffer@[(w + (len as int - i)) % (
                    len as int)]);
                }
                let idx = (self.buffer_index + (len - i)) & buffer_mask;
                let t = qmul(self.coeffs.b[i], self.buffer[idx]);
                proof {
                    lemma_conv_out_bound(b0, h_new, (i + 1) as nat);
                }
                acc = acc + t;
                i = i + 1;
            }
            proof {
                assert(acc as int == fir_y(b0, h_new));
                lemma_fir_outputs_snoc(b0, h0, xs, n as int);
                lemma_fir_hist_after_snoc(h0, xs, n as int);
            }
            buffer.set(n, acc);
            self.buffer_index = (self.buffer_index + 1) & buffer_mask;
            proof {
                lemma_mask_is_mod((w + 1) as usize, len);
                vstd::arithmetic::div_mod::lemma_mod_bound(w + 1, len as int);
                lemma_rotate_reduce(self.buffer@, w + 1);
                assert(self.hist() == h_new);
                assert(fir_outputs(b0, h0, xs).take(n + 1) == fir_outputs(
                    b0,
                    h0,
                    xs.take(n + 1),
                )) by {
                    lemma_fir_outputs_snoc(b0, h0, xs, n as int);
                    assert(fir_outputs(b0, h0, xs).take(n + 1) =~= fir_outputs(
                        b0,
                        h0,
                        xs,
                    ).take(n as int).push(fir_outputs(b0, h0, xs)[n as int]));
                    lemma_fir_outputs_at(b0, h0, xs, n as int);
                }
            }
            n = n + 1;
        }
        proof {
            assert(xs.take(num_samples as int) =~= xs);
            assert(fir_outputs(b0, h0, xs).take(num_samples as int) =~= fir_outputs(b0, h0, xs));
        }
    }

    /// Convolves a copy of the input, leaving the input untouched, and
    /// returns the output stream; the result is exactly what
    /// `process_inplace` would have produced in the caller's buffer.
    pub fn process(&mut self, input: &Vec<i64>) -> (out: Vec<i64>)
        requires
            old(self).wf(),
            all_bounded(input@, SAMPLE_LIMIT as int),
        ensures
            final(self).wf(),
            final(self).coeff_seq() == old(self).coeff_seq(),
            final(self).ring_len() == old(self).ring_len(),
            final(self).hist() == fir_hist_after(old(self).hist(), input@),
            out@.len() == input@.len(),
            forall|j: int|
                0 <= j < input@.len() ==> out@[j] as int == fir_outputs(
                    old(self).coeff_seq(),
                    old(self).hist(),
                    input@,
                )[j],
    {
        let mut output: Vec<i64> = Vec::new();
        let mut i: usize = 0;
        let n = input.len();
        while i < n
            invariant
                output@.len() == i,
                i <= n,
                n == input@.len(),
                forall|j: int| 0 <= j < i ==> output@[j] == input@[j],
            decreases n - i,
        {
            output.push(input[i]);
            i = i + 1;
        }
        assert(output@ =~= input@);
        self.process_inplace(&mut output);
        output
    }
}

impl crate::filter::Filter for FirFilter {
    open spec fn filter_wf(&self) -> bool {
        self.wf()
    }

    fn process(&mut self, input: &Vec<i64>) -> (out: Vec<i64>) {
        FirFilter::process(self, input)
    }

    fn process_inplace(&mut self, buffer: &mut Vec<i64>) {
        FirFilter::process_inplace(self, buffer)
    }

    fn reset(&mut self) {
        FirFilter::reset(self)
    }
}

/// The non-destructive and the in-place processing paths agree: any
/// two buffers that both carry the output stream for the same starting
/// history and input are the same buffer, so `process` returns exactly
/// what `process_inplace` leaves behind on a copy of the input.
pub proof fn lemma_process_agrees_with_inplace(o1: Seq<i64>, o2: Seq<i64>, outs: Seq<int>)
    requires
        o1.len() == outs.len(),
        o2.len() == outs.len(),
        forall|j: int| 0 <= j < outs.len() ==> o1[j] as int == outs[j],
        forall|j: int| 0 <= j < outs.len() ==> o2[j] as int == outs[j],
    ensures
        o1 == o2,
{
    assert(o1 =~= o2);
}

/// Convolving over a silent history yields zero.
pub proof fn lemma_conv_out_zero(b: Seq<i64>, len: nat, i: nat)
    requires
        i <= b.len(),
        b.len() <= len,
    ensures
        conv_out(b, zero_hist(len), i) == 0,
    decreases i,
{
    if i > 0 {
        lemma_conv_out_zero(b, len, (i - 1) as nat);
        lemma_qmul_unit(b[i - 1] as int);
    }
}

/// Silence in, silence out: from a silent history, an all-zero input
/// stream produces an all-zero output stream and leaves the history
/// silent. Together with `reset`, which makes the history silent, this
/// says that resetting erases all influence of prior samples.
pub proof fn lemma_silence_in_silence_out(b: Seq<i64>, len: nat, xs: Seq<i64>)
    requires
        b.len() <= len,
        1 <= len,
        forall|i: int| 0 <= i < xs.len() ==> xs[i] == 0i64,
    ensures
        fir_hist_after(zero_hist(len), xs) == zero_hist(len),
        fir_outputs(b, zero_hist(len), xs).len() == xs.len(),
        forall|i: int| 0 <= i < xs.len() ==> fir_outputs(b, zero_hist(len), xs)[i] == 0,
    decreases xs.len(),
{
    lemma_fir_outputs_len(b, zero_hist(len), xs);
    if xs.len() > 0 {
        assert(shift_in(zero_hist(len), 0i64) =~= zero_hist(len));
        lemma_silence_in_silence_out(b, len, xs.drop_first());
        lemma_conv_out_zero(b, len, b.len());
        assert(fir_y(b, zero_hist(len)) == 0);
        assert forall|i: int| 0 <= i < xs.len() implies fir_outputs(
            b,
            zero_hist(len),
            xs,
        )[i] == 0 by {
            if i > 0 {
                lemma_fir_outputs_len(b, zero_hist(len), xs.drop_first());
                assert(fir_outputs(b, zero_hist(len), xs)[i] == fir_outputs(
                    b,
                    zero_hist(len),
                    xs.drop_first(),
                )[i - 1]);
            }
        }
    }
}

/// A history holding one unit impulse, fed `n` steps ago (so sitting
/// `n - 1` places back from the newest slot).
pub open spec fn imp_hist(len: nat, n: int) -> Seq<i64> {
    Seq::new(
        len,
        |j: int|
            if j == len - n {
                SCALE
            } else {
                0i64
            },
    )
}

/// Feeding a unit impulse and then silence leaves the impulse walking
/// back through the history until it falls off the end.
pub proof fn lemma_imp_hist_after(len: nat, xs: Seq<i64>, n: int)
    requires
        1 <= len,
        1 <= xs.len(),
        xs[0] == SCALE,
        forall|i: int| 1 <= i < xs.len() ==> xs[i] == 0i64,
        0 <= n <= xs.len(),
    ensures
        fir_hist_after(zero_hist(len), xs.take(n)) == if 1 <= n <= len {
            imp_hist(len, n)
        } else {
            zero_hist(len)
        },
    decreases n,
{
    if n == 0 {
        assert(xs.take(0) =~= Seq::<i64>::empty());
    } else {
        lemma_imp_hist_after(len, xs, n - 1);
        lemma_fir_hist_after_snoc(zero_hist(len), xs, n - 1);
        if n == 1 {
            assert(shift_in(zero_hist(len), SCALE) =~= imp_hist(len, 1));
        } else if n <= len {
            assert(shift_in(imp_hist(len, n - 1), 0i64) =~= imp_hist(len, n));
        } else if n == len + 1 {
            assert(shift_in(imp_hist(len, len as int), 0i64) =~= zero_hist(len));
        } else {
            assert(shift_in(zero_hist(len), 0i64) =~= zero_hist(len));
        }
    }
}

/// Convolving a history that holds a single unit impulse picks out the
/// one coefficient standing over it.
pub proof fn lemma_conv_out_impulse(b: Seq<i64>, len: nat, n: int, i: nat)
    requires
        i <= b.len(),
        b.len() <= len,
        1 <= n <= len,
    ensures
        conv_out(b, imp_hist(len, n), i) == if n - 1 < i {
            b[n - 1] as int
        } else {
            0
        },
    decreases i,
{
    if i > 0 {
        lemma_conv_out_impulse(b, len, n, (i - 1) as nat);
        let h = imp_hist(len, n);
        lemma_qmul_unit(b[i - 1] as int);
        if h.len() - i == len - n {
            assert(h[h.len() - i] == SCALE);
        } else {
            assert(h[h.len() - i] == 0i64);
        }
    }
}

/// The impulse response: from a silent history, a unit impulse
/// followed by silence reads the coefficient sequence back out, one
/// tap per sample, and silence after the last tap.
pub proof fn lemma_impulse_response(b: Seq<i64>, len: nat, xs: Seq<i64>, n: int)
    requires
        b.len() <= len,
        1 <= len,
        1 <= xs.len(),
        xs[0] == SCALE,
        forall|i: int| 1 <= i < xs.len() ==> xs[i] == 0i64,
        0 <= n < xs.len(),
    ensures
        fir_outputs(b, zero_hist(len), xs)[n] == if n < b.len() {
            b[n] as int
        } else {
            0
        },
{
    lemma_fir_outputs_at(b, zero_hist(len), xs, n);
    lemma_imp_hist_after(len, xs, n);
    let h_n = fir_hist_after(zero_hist(len), xs.take(n));
    if n == 0 {
        assert(shift_in(zero_hist(len), SCALE) =~= imp_hist(len, 1));
        lemma_conv_out_impulse(b, len, 1, b.len());
    } else if n < len {
        assert(shift_in(imp_hist(len, n), 0i64) =~= imp_hist(len, n + 1));
        lemma_conv_out_impulse(b, len, n + 1, b.len());
    } else if n == len {
        assert(shift_in(imp_hist(len, len as int), 0i64) =~= zero_hist(len));
        lemma_conv_out_zero(b, len, b.len());
    } else {
        assert(shift_in(zero_hist(len), 0i64) =~= zero_hist(len));
        lemma_conv_out_zero(b, len, b.len());
    }
}

/// The output stream is causal: output `n` is the response to the first
/// `n + 1` samples.
pub proof fn lemma_fir_outputs_at(b: Seq<i64>, h: Seq<i64>, xs: Seq<i64>, n: int)
    requires
        0 <= n < xs.len(),
    ensures
        fir_outputs(b, h, xs)[n] == fir_y(b, shift_in(fir_hist_after(h, xs.take(n)), xs[n])),
    decreases n,
{
    if n == 0 {
        assert(xs.take(0) =~= Seq::<i64>::empty());
        assert(fir_outputs(b, h, xs)[0] == fir_y(b, shift_in(h, xs[0])));
    } else {
        let h1 = shift_in(h, xs[0]);
        let ys = xs.drop_first();
        lemma_fir_outputs_at(b, h1, ys, n - 1);
        assert(xs.take(n).drop_first() =~= ys.take(n - 1));
        assert(fir_hist_after(h, xs.take(n)) == fir_hist_after(h1, ys.take(n - 1)));
        assert(ys[n - 1] == xs[n]);
        lemma_fir_outputs_len(b, h1, ys);
        assert(fir_outputs(b, h, xs)[n] == fir_outputs(b, h1, ys)[n - 1]);
    }
}

} // verus!
