//! A dynamics compressor: an envelope-follower driven gain reduction
//! with asymmetric attack/release smoothing, optional stereo linking,
//! and makeup gain on the stereo path.

use vstd::prelude::*;
use crate::fixed::{SCALE, SAMPLE_LIMIT, abs_val, qmul, qmul_spec, lemma_qmul_bound, div_nn};
use crate::buffer_view::{BufferView, BufferViewMut};
use crate::math::{exp_neg, exp_neg_spec, level_db, level_db_spec, pow10_gain, pow10_gain_spec, LEVEL_FLOOR_Q};

verus! {

/// Threshold magnitudes are capped at one thousand decibels.
pub const THRESHOLD_LIMIT: i64 = 1_000_000_000;

/// Ratios run from just above unity to one thousand to one.
pub const RATIO_MIN: i64 = 1_000_001;

pub const RATIO_LIMIT: i64 = 1_000_000_000;

/// Attack and release times run from a microsecond to ten seconds, in
/// micro-milliseconds.
pub const TIME_MS_MIN: i64 = 1_000;

pub const TIME_MS_LIMIT: i64 = 10_000_000_000;

/// Makeup gain is capped at forty decibels of boost or cut.
pub const MAKEUP_LIMIT: i64 = 40_000_000;

/// Gain-reduction state never drops below this, in micro-decibels.
pub const GAIN_FLOOR: i64 = -1_300_000_000;

/// The smoothed gain-reduction state of the two channels, in
/// micro-decibels (the second is unused in mono).
pub struct CompState {
    pub left: int,
    pub right: int,
}

/// The parameters the per-sample step reads: threshold and ratio for
/// the target, the two smoothing coefficients, the stereo link amount
/// and the makeup gain.
pub struct CompParams {
    pub threshold: int,
    pub ratio: int,
    pub attack: int,
    pub release: int,
    pub linking: int,
    pub makeup: int,
}

/// A sample magnitude clamped to full scale.
pub open spec fn clamp_amp(x: int) -> int {
    let ax = abs_val(x);
    if ax > SCALE as int {
        SCALE as int
    } else {
        ax
    }
}

/// The reciprocal of the ratio in micro-units.
pub open spec fn inv_ratio_spec(ratio: int) -> int {
    (SCALE as int * SCALE as int) / ratio
}

/// The target gain reduction for one sample: zero at or below the
/// threshold, otherwise the amount above threshold scaled down by the
/// ratio's complement, which is strictly negative.
pub open spec fn target_gain_spec(threshold: int, ratio: int, x: int) -> int {
    let level = level_db_spec(clamp_amp(x));
    if level > threshold {
        qmul_spec(threshold - level, SCALE as int - inv_ratio_spec(ratio))
    } else {
        0
    }
}

/// One-pole smoothing of the gain: the attack coefficient pulls toward
/// a falling target, the release coefficient toward a rising one.
pub open spec fn smooth_gain_spec(p: CompParams, target: int, current: int) -> int {
    if target < current {
        target + qmul_spec(p.attack, current - target)
    } else {
        target + qmul_spec(p.release, current - target)
    }
}

/// The linked pair of stereo targets: the channel with the smaller
/// reduction is pulled toward the other by the link fraction.
pub open spec fn linked_targets(p: CompParams, tl: int, tr: int) -> (int, int) {
    if tl < tr {
        (tl, tr + qmul_spec(p.linking, tl - tr))
    } else {
        (tl + qmul_spec(p.linking, tr - tl), tr)
    }
}

/// The gain state after one sample.
pub open spec fn comp_step_state(st: CompState, p: CompParams, xs: Seq<i64>) -> CompState {
    if xs.len() == 1 {
        let tg = target_gain_spec(p.threshold, p.ratio, xs[0] as int);
        CompState { left: smooth_gain_spec(p, tg, st.left), right: st.right }
    } else {
        let tl0 = target_gain_spec(p.threshold, p.ratio, xs[0] as int);
        let tr0 = target_gain_spec(p.threshold, p.ratio, xs[1] as int);
        let linked = linked_targets(p, tl0, tr0);
        CompState {
            left: smooth_gain_spec(p, linked.0, st.left),
            right: smooth_gain_spec(p, linked.1, st.right),
        }
    }
}

/// The outputs for one sample: each channel scaled by its fresh
/// smoothed gain; the stereo path adds the makeup gain, the mono path
/// does not.
pub open spec fn comp_step_outs(st: CompState, p: CompParams, xs: Seq<i64>) -> Seq<int> {
    let st1 = comp_step_state(st, p, xs);
    if xs.len() == 1 {
        seq![qmul_spec(xs[0] as int, pow10_gain_spec(st1.left))]
    } else {
        seq![
            qmul_spec(xs[0] as int, pow10_gain_spec(st1.left + p.makeup)),
            qmul_spec(xs[1] as int, pow10_gain_spec(st1.right + p.makeup)),
        ]
    }
}

/// The input samples of every channel at one sample position.
pub open spec fn comp_xs_at(input: Seq<Seq<i64>>, n: int) -> Seq<i64> {
    Seq::new(input.len(), |c: int| input[c][n])
}

/// The gain state after the first `n` samples of a block.
pub open spec fn comp_state_at(
    st: CompState,
    p: CompParams,
    input: Seq<Seq<i64>>,
    n: nat,
) -> CompState
    decreases n,
{
    if n == 0 {
        st
    } else {
        comp_step_state(comp_state_at(st, p, input, (n - 1) as nat), p, comp_xs_at(input, n - 1))
    }
}

/// Channel `ch`'s output at sample `n` of a block.
pub open spec fn comp_out_at(
    st: CompState,
    p: CompParams,
    input: Seq<Seq<i64>>,
    ch: int,
    n: int,
) -> int {
    comp_step_outs(comp_state_at(st, p, input, n as nat), p, comp_xs_at(input, n))[ch]
}

/// The target gain is never positive, vanishes exactly at or below the
/// threshold, and is strictly negative strictly above it.
pub proof fn lemma_target_gain_sign(threshold: int, ratio: int, x: int)
    requires
        RATIO_MIN as int <= ratio <= RATIO_LIMIT as int,
        -THRESHOLD_LIMIT as int <= threshold <= THRESHOLD_LIMIT as int,
        LEVEL_FLOOR_Q as int <= level_db_spec(clamp_amp(x)) <= 0,
    ensures
        target_gain_spec(threshold, ratio, x) <= 0,
        level_db_spec(clamp_amp(x)) <= threshold <==> target_gain_spec(threshold, ratio, x) == 0,
        level_db_spec(clamp_amp(x)) > threshold ==> target_gain_spec(threshold, ratio, x) < 0,
        (GAIN_FLOOR as int) < target_gain_spec(threshold, ratio, x),
{
    let s = SCALE as int;
    let level = level_db_spec(clamp_amp(x));
    lemma_inv_ratio_range(ratio);
    let factor = s - inv_ratio_spec(ratio);
    if level > threshold {
        let diff = threshold - level;
        assert(diff <= -1);
        assert(diff * factor <= -1) by (nonlinear_arith)
            requires diff <= -1, factor >= 1,
        ;
        assert((diff * factor) / s <= -1) by {
            vstd::arithmetic::div_mod::lemma_fundamental_div_mod(diff * factor, s);
            vstd::arithmetic::div_mod::lemma_mod_bound(diff * factor, s);
            let q = (diff * factor) / s;
            if q >= 0 {
                assert(s * q + (diff * factor) % s >= 0) by (nonlinear_arith)
                    requires q >= 0, s > 0, (diff * factor) % s >= 0,
                ;
            }
        }
        lemma_qmul_bound(diff, factor, THRESHOLD_LIMIT as int - LEVEL_FLOOR_Q as int, s);
    }
}

/// Louder samples never get less reduction: the target gain is
/// anti-monotone in the sample's magnitude. In particular, every
/// sample no louder than one that sits at the threshold gets no
/// reduction at all.
pub proof fn lemma_target_gain_antimono(threshold: int, ratio: int, x: int, y: int)
    requires
        RATIO_MIN as int <= ratio <= RATIO_LIMIT as int,
        -THRESHOLD_LIMIT as int <= threshold <= THRESHOLD_LIMIT as int,
        0 <= abs_val(x) <= abs_val(y),
    ensures
        target_gain_spec(threshold, ratio, x) >= target_gain_spec(threshold, ratio, y),
{
    let s = SCALE as int;
    crate::math::lemma_level_db_mono(clamp_amp(x), clamp_amp(y));
    crate::math::lemma_level_db_bounds(clamp_amp(x));
    crate::math::lemma_level_db_bounds(clamp_amp(y));
    let lx = level_db_spec(clamp_amp(x));
    let ly = level_db_spec(clamp_amp(y));
    lemma_target_gain_sign(threshold, ratio, x);
    lemma_target_gain_sign(threshold, ratio, y);
    if lx > threshold && ly > threshold {
        lemma_inv_ratio_range(ratio);
        let factor = s - inv_ratio_spec(ratio);
        assert((threshold - lx) * factor >= (threshold - ly) * factor) by (nonlinear_arith)
            requires lx <= ly, factor >= 0,
        ;
        vstd::arithmetic::div_mod::lemma_div_is_ordered(
            (threshold - ly) * factor,
            (threshold - lx) * factor,
            s,
        );
    }
}

/// With a ratio above unity, the reciprocal leaves a positive factor.
pub proof fn lemma_inv_ratio_range(ratio: int)
    requires
        RATIO_MIN as int <= ratio <= RATIO_LIMIT as int,
    ensures
        1000 <= inv_ratio_spec(ratio) <= SCALE as int - 1,
{
    let s = SCALE as int;
    let ss = s * s;
    vstd::arithmetic::div_mod::lemma_div_is_ordered_by_denominator(ss, RATIO_MIN as int, ratio);
    vstd::arithmetic::div_mod::lemma_div_is_ordered_by_denominator(ss, ratio, RATIO_LIMIT as int);
    assert(ss == (RATIO_MIN as int) * 999_999 + 1) by (nonlinear_arith)
        requires ss == s * s, s == 1_000_000,
    ;
    vstd::arithmetic::div_mod::lemma_fundamental_div_mod_converse_div(
        ss,
        RATIO_MIN as int,
        999_999,
        1,
    );
    assert(ss == (RATIO_LIMIT as int) * 1000) by (nonlinear_arith)
        requires ss == s * s, s == 1_000_000,
    ;
    vstd::arithmetic::div_mod::lemma_fundamental_div_mod_converse_div(
        ss,
        RATIO_LIMIT as int,
        1000,
        0,
    );
}

/// Smoothing with a coefficient in `[0, 1]` never leaves the interval
/// spanned by the target and the current gain.
pub proof fn lemma_smooth_gain_range(p: CompParams, target: int, current: int)
    requires
        0 <= p.attack <= SCALE as int,
        0 <= p.release <= SCALE as int,
    ensures
        target < current ==> target <= smooth_gain_spec(p, target, current) <= current,
        target >= current ==> current <= smooth_gain_spec(p, target, current) <= target,
{
    let s = SCALE as int;
    let diff = current - target;
    assert(p.attack * diff == diff * p.attack) by (nonlinear_arith);
    assert(p.release * diff == diff * p.release) by (nonlinear_arith);
    if diff > 0 {
        assert(0 <= diff * p.attack <= diff * s) by (nonlinear_arith)
            requires 0 <= p.attack <= s, diff >= 0,
        ;
        vstd::arithmetic::div_mod::lemma_div_is_ordered(0, diff * p.attack, s);
        vstd::arithmetic::div_mod::lemma_div_is_ordered(diff * p.attack, diff * s, s);
        vstd::arithmetic::div_mod::lemma_div_multiples_vanish(diff, s);
        assert(diff * s == s * diff) by (nonlinear_arith);
    } else {
        assert(diff * s <= diff * p.release <= 0) by (nonlinear_arith)
            requires 0 <= p.release <= s, diff <= 0,
        ;
        vstd::arithmetic::div_mod::lemma_div_is_ordered(diff * p.release, 0, s);
        vstd::arithmetic::div_mod::lemma_div_is_ordered(diff * s, diff * p.release, s);
        vstd::arithmetic::div_mod::lemma_div_multiples_vanish(diff, s);
        assert(diff * s == s * diff) by (nonlinear_arith);
    }
}

/// An envelope-follower dynamics compressor for one or two channels.
pub struct Compressor {
    num_channels: usize,
    sample_rate: i64,
    block_size: usize,
    threshold: i64,
    ratio: i64,
    attack_ms: i64,
    release_ms: i64,
    linking: i64,
    makeup_gain: i64,
    attack_coeff: i64,
    release_coeff: i64,
    left_gain: i64,
    right_gain: i64,
}

impl Compressor {
    /// The smoothed gain-reduction state.
    pub closed spec fn st(&self) -> CompState {
        CompState { left: self.left_gain as int, right: self.right_gain as int }
    }

    /// The per-sample parameters currently in force.
    pub closed spec fn params(&self) -> CompParams {
        CompParams {
            threshold: self.threshold as int,
            ratio: self.ratio as int,
            attack: self.attack_coeff as int,
            release: self.release_coeff as int,
            linking: self.linking as int,
            makeup: self.makeup_gain as int,
        }
    }

    pub closed spec fn num_channels_spec(&self) -> int {
        self.num_channels as int
    }

    pub closed spec fn sample_rate_spec(&self) -> int {
        self.sample_rate as int
    }

    /// Whether `prepare` has been run; before that, processing is a
    /// no-op.
    pub closed spec fn prepared(&self) -> bool {
        self.sample_rate != 0
    }

    pub closed spec fn wf(&self) -> bool {
        &&& 1 <= self.num_channels <= 2
        &&& -THRESHOLD_LIMIT <= self.threshold <= THRESHOLD_LIMIT
        &&& RATIO_MIN <= self.ratio <= RATIO_LIMIT
        &&& TIME_MS_MIN <= self.attack_ms <= TIME_MS_LIMIT
        &&& TIME_MS_MIN <= self.release_ms <= TIME_MS_LIMIT
        &&& 0 <= self.linking <= SCALE
        &&& -MAKEUP_LIMIT <= self.makeup_gain <= MAKEUP_LIMIT
        &&& 0 <= self.attack_coeff <= SCALE
        &&& 0 <= self.release_coeff <= SCALE
        &&& GAIN_FLOOR <= self.left_gain <= 0
        &&& GAIN_FLOOR <= self.right_gain <= 0
        &&& self.sample_rate == 0 || 1_000_000 <= self.sample_rate <= 1_000_000_000_000
    }

    /// A compressor for the given channel count (one or two), with
    /// default parameters, unprepared.
    pub fn new(num_channels: usize) -> (r: Compressor)
        requires
            1 <= num_channels <= 2,
        ensures
            r.wf(),
            !r.prepared(),
            r.num_channels_spec() == num_channels,
            r.params().threshold == -12_000_000,
            r.params().ratio == 2_000_000,
            r.params().linking == SCALE,
            r.params().makeup == 0,
            r.st() == (CompState { left: 0, right: 0 }),
    {
        Compressor {
            num_channels,
            sample_rate: 0,
            block_size: 0,
            threshold: -12_000_000,
            ratio: 2_000_000,
            attack_ms: 5_000_000,
            release_ms: 50_000_000,
            linking: SCALE,
            makeup_gain: 0,
            attack_coeff: 0,
            release_coeff: 0,
            left_gain: 0,
            right_gain: 0,
        }
    }

    /// Everything except the two smoothing coefficients, the sample
    /// rate and block size is unchanged.
    pub open spec fn same_but_prepare(pre: &Compressor, post: &Compressor) -> bool {
        &&& post.st() == pre.st()
        &&& post.num_channels_spec() == pre.num_channels_spec()
        &&& post.params().threshold == pre.params().threshold
        &&& post.params().ratio == pre.params().ratio
        &&& post.params().linking == pre.params().linking
        &&& post.params().makeup == pre.params().makeup
    }

    /// Derives the attack and release coefficients from the sample
    /// rate (in micro-hertz).
    pub fn prepare(&mut self, sample_rate: i64, block_size: usize)
        requires
            old(self).wf(),
            1_000_000 <= sample_rate <= 1_000_000_000_000,
        ensures
            final(self).wf(),
            final(self).prepared(),
            final(self).sample_rate_spec() == sample_rate,
            Self::same_but_prepare(old(self), final(self)),
            final(self).params().attack == smoothing_coeff_spec(
                old(self).attack_ms_spec(),
                sample_rate as int / 1000,
            ),
            final(self).params().release == smoothing_coeff_spec(
                old(self).release_ms_spec(),
                sample_rate as int / 1000,
            ),
    {
        self.sample_rate = sample_rate;
        self.block_size = block_size;
        let spm = ((sample_rate as u64) / 1000) as i64;
        proof {
            lemma_qmul_bound(self.attack_ms as int, spm as int, TIME_MS_LIMIT as int, 1_000_000_000);
            lemma_qmul_bound(self.release_ms as int, spm as int, TIME_MS_LIMIT as int, 1_000_000_000);
            assert(self.attack_ms as int * spm as int >= 1_000_000) by (nonlinear_arith)
                requires self.attack_ms >= 1000, spm >= 1000,
            ;
            assert(self.release_ms as int * spm as int >= 1_000_000) by (nonlinear_arith)
                requires self.release_ms >= 1000, spm >= 1000,
            ;
            vstd::arithmetic::div_mod::lemma_div_is_ordered(
                1_000_000,
                self.attack_ms as int * spm as int,
                SCALE as int,
            );
            vstd::arithmetic::div_mod::lemma_div_is_ordered(
                1_000_000,
                self.release_ms as int * spm as int,
                SCALE as int,
            );
        }
        let attack_span = qmul(self.attack_ms, spm);
        self.attack_coeff = exp_neg(div_nn(1_000_000_000_000, attack_span as u64));
        let release_span = qmul(self.release_ms, spm);
        self.release_coeff = exp_neg(div_nn(1_000_000_000_000, release_span as u64));
    }

    /// The attack time in micro-milliseconds.
    pub closed spec fn attack_ms_spec(&self) -> int {
        self.attack_ms as int
    }

    /// The release time in micro-milliseconds.
    pub closed spec fn release_ms_spec(&self) -> int {
        self.release_ms as int
    }

    /// Clears the gain-reduction state.
    pub fn reset(&mut self)
        requires
            old(self).wf(),
        ensures
            final(self).wf(),
            final(self).st() == (CompState { left: 0, right: 0 }),
            final(self).params() == old(self).params(),
            final(self).prepared() == old(self).prepared(),
            final(self).num_channels_spec() == old(self).num_channels_spec(),
    {
        self.left_gain = 0;
        self.right_gain = 0;
    }

    pub fn set_threshold(&mut self, threshold: i64)
        requires
            old(self).wf(),
            -THRESHOLD_LIMIT <= threshold <= THRESHOLD_LIMIT,
        ensures
            final(self).wf(),
            final(self).params() == (CompParams {
                threshold: threshold as int,
                ..old(self).params()
            }),
            final(self).st() == old(self).st(),
            final(self).prepared() == old(self).prepared(),
            final(self).num_channels_spec() == old(self).num_channels_spec(),
    {
        self.threshold = threshold;
    }

    pub fn set_ratio(&mut self, ratio: i64)
        requires
            old(self).wf(),
            RATIO_MIN <= ratio <= RATIO_LIMIT,
        ensures
            final(self).wf(),
            final(self).params() == (CompParams { ratio: ratio as int, ..old(self).params() }),
            final(self).st() == old(self).st(),
            final(self).prepared() == old(self).prepared(),
            final(self).num_channels_spec() == old(self).num_channels_spec(),
    {
        self.ratio = ratio;
    }

    pub fn set_attack(&mut self, attack_ms: i64)
        requires
            old(self).wf(),
            TIME_MS_MIN <= attack_ms <= TIME_MS_LIMIT,
        ensures
            final(self).wf(),
            final(self).attack_ms_spec() == attack_ms,
            final(self).params() == old(self).params(),
            final(self).st() == old(self).st(),
            final(self).prepared() == old(self).prepared(),
            final(self).num_channels_spec() == old(self).num_channels_spec(),
    {
        self.attack_ms = attack_ms;
    }

    pub fn set_release(&mut self, release_ms: i64)
        requires
            old(self).wf(),
            TIME_MS_MIN <= release_ms <= TIME_MS_LIMIT,
        ensures
            final(self).wf(),
            final(self).release_ms_spec() == release_ms,
            final(self).params() == old(self).params(),
            final(self).st() == old(self).st(),
            final(self).prepared() == old(self).prepared(),
            final(self).num_channels_spec() == old(self).num_channels_spec(),
    {
        self.release_ms = release_ms;
    }

    pub fn set_linking(&mut self, linking: i64)
        requires
            old(self).wf(),
            0 <= linking <= SCALE,
        ensures
            final(self).wf(),
            final(self).params() == (CompParams { linking: linking as int, ..old(self).params() }),
            final(self).st() == old(self).st(),
            final(self).prepared() == old(self).prepared(),
            final(self).num_channels_spec() == old(self).num_channels_spec(),
    {
        self.linking = linking;
    }

    pub fn set_makeup_gain(&mut self, makeup_gain: i64)
        requires
            old(self).wf(),
            -MAKEUP_LIMIT <= makeup_gain <= MAKEUP_LIMIT,
        ensures
            final(self).wf(),
            final(self).params() == (CompParams {
                makeup: makeup_gain as int,
                ..old(self).params()
            }),
            final(self).st() == old(self).st(),
            final(self).prepared() == old(self).prepared(),
            final(self).num_channels_spec() == old(self).num_channels_spec(),
    {
        self.makeup_gain = makeup_gain;
    }

    /// The channel count fixed at construction.
    pub fn num_channels(&self) -> (r: usize)
        ensures
            r as int == self.num_channels_spec(),
    {
        self.num_channels
    }

    /// The target gain reduction for one sample: exactly zero for any
    /// sample whose measured level is at or below the threshold, and
    /// strictly negative for any sample whose measured level is above
    /// it.
    pub fn compute_target_gain(&self, x: i64) -> (r: i64)
        requires
            self.wf(),
            -SAMPLE_LIMIT <= x <= SAMPLE_LIMIT,
        ensures
            r as int == target_gain_spec(self.params().threshold, self.params().ratio, x as int),
            r <= 0,
            level_db_spec(clamp_amp(x as int)) <= self.params().threshold <==> r == 0,
            level_db_spec(clamp_amp(x as int)) > self.params().threshold ==> r < 0,
            GAIN_FLOOR < r,
    {
        let ax = if x >= 0 {
            x
        } else {
            -x
        };
        let ax = if ax > SCALE {
            SCALE
        } else {
            ax
        };
        let level = level_db(ax);
        proof {
            lemma_target_gain_sign(self.threshold as int, self.ratio as int, x as int);
            lemma_inv_ratio_range(self.ratio as int);
        }
        if level > self.threshold {
            let inv = (1_000_000_000_000u64 / (self.ratio as u64)) as i64;
            proof {
                lemma_qmul_bound(
                    (self.threshold - level) as int,
                    (SCALE - inv) as int,
                    THRESHOLD_LIMIT as int - LEVEL_FLOOR_Q as int,
                    SCALE as int,
                );
            }
            qmul(self.threshold - level, SCALE - inv)
        } else {
            0
        }
    }

    /// One-pole smoothing of the gain toward its target: the attack
    /// coefficient when the target is more negative than the current
    /// gain, the release coefficient otherwise.
    pub fn smooth_gain(&self, target_gain: i64, current_gain: i64) -> (r: i64)
        requires
            self.wf(),
            GAIN_FLOOR <= target_gain <= 0,
            GAIN_FLOOR <= current_gain <= 0,
        ensures
            r as int == smooth_gain_spec(self.params(), target_gain as int, current_gain as int),
            GAIN_FLOOR <= r <= 0,
    {
        proof {
            lemma_smooth_gain_range(self.params(), target_gain as int, current_gain as int);
            lemma_qmul_bound(
                self.attack_coeff as int,
                (current_gain - target_gain) as int,
                SCALE as int,
                -(GAIN_FLOOR as int),
            );
            lemma_qmul_bound(
                self.release_coeff as int,
                (current_gain - target_gain) as int,
                SCALE as int,
                -(GAIN_FLOOR as int),
            );
        }
        if target_gain < current_gain {
            target_gain + qmul(self.attack_coeff, current_gain - target_gain)
        } else {
            target_gain + qmul(self.release_coeff, current_gain - target_gain)
        }
    }
}

impl Default for Compressor {
    /// A mono compressor with the default parameter set.
    fn default() -> (r: Compressor)
        ensures
            r.wf(),
            !r.prepared(),
            r.num_channels_spec() == 1,
    {
        Compressor::new(1)
    }
}

impl Compressor {
    /// Compresses one block in place. Before `prepare` has been called
    /// this is a no-op. Afterwards each channel's samples are scaled by
    /// the envelope-followed gain; the mono path applies the reduction
    /// alone, the stereo path links the two channels' targets and adds
    /// the makeup gain.
    #[verifier::rlimit(60)]
    pub fn process_inplace(&mut self, buffer: &mut BufferViewMut)
        requires
            old(self).wf(),
            old(buffer).wf(),
            old(self).prepared() ==> old(buffer).chans().len() == old(self).num_channels_spec(),
            forall|c: int, j: int|
                0 <= c < old(buffer).chans().len() && 0 <= j < old(buffer).chans()[c].len()
                    ==> -SAMPLE_LIMIT <= #[trigger] old(buffer).chans()[c][j] <= SAMPLE_LIMIT,
        ensures
            final(self).wf(),
            final(buffer).wf(),
            final(self).params() == old(self).params(),
            final(self).prepared() == old(self).prepared(),
            final(self).num_channels_spec() == old(self).num_channels_spec(),
            final(self).sample_rate_spec() == old(self).sample_rate_spec(),
            final(buffer).chans().len() == old(buffer).chans().len(),
            final(buffer).samples_spec() == old(buffer).samples_spec(),
            forall|c: int|
                0 <= c < final(buffer).chans().len()
                    ==> (#[trigger] final(buffer).chans()[c]).len()
                    == old(buffer).chans()[c].len(),
            !old(self).prepared() ==> *final(self) == *old(self) && *final(buffer) == *old(
                buffer,
            ),
            old(self).prepared() ==> final(self).st() == comp_state_at(
                old(self).st(),
                old(self).params(),
                old(buffer).chans(),
                old(buffer).samples_spec() as nat,
            ),
            old(self).prepared() ==> forall|c: int, n: int|
                0 <= c < old(buffer).chans().len() && 0 <= n < old(buffer).samples_spec()
                    ==> #[trigger] final(buffer).chans()[c][n] as int == comp_out_at(
                    old(self).st(),
                    old(self).params(),
                    old(buffer).chans(),
                    c,
                    n,
                ),
    {
        if self.sample_rate == 0 {
            return;
        }
        let ghost st0 = self.st();
        let ghost p = self.params();
        let ghost input0 = buffer.chans();
        let num_channels = buffer.num_channels();
        let num_samples = buffer.num_samples();

        if num_channels == 1 {
            let mut n: usize = 0;
            #[verifier::loop_isolation(false)]
            while n < num_samples
                invariant
                    n <= num_samples,
                    self.num_channels == old(self).num_channels,
                    self.sample_rate == old(self).sample_rate,
                    self.block_size == old(self).block_size,
                    self.threshold == old(self).threshold,
                    self.ratio == old(self).ratio,
                    self.attack_ms == old(self).attack_ms,
                    self.release_ms == old(self).release_ms,
                    self.linking == old(self).linking,
                    self.makeup_gain == old(self).makeup_gain,
                    self.attack_coeff == old(self).attack_coeff,
                    self.release_coeff == old(self).release_coeff,
                    GAIN_FLOOR <= self.left_gain <= 0,
                    GAIN_FLOOR <= self.right_gain <= 0,
                    self.st() == comp_state_at(st0, p, input0, n as nat),
                    buffer.chans().len() == 1,
                    buffer.num_samples == num_samples,
                    buffer.chans()[0].len() == num_samples,
                    forall|j: int|
                        n <= j < num_samples ==> #[trigger] buffer.chans()[0][j] == input0[0][j],
                    forall|j: int|
                        0 <= j < n ==> #[trigger] buffer.chans()[0][j] as int == comp_out_at(
                            st0,
                            p,
                            input0,
                            0,
                            j,
                        ),
                decreases num_samples - n,
            {
                let ghost st_n = self.st();
                proof {
                    assert(buffer.chans()[0] == buffer.channels@[0]@);
                }
                let x = buffer.channels[0][n];
                let tg = self.compute_target_gain(x);
                let lg = self.smooth_gain(tg, self.left_gain);
                self.left_gain = lg;
                let factor = pow10_gain(lg);
                proof {
                    lemma_qmul_bound(x as int, factor as int, SAMPLE_LIMIT as int, 76_000_000_000);
                }
                let out = qmul(x, factor);
                let ghost chans_before = buffer.chans();
                let chan: &mut Vec<i64> = &mut buffer.channels[0];
                chan.set(n, out);
                proof {
                    assert(buffer.chans()[0] =~= chans_before[0].update(n as int, out));
                    let xs = comp_xs_at(input0, n as int);
                    assert(xs.len() == 1);
                    assert(xs[0] == input0[0][n as int]);
                    assert(self.st() == comp_step_state(st_n, p, xs));
                    assert(comp_state_at(st0, p, input0, (n + 1) as nat) == comp_step_state(
                        comp_state_at(st0, p, input0, n as nat),
                        p,
                        xs,
                    ));
                    assert(comp_step_outs(st_n, p, xs)[0] == qmul_spec(
                        xs[0] as int,
                        pow10_gain_spec(comp_step_state(st_n, p, xs).left),
                    ));
                }
                n = n + 1;
            }
        } else {
            let mut n: usize = 0;
            #[verifier::loop_isolation(false)]
            while n < num_samples
                invariant
                    n <= num_samples,
                    self.num_channels == old(self).num_channels,
                    self.sample_rate == old(self).sample_rate,
                    self.block_size == old(self).block_size,
                    self.threshold == old(self).threshold,
                    self.ratio == old(self).ratio,
                    self.attack_ms == old(self).attack_ms,
                    self.release_ms == old(self).release_ms,
                    self.linking == old(self).linking,
                    self.makeup_gain == old(self).makeup_gain,
                    self.attack_coeff == old(self).attack_coeff,
                    self.release_coeff == old(self).release_coeff,
                    GAIN_FLOOR <= self.left_gain <= 0,
                    GAIN_FLOOR <= self.right_gain <= 0,
                    self.st() == comp_state_at(st0, p, input0, n as nat),
                    buffer.chans().len() == 2,
                    buffer.num_samples == num_samples,
                    buffer.chans()[0].len() == num_samples,
                    buffer.chans()[1].len() == num_samples,
                    forall|c: int, j: int|
                        0 <= c < 2 && n <= j < num_samples ==> #[trigger] buffer.chans()[c][j]
                            == input0[c][j],
                    forall|c: int, j: int|
                        0 <= c < 2 && 0 <= j < n ==> #[trigger] buffer.chans()[c][j] as int
                            == comp_out_at(st0, p, input0, c, j),
                decreases num_samples - n,
            {
                let ghost st_n = self.st();
                proof {
                    assert(buffer.chans()[0] == buffer.channels@[0]@);
                    assert(buffer.chans()[1] == buffer.channels@[1]@);
                }
                let xl = buffer.channels[0][n];
                let xr = buffer.channels[1][n];
                let tl0 = self.compute_target_gain(xl);
                let tr0 = self.compute_target_gain(xr);
                proof {
                    lemma_linked_targets_range(p, tl0 as int, tr0 as int);
                    lemma_qmul_bound(
                        self.linking as int,
                        (tl0 - tr0) as int,
                        SCALE as int,
                        -(GAIN_FLOOR as int),
                    );
                    lemma_qmul_bound(
                        self.linking as int,
                        (tr0 - tl0) as int,
                        SCALE as int,
                        -(GAIN_FLOOR as int),
                    );
                }
                let tl: i64;
                let tr: i64;
                if tl0 < tr0 {
                    tl = tl0;
                    tr = tr0 + qmul(self.linking, tl0 - tr0);
                } else {
                    tl = tl0 + qmul(self.linking, tr0 - tl0);
                    tr = tr0;
                }
                let lg = self.smooth_gain(tl, self.left_gain);
                self.left_gain = lg;
                let rg = self.smooth_gain(tr, self.right_gain);
                self.right_gain = rg;
                let lfactor = pow10_gain(lg + self.makeup_gain);
                let rfactor = pow10_gain(rg + self.makeup_gain);
                proof {
                    lemma_qmul_bound(xl as int, lfactor as int, SAMPLE_LIMIT as int, 76_000_000_000);
                    lemma_qmul_bound(xr as int, rfactor as int, SAMPLE_LIMIT as int, 76_000_000_000);
                }
                let outl = qmul(xl, lfactor);
                let outr = qmul(xr, rfactor);
                let ghost chans_a = buffer.chans();
                let chan0: &mut Vec<i64> = &mut buffer.channels[0];
                chan0.set(n, outl);
                proof {
                    assert(buffer.chans()[0] =~= chans_a[0].update(n as int, outl));
                    assert(buffer.chans()[1] == chans_a[1]);
                }
                let ghost chans_b = buffer.chans();
                let chan1: &mut Vec<i64> = &mut buffer.channels[1];
                chan1.set(n, outr);
                proof {
                    assert(buffer.chans()[1] =~= chans_b[1].update(n as int, outr));
                    assert(buffer.chans()[0] == chans_b[0]);
                    let xs = comp_xs_at(input0, n as int);
                    assert(xs.len() == 2);
                    assert(xs[0] == input0[0][n as int]);
                    assert(xs[1] == input0[1][n as int]);
                    assert(linked_targets(p, tl0 as int, tr0 as int).0 == tl as int);
                    assert(linked_targets(p, tl0 as int, tr0 as int).1 == tr as int);
                    assert(self.st() == comp_step_state(st_n, p, xs));
                    assert(comp_state_at(st0, p, input0, (n + 1) as nat) == comp_step_state(
                        comp_state_at(st0, p, input0, n as nat),
                        p,
                        xs,
                    ));
                }
                n = n + 1;
            }
        }
    }

    /// Compresses a copy of the input and returns the output channels,
    /// leaving the input untouched; the result is exactly what
    /// `process_inplace` would have produced in the caller's buffer.
    pub fn process(&mut self, input: &BufferView) -> (out: Vec<Vec<i64>>)
        requires
            old(self).wf(),
            input.wf(),
            old(self).prepared() ==> input.chans().len() == old(self).num_channels_spec(),
            forall|c: int, j: int|
                0 <= c < input.chans().len() && 0 <= j < input.chans()[c].len()
                    ==> -SAMPLE_LIMIT <= #[trigger] input.chans()[c][j] <= SAMPLE_LIMIT,
        ensures
            final(self).wf(),
            final(self).params() == old(self).params(),
            final(self).prepared() == old(self).prepared(),
            final(self).num_channels_spec() == old(self).num_channels_spec(),
            out@.len() == input.chans().len(),
            forall|c: int|
                0 <= c < out@.len() ==> (#[trigger] out@[c]@).len() == input.chans()[c].len(),
            old(self).prepared() ==> final(self).st() == comp_state_at(
                old(self).st(),
                old(self).params(),
                input.chans(),
                input.samples_spec() as nat,
            ),
            old(self).prepared() ==> forall|c: int, n: int|
                0 <= c < input.chans().len() && 0 <= n < input.samples_spec()
                    ==> #[trigger] out@[c]@[n] as int == comp_out_at(
                    old(self).st(),
                    old(self).params(),
                    input.chans(),
                    c,
                    n,
                ),
    {
        let channels = input.to_vec();
        let ghost chans0 = input.chans();
        proof {
            assert forall|i: int|
                0 <= i < channels@.len() implies #[trigger] channels@[i]@.len()
                == channels@[0]@.len() by {
                assert(channels@.map_values(|c: Vec<i64>| c@)[i] == chans0[i]);
                assert(channels@.map_values(|c: Vec<i64>| c@)[0] == chans0[0]);
            }
        }
        let mut view = BufferViewMut::new(channels);
        proof {
            assert(view.chans() =~= chans0);
            if view.chans().len() > 0 {
                assert(view.chans()[0] == chans0[0]);
                assert(chans0[0].len() == input.samples_spec());
                assert(view.chans()[0].len() == view.samples_spec());
            }
            assert(view.samples_spec() == input.samples_spec());
        }
        self.process_inplace(&mut view);
        let ghost chans_after = view.chans();
        let BufferViewMut { channels: out, num_samples: _ } = view;
        proof {
            assert(out@.map_values(|c: Vec<i64>| c@) == chans_after);
            assert forall|c: int| 0 <= c < out@.len() implies #[trigger] out@[c]@
                == chans_after[c] by {
                assert(out@.map_values(|v: Vec<i64>| v@)[c] == out@[c]@);
            }
        }
        out
    }
}

/// The one-pole coefficient for a time constant in micro-milliseconds
/// at a samples-per-millisecond rate.
pub open spec fn smoothing_coeff_spec(time_ms: int, spm: int) -> int {
    exp_neg_spec((SCALE as int * SCALE as int) / qmul_spec(time_ms, spm))
}

/// Linked targets stay between the two unlinked ones.
pub proof fn lemma_linked_targets_range(p: CompParams, tl: int, tr: int)
    requires
        0 <= p.linking <= SCALE as int,
    ensures
        ({
            let lo = if tl < tr { tl } else { tr };
            let hi = if tl < tr { tr } else { tl };
            lo <= linked_targets(p, tl, tr).0 <= hi && lo <= linked_targets(p, tl, tr).1 <= hi
        }),
{
    let s = SCALE as int;
    assert(p.linking * (tl - tr) == (tl - tr) * p.linking) by (nonlinear_arith);
    assert(p.linking * (tr - tl) == (tr - tl) * p.linking) by (nonlinear_arith);
    if tl < tr {
        let diff = tl - tr;
        assert(diff * s <= diff * p.linking <= 0) by (nonlinear_arith)
            requires 0 <= p.linking <= s, diff < 0,
        ;
        vstd::arithmetic::div_mod::lemma_div_is_ordered(diff * p.linking, 0, s);
        vstd::arithmetic::div_mod::lemma_div_is_ordered(diff * s, diff * p.linking, s);
        vstd::arithmetic::div_mod::lemma_div_multiples_vanish(diff, s);
        assert(diff * s == s * diff) by (nonlinear_arith);
    } else {
        let diff = tr - tl;
        assert(diff * p.linking <= 0 || diff * p.linking >= 0);
        if diff <= 0 {
            assert(diff * s <= diff * p.linking <= 0) by (nonlinear_arith)
                requires 0 <= p.linking <= s, diff <= 0,
            ;
            vstd::arithmetic::div_mod::lemma_div_is_ordered(diff * p.linking, 0, s);
            vstd::arithmetic::div_mod::lemma_div_is_ordered(diff * s, diff * p.linking, s);
            vstd::arithmetic::div_mod::lemma_div_multiples_vanish(diff, s);
            assert(diff * s == s * diff) by (nonlinear_arith);
        }
    }
}


impl crate::effects::Effect for Compressor {
    open spec fn effect_wf(&self) -> bool {
        self.wf()
    }

    open spec fn effect_channels(&self) -> int {
        self.num_channels_spec()
    }

    open spec fn effect_prepared(&self) -> bool {
        self.prepared()
    }

    fn prepare(&mut self, sample_rate: i64, block_size: usize) {
        Compressor::prepare(self, sample_rate, block_size)
    }

    fn reset(&mut self) {
        Compressor::reset(self)
    }

    fn process(&mut self, input: &BufferView) -> (out: Vec<Vec<i64>>) {
        Compressor::process(self, input)
    }

    fn process_inplace(&mut self, buffer: &mut BufferViewMut) {
        Compressor::process_inplace(self, buffer)
    }
}

} // verus!
