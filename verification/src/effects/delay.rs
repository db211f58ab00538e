//! A feedback digital delay with runtime-variable delay time, block-rate
//! smoothing of the delay length, write-side linear interpolation, and
//! dry/wet mixing. One power-of-two ring buffer per channel, with a read
//! cursor and smoothed delay state shared across channels so stereo
//! channels stay time-aligned.

use vstd::prelude::*;
use crate::fixed::{SCALE, SAMPLE_LIMIT, qmul, qmul_spec, sat_add, sat_add_spec, lemma_qmul_bound, lemma_qmul_unit, div_nn};
use crate::buffer_view::{BufferView, BufferViewMut};
use crate::math::{exp_neg, exp_neg_spec};
use crate::utilities::{is_ring_len, next_power_of_two, lemma_mask_is_mod};

verus! {

/// The longest delay a ring buffer is sized for, in micro-milliseconds
/// (1000 ms).
pub const MAX_DELAY_TIME: i64 = 1_000_000_000;

/// The smoothing time constant for delay-time changes, in
/// micro-milliseconds (10 ms).
pub const DELAY_TIME_SMOOTHING: i64 = 10_000_000;

pub const DEFAULT_DELAY_TIME: i64 = 100_000_000;

pub const DEFAULT_FEEDBACK: i64 = 200_000;

pub const DEFAULT_DRY_GAIN: i64 = 1_000_000;

pub const DEFAULT_WET_GAIN: i64 = 250_000;

/// Largest delay time a caller may set, in micro-milliseconds (10 s).
pub const DELAY_TIME_LIMIT: i64 = 10_000_000_000;

/// Largest feedback amount (10.0); anything above 1.0 diverges anyway.
pub const FEEDBACK_LIMIT: i64 = 10_000_000;

/// Largest dry or wet gain (1000.0).
pub const GAIN_LIMIT: i64 = 1_000_000_000;

/// Smallest and largest sample rates, in micro-hertz (1 Hz to 1 MHz).
pub const SAMPLE_RATE_MIN: i64 = 1_000_000;

pub const SAMPLE_RATE_LIMIT: i64 = 1_000_000_000_000;

/// Largest delay length in micro-samples (10 s at 1 MHz).
pub const DELAY_SAMPLES_LIMIT: i64 = 10_000_000_000_000;

/// Ring-buffer samples saturate at this magnitude (one thousand times
/// the sample limit), so feedback can never overflow the ring.
pub const LINE_LIMIT: i64 = 1_000_000_000_000_000;

/// The mutable per-block state of the delay: ring contents, shared read
/// cursor, and the smoothed delay length in micro-samples.
pub struct DelayState {
    pub lines: Seq<Seq<i64>>,
    pub read: int,
    pub smoothed: int,
}

/// The parameters the per-sample step reads: target delay length,
/// smoothing factor, feedback, and the two mix gains.
pub struct DelayParams {
    pub target: int,
    pub factor: int,
    pub feedback: int,
    pub dry: int,
    pub wet: int,
}

/// One-pole smoothing: move from `smoothed` toward `target` by the
/// complement of `factor`.
pub open spec fn smooth_next(smoothed: int, target: int, factor: int) -> int {
    target + qmul_spec(smoothed - target, factor)
}

/// One channel's ring buffer after one sample: the slot under the read
/// cursor is zeroed after being read, then the feedback-summed input is
/// distributed over the two write targets in proportion to the
/// fractional delay, saturating at the ring magnitude limit.
pub open spec fn line_after_step(
    line: Seq<i64>,
    read: int,
    w1: int,
    w2: int,
    x: int,
    frac: int,
) -> Seq<i64> {
    let l1 = line.update(read, 0i64);
    let l2 = l1.update(
        w1,
        sat_add_spec(l1[w1] as int, qmul_spec(x, SCALE - frac), LINE_LIMIT as int) as i64,
    );
    l2.update(
        w2,
        sat_add_spec(l2[w2] as int, qmul_spec(x, frac), LINE_LIMIT as int) as i64,
    )
}

/// The input samples of every channel at one sample position.
pub open spec fn xs_at(input: Seq<Seq<i64>>, n: int) -> Seq<i64> {
    Seq::new(input.len(), |c: int| input[c][n])
}

/// The whole delay state after one sample: the smoothed delay length
/// advances one-pole toward the target, its integer and fractional
/// parts place the two write targets relative to the read cursor, every
/// channel's ring takes one step, and the shared cursor advances.
pub open spec fn delay_step_state(st: DelayState, p: DelayParams, xs: Seq<i64>) -> DelayState {
    let ll = st.lines[0].len() as int;
    let sm1 = smooth_next(st.smoothed, p.target, p.factor);
    let d_int = sm1 / (SCALE as int);
    let frac = sm1 % (SCALE as int);
    let w1 = (st.read + d_int) % ll;
    let w2 = (w1 + 1) % ll;
    DelayState {
        lines: Seq::new(
            st.lines.len(),
            |ch: int|
                line_after_step(
                    st.lines[ch],
                    st.read,
                    w1,
                    w2,
                    xs[ch] + qmul_spec(st.lines[ch][st.read] as int, p.feedback),
                    frac,
                ),
        ),
        read: (st.read + 1) % ll,
        smoothed: sm1,
    }
}

/// The output of every channel for one sample: the dry input plus the
/// wet sample read from the ring.
pub open spec fn delay_step_outs(st: DelayState, p: DelayParams, xs: Seq<i64>) -> Seq<int> {
    Seq::new(
        st.lines.len(),
        |ch: int|
            qmul_spec(p.dry, xs[ch] as int) + qmul_spec(p.wet, st.lines[ch][st.read] as int),
    )
}

/// The delay state after the first `n` samples of a block.
pub open spec fn delay_state_at(
    st: DelayState,
    p: DelayParams,
    input: Seq<Seq<i64>>,
    n: nat,
) -> DelayState
    decreases n,
{
    if n == 0 {
        st
    } else {
        delay_step_state(
            delay_state_at(st, p, input, (n - 1) as nat),
            p,
            xs_at(input, n - 1),
        )
    }
}

/// Channel `ch`'s output at sample `n` of a block.
pub open spec fn delay_out_at(
    st: DelayState,
    p: DelayParams,
    input: Seq<Seq<i64>>,
    ch: int,
    n: int,
) -> int {
    delay_step_outs(delay_state_at(st, p, input, n as nat), p, xs_at(input, n))[ch]
}

/// The one-pole smoothing factor derived from the samples-per-ms rate:
/// a decay with the smoothing time constant.
pub open spec fn smoothing_factor_spec(spm: int) -> int {
    exp_neg_spec(
        (SCALE as int * SCALE as int) / qmul_spec(DELAY_TIME_SMOOTHING as int, spm),
    )
}

/// The number of whole samples that cover the maximum supported delay
/// at the given samples-per-ms rate, rounded up.
pub open spec fn max_delay_samples_spec(spm: int) -> int {
    (qmul_spec(MAX_DELAY_TIME as int, spm) + SCALE as int - 1) / (SCALE as int)
}

/// Processing keeps the channel count.
pub proof fn lemma_delay_state_lines_len(
    st: DelayState,
    p: DelayParams,
    input: Seq<Seq<i64>>,
    n: nat,
)
    ensures
        delay_state_at(st, p, input, n).lines.len() == st.lines.len(),
    decreases n,
{
    if n > 0 {
        lemma_delay_state_lines_len(st, p, input, (n - 1) as nat);
    }
}

/// With unit dry gain and zero wet gain, the delay reproduces the
/// input exactly, whatever its internal state, parameters or history.
pub proof fn lemma_dry_only_identity(
    st: DelayState,
    p: DelayParams,
    input: Seq<Seq<i64>>,
    ch: int,
    n: int,
)
    requires
        p.dry == SCALE as int,
        p.wet == 0,
        0 <= ch < st.lines.len(),
        input.len() == st.lines.len(),
        0 <= n,
    ensures
        delay_out_at(st, p, input, ch, n) == input[ch][n],
{
    lemma_delay_state_lines_len(st, p, input, n as nat);
    let stn = delay_state_at(st, p, input, n as nat);
    let xs = xs_at(input, n);
    lemma_qmul_unit(xs[ch] as int);
    lemma_qmul_unit(stn.lines[ch][stn.read] as int);
    assert(delay_step_outs(stn, p, xs)[ch] == qmul_spec(SCALE as int, xs[ch] as int)
        + qmul_spec(0, stn.lines[ch][stn.read] as int));
    assert(xs[ch] == input[ch][n]);
}

/// Smoothing never leaves the interval spanned by the current value and
/// the target.
pub proof fn lemma_smooth_range(smoothed: int, target: int, factor: int)
    requires
        0 <= factor <= SCALE as int,
    ensures
        smoothed >= target ==> target <= smooth_next(smoothed, target, factor) <= smoothed,
        smoothed <= target ==> smoothed <= smooth_next(smoothed, target, factor) <= target,
{
    let s = SCALE as int;
    let diff = smoothed - target;
    if diff >= 0 {
        assert(0 <= diff * factor <= diff * s) by (nonlinear_arith)
            requires 0 <= factor <= s, diff >= 0,
        ;
        vstd::arithmetic::div_mod::lemma_div_is_ordered(0, diff * factor, s);
        vstd::arithmetic::div_mod::lemma_div_is_ordered(diff * factor, diff * s, s);
        vstd::arithmetic::div_mod::lemma_div_multiples_vanish(diff, s);
        assert(diff * s == s * diff) by (nonlinear_arith);
    } else {
        assert(diff * s <= diff * factor <= 0) by (nonlinear_arith)
            requires 0 <= factor <= s, diff < 0,
        ;
        vstd::arithmetic::div_mod::lemma_div_is_ordered(diff * factor, 0, s);
        vstd::arithmetic::div_mod::lemma_div_is_ordered(diff * s, diff * factor, s);
        vstd::arithmetic::div_mod::lemma_div_multiples_vanish(diff, s);
        assert(diff * s == s * diff) by (nonlinear_arith);
    }
}

/// A ring holding a single pending echo: `v` at slot `pos`, silence
/// elsewhere.
pub open spec fn echo_line(ll: int, pos: int, v: i64) -> Seq<i64> {
    Seq::new(
        ll as nat,
        |j: int|
            if j == pos {
                v
            } else {
                0i64
            },
    )
}

/// The amplitude of echo `k` (counted from one): the impulse scaled by
/// the feedback `k - 1` times.
pub open spec fn echo_amp(a: i64, fb: int, k: nat) -> int
    decreases k,
{
    if k <= 1 {
        a as int
    } else {
        qmul_spec(echo_amp(a, fb, (k - 1) as nat), fb)
    }
}

/// The pure-echo setting: wet-only mixing, a delay of a whole number
/// of samples shorter than the ring, and a settled smoothed delay.
pub open spec fn echo_setting(p: DelayParams, dd: int, ll: int) -> bool {
    &&& p.dry == 0
    &&& p.wet == SCALE as int
    &&& 0 <= p.feedback <= SCALE as int
    &&& 0 <= p.factor <= SCALE as int
    &&& p.target == dd * (SCALE as int)
    &&& 1 <= dd < ll
    &&& 2 <= ll
}

/// The starting state of the echo setting: a silent ring, the cursor
/// at zero, the smoothed delay on its target.
pub open spec fn echo_start(dd: int, ll: int) -> DelayState {
    DelayState {
        lines: seq![Seq::new(ll as nat, |j: int| 0i64)],
        read: 0,
        smoothed: dd * (SCALE as int),
    }
}

/// The state of the echo setting after `n` samples (`n` at least one):
/// echo `(n - 1) / dd + 1` is pending at the slot that many delays in,
/// everything else silent.
pub open spec fn echo_state(a: i64, p: DelayParams, dd: int, ll: int, n: int) -> DelayState {
    let k = (n - 1) / dd + 1;
    DelayState {
        lines: seq![
            echo_line(ll, (k * dd) % ll, echo_amp(a, p.feedback, k as nat) as i64),
        ],
        read: n % ll,
        smoothed: dd * (SCALE as int),
    }
}

/// Echo amplitudes decay: they stay between zero and the impulse.
pub proof fn lemma_echo_amp_range(a: i64, fb: int, k: nat)
    requires
        0 <= a,
        0 <= fb <= SCALE as int,
    ensures
        0 <= echo_amp(a, fb, k) <= a as int,
    decreases k,
{
    if k > 1 {
        lemma_echo_amp_range(a, fb, (k - 1) as nat);
        crate::fixed::lemma_qmul_shrink(echo_amp(a, fb, (k - 1) as nat), fb);
    }
}

/// Shifting within one ring turn moves the cursor to a new slot: the
/// shifted position coincides with the starting one exactly when the shift
/// is zero.
pub proof fn lemma_mod_window(n: int, d: int, m: int)
    requires
        0 <= n,
        0 <= d < m,
    ensures
        ((n + d) % m == n % m) <==> (d == 0),
        0 <= n % m < m,
        0 <= (n + d) % m < m,
{
    vstd::arithmetic::div_mod::lemma_mod_bound(n, m);
    vstd::arithmetic::div_mod::lemma_mod_bound(n + d, m);
    vstd::arithmetic::div_mod::lemma_add_mod_noop(n, d, m);
    vstd::arithmetic::div_mod::lemma_mod_twice(n, m);
    vstd::arithmetic::div_mod::lemma_small_mod(d as nat, m as nat);
    let u = n % m;
    if u + d < m {
        vstd::arithmetic::div_mod::lemma_small_mod((u + d) as nat, m as nat);
    } else {
        assert(u + d == 1 * m + (u + d - m)) by (nonlinear_arith);
        vstd::arithmetic::div_mod::lemma_fundamental_div_mod_converse_mod(
            u + d,
            m,
            1,
            u + d - m,
        );
    }
    assert((n + d) % m == (u + d % m) % m);
}

/// How the echo counter `(n - 1) / dd + 1` relates to the cursor: it
/// points between zero and one delay ahead, lands on the cursor
/// exactly at multiples of the delay, and advances there.
pub proof fn lemma_echo_counter(n: int, dd: int)
    requires
        1 <= n,
        1 <= dd,
    ensures
        ({
            let k = (n - 1) / dd + 1;
            let k1 = n / dd + 1;
            &&& 0 <= k * dd - n < dd
            &&& ((k * dd - n == 0) <==> (n % dd == 0))
            &&& (n % dd == 0 ==> k == n / dd && k1 == k + 1)
            &&& (n % dd != 0 ==> k1 == k)
        }),
{
    vstd::arithmetic::div_mod::lemma_fundamental_div_mod(n - 1, dd);
    vstd::arithmetic::div_mod::lemma_mod_bound(n - 1, dd);
    let q = (n - 1) / dd;
    let r = (n - 1) % dd;
    assert((q + 1) * dd - n == dd - r - 1) by (nonlinear_arith)
        requires n - 1 == dd * q + r,
    ;
    if r == dd - 1 {
        assert(n == (q + 1) * dd + 0) by (nonlinear_arith)
            requires n - 1 == dd * q + r, r == dd - 1,
        ;
        vstd::arithmetic::div_mod::lemma_fundamental_div_mod_converse_div(n, dd, q + 1, 0);
        vstd::arithmetic::div_mod::lemma_fundamental_div_mod_converse_mod(n, dd, q + 1, 0);
    } else {
        assert(n == q * dd + (r + 1)) by (nonlinear_arith)
            requires n - 1 == dd * q + r,
        ;
        vstd::arithmetic::div_mod::lemma_fundamental_div_mod_converse_div(n, dd, q, r + 1);
        vstd::arithmetic::div_mod::lemma_fundamental_div_mod_converse_mod(n, dd, q, r + 1);
    }
}

/// One step of the echo setting on a single-channel state with the
/// smoothed delay settled: the fractional part is zero and the write
/// targets sit one whole delay ahead of the cursor.
pub proof fn lemma_echo_step_shape(st: DelayState, p: DelayParams, xs: Seq<i64>, dd: int, ll: int)
    requires
        echo_setting(p, dd, ll),
        st.lines.len() == 1,
        st.lines[0].len() == ll,
        st.smoothed == dd * (SCALE as int),
    ensures
        delay_step_state(st, p, xs) == (DelayState {
            lines: seq![
                line_after_step(
                    st.lines[0],
                    st.read,
                    (st.read + dd) % ll,
                    ((st.read + dd) % ll + 1) % ll,
                    xs[0] + qmul_spec(st.lines[0][st.read] as int, p.feedback),
                    0,
                ),
            ],
            read: (st.read + 1) % ll,
            smoothed: dd * (SCALE as int),
        }),
{
    let s = SCALE as int;
    lemma_qmul_unit(p.factor);
    assert(qmul_spec(0, p.factor) == 0);
    assert(smooth_next(st.smoothed, p.target, p.factor) == dd * s);
    assert((dd * s) / s == dd) by {
        vstd::arithmetic::div_mod::lemma_div_multiples_vanish(dd, s);
        assert(dd * s == s * dd) by (nonlinear_arith);
    }
    assert((dd * s) % s == 0) by {
        assert(dd * s == dd * s + 0);
        vstd::arithmetic::div_mod::lemma_fundamental_div_mod_converse_mod(dd * s, s, dd, 0);
    }
    assert(delay_step_state(st, p, xs).lines =~= seq![
        line_after_step(
            st.lines[0],
            st.read,
            (st.read + dd) % ll,
            ((st.read + dd) % ll + 1) % ll,
            xs[0] + qmul_spec(st.lines[0][st.read] as int, p.feedback),
            0,
        ),
    ]);
}

/// A ring step that reads the pending echo: the echo leaves its slot
/// and its feedback-scaled remnant lands one whole delay ahead of the
/// cursor.
pub proof fn lemma_echo_line_hit(ll: int, read: int, w1: int, w2: int, v: i64, x: int)
    requires
        2 <= ll,
        0 <= read < ll,
        0 <= w1 < ll,
        0 <= w2 < ll,
        w1 != read,
        w2 != w1,
        0 <= v <= SAMPLE_LIMIT,
        0 <= x <= SAMPLE_LIMIT,
    ensures
        line_after_step(echo_line(ll, read, v), read, w1, w2, x, 0) =~= echo_line(
            ll,
            w1,
            x as i64,
        ),
{
    lemma_qmul_unit(x);
    let line = echo_line(ll, read, v);
    let l1 = line.update(read, 0i64);
    assert(l1 =~= echo_line(ll, -1, 0i64));
    assert(qmul_spec(x, SCALE as int - 0) == x);
    assert(sat_add_spec(0, x, LINE_LIMIT as int) == x);
    let l2 = l1.update(w1, x as i64);
    assert(l2 =~= echo_line(ll, w1, x as i64));
    assert(qmul_spec(x, 0) == 0) by {
        lemma_qmul_unit(x);
    }
    assert(sat_add_spec(l2[w2] as int, 0, LINE_LIMIT as int) == l2[w2] as int);
    assert(l2.update(w2, l2[w2]) =~= l2);
}

/// A ring step that reads silence leaves the ring unchanged.
pub proof fn lemma_echo_line_miss(ll: int, pos: int, read: int, w1: int, w2: int, v: i64, fb: int)
    requires
        2 <= ll,
        0 <= read < ll,
        0 <= w1 < ll,
        0 <= w2 < ll,
        pos != read,
        0 <= v <= SAMPLE_LIMIT,
        0 <= fb <= SCALE as int,
    ensures
        line_after_step(
            echo_line(ll, pos, v),
            read,
            w1,
            w2,
            0 + qmul_spec(echo_line(ll, pos, v)[read] as int, fb),
            0,
        ) =~= echo_line(ll, pos, v),
{
    let line = echo_line(ll, pos, v);
    assert(line[read] == 0i64);
    lemma_qmul_unit(fb);
    assert(qmul_spec(0, fb) == 0);
    let l1 = line.update(read, 0i64);
    assert(l1 =~= line);
    lemma_qmul_unit(0);
    assert(qmul_spec(0, SCALE as int - 0) == 0);
    assert(qmul_spec(0, 0) == 0);
    assert(sat_add_spec(l1[w1] as int, 0, LINE_LIMIT as int) == l1[w1] as int);
    let l2 = l1.update(w1, l1[w1]);
    assert(l2 =~= l1);
    assert(sat_add_spec(l2[w2] as int, 0, LINE_LIMIT as int) == l2[w2] as int);
    assert(l2.update(w2, l2[w2]) =~= l2);
}

/// After `n` samples of the echo setting the state is exactly one
/// pending echo, `(n - 1) / dd + 1` delays in.
pub proof fn lemma_echo_state_at(
    a: i64,
    p: DelayParams,
    dd: int,
    ll: int,
    input: Seq<Seq<i64>>,
    n: int,
)
    requires
        echo_setting(p, dd, ll),
        0 <= a <= SAMPLE_LIMIT,
        input.len() == 1,
        input[0].len() >= 1,
        input[0][0] == a,
        forall|i: int| 1 <= i < input[0].len() ==> input[0][i] == 0i64,
        1 <= n <= input[0].len(),
    ensures
        delay_state_at(echo_start(dd, ll), p, input, n as nat) == echo_state(a, p, dd, ll, n),
    decreases n,
{
    let s = SCALE as int;
    let st0 = echo_start(dd, ll);
    let xs = xs_at(input, n - 1);
    assert(xs.len() == 1);
    if n == 1 {
        assert(xs[0] == a);
        let prev = delay_state_at(st0, p, input, 0);
        assert(prev == st0);
        lemma_echo_step_shape(st0, p, xs, dd, ll);
        let w1 = (0 + dd) % ll;
        let w2 = (w1 + 1) % ll;
        lemma_mod_window(0, dd, ll);
        vstd::arithmetic::div_mod::lemma_small_mod(dd as nat, ll as nat);
        assert(w1 == dd);
        vstd::arithmetic::div_mod::lemma_mod_bound(w1 + 1, ll);
        lemma_mod_window(w1, 1, ll);
        lemma_qmul_unit(p.feedback);
        assert(st0.lines[0] =~= echo_line(ll, 0, 0i64));
        assert(st0.lines[0][0] == 0i64);
        assert(xs[0] + qmul_spec(st0.lines[0][0] as int, p.feedback) == a);
        lemma_echo_line_hit(ll, 0, w1, w2, 0i64, a as int);
        assert(line_after_step(st0.lines[0], 0, w1, w2, a as int, 0) =~= echo_line(
            ll,
            w1,
            a,
        )) by {
            assert(st0.lines[0] =~= echo_line(ll, 0, 0i64));
        }
        // Echo one sits one delay in.
        assert((0 - 1) / dd == -1) by {
            assert(-1 == dd * (-1) + (dd - 1)) by (nonlinear_arith);
            vstd::arithmetic::div_mod::lemma_fundamental_div_mod_converse_div(
                -1,
                dd,
                -1,
                dd - 1,
            );
        }
        assert((1 - 1) / dd + 1 == 1) by {
            assert(0 == 0 * dd + 0) by (nonlinear_arith);
            vstd::arithmetic::div_mod::lemma_fundamental_div_mod_converse_div(0, dd, 0, 0);
        }
        assert(1 * dd == dd) by (nonlinear_arith);
        vstd::arithmetic::div_mod::lemma_small_mod(1nat, ll as nat);
        assert(echo_amp(a, p.feedback, 1) == a as int);
        assert(delay_state_at(st0, p, input, 1).lines =~= echo_state(a, p, dd, ll, 1).lines);
        assert(delay_state_at(st0, p, input, 1) == echo_state(a, p, dd, ll, 1));
    } else {
        lemma_echo_state_at(a, p, dd, ll, input, n - 1);
        let st_prev = echo_state(a, p, dd, ll, n - 1);
        assert(delay_state_at(st0, p, input, (n - 1) as nat) == st_prev);
        assert(xs[0] == input[0][n - 1]);
        assert(xs[0] == 0i64);
        lemma_echo_step_shape(st_prev, p, xs, dd, ll);
        let m = n - 1;
        let k = (m - 1) / dd + 1;
        let pos = (k * dd) % ll;
        let amp = echo_amp(a, p.feedback, k as nat);
        lemma_echo_counter(m, dd);
        lemma_echo_amp_range(a, p.feedback, k as nat);
        let read = m % ll;
        vstd::arithmetic::div_mod::lemma_mod_bound(m, ll);
        let w1 = (read + dd) % ll;
        let w2 = (w1 + 1) % ll;
        vstd::arithmetic::div_mod::lemma_mod_bound(read + dd, ll);
        vstd::arithmetic::div_mod::lemma_mod_bound(w1 + 1, ll);
        vstd::arithmetic::div_mod::lemma_small_mod(read as nat, ll as nat);
        vstd::arithmetic::div_mod::lemma_small_mod(w1 as nat, ll as nat);
        lemma_mod_window(read, dd, ll);
        lemma_mod_window(w1, 1, ll);
        assert(w1 != read);
        assert(w2 != w1);
        // The pending echo's distance ahead of the cursor.
        let gap = k * dd - m;
        assert(0 <= gap < dd);
        lemma_mod_window(m, gap, ll);
        assert((m + gap) % ll == pos) by {
            lemma_mod_window(m, gap, ll);
            vstd::arithmetic::div_mod::lemma_add_mod_noop(m, gap, ll);
        }
        // The cursor after this step.
        lemma_mod_window(m, 1, ll);
        assert((read + 1) % ll == n % ll) by {
            vstd::arithmetic::div_mod::lemma_add_mod_noop(m, 1, ll);
            vstd::arithmetic::div_mod::lemma_mod_twice(m, ll);
            vstd::arithmetic::div_mod::lemma_small_mod(1nat, ll as nat);
        }
        if gap == 0 {
            // The echo is read now: the next echo is laid one delay on.
            assert(pos == read);
            assert(m % dd == 0);
            assert(k == m / dd);
            assert(st_prev.lines[0][read] as int == amp) by {
                assert(st_prev.lines[0] == echo_line(ll, pos, amp as i64));
            }
            let x = 0 + qmul_spec(amp, p.feedback);
            crate::fixed::lemma_qmul_shrink(amp, p.feedback);
            lemma_echo_line_hit(ll, read, w1, w2, amp as i64, x);
            let k1 = (n - 1) / dd + 1;
            assert(k1 == k + 1);
            assert(echo_amp(a, p.feedback, k1 as nat) == qmul_spec(
                echo_amp(a, p.feedback, k as nat),
                p.feedback,
            ));
            assert((k1 * dd) % ll == w1) by {
                assert(k1 * dd == m + dd) by (nonlinear_arith)
                    requires k1 == k + 1, k * dd == m,
                ;
                vstd::arithmetic::div_mod::lemma_add_mod_noop(m, dd, ll);
                vstd::arithmetic::div_mod::lemma_mod_twice(m, ll);
                vstd::arithmetic::div_mod::lemma_small_mod(dd as nat, ll as nat);
                vstd::arithmetic::div_mod::lemma_add_mod_noop(read, dd, ll);
                assert((m + dd) % ll == ((m % ll) + (dd % ll)) % ll);
                assert((read + dd) % ll == ((read % ll) + (dd % ll)) % ll);
            }
            assert(delay_state_at(st0, p, input, n as nat).lines =~= echo_state(
                a,
                p,
                dd,
                ll,
                n,
            ).lines);
            assert(delay_state_at(st0, p, input, n as nat) == echo_state(a, p, dd, ll, n));
        } else {
            // The echo stays pending; the ring is unchanged.
            assert(pos != read) by {
                assert((m + gap) % ll == pos);
            }
            lemma_echo_line_miss(ll, pos, read, w1, w2, amp as i64, p.feedback);
            let k1 = (n - 1) / dd + 1;
            assert(m % dd != 0);
            assert(k1 == k);
            assert(delay_state_at(st0, p, input, n as nat).lines =~= echo_state(
                a,
                p,
                dd,
                ll,
                n,
            ).lines);
            assert(delay_state_at(st0, p, input, n as nat) == echo_state(a, p, dd, ll, n));
        }
    }
}

/// An impulse through a wet-only delay of a whole number of samples
/// `dd` with feedback `f` comes back as silence except at multiples of
/// `dd`, where echo `k` arrives with the impulse's amplitude scaled by
/// `f` a total of `k - 1` times.
pub proof fn lemma_feedback_echoes(
    a: i64,
    p: DelayParams,
    dd: int,
    ll: int,
    input: Seq<Seq<i64>>,
    n: int,
)
    requires
        echo_setting(p, dd, ll),
        0 <= a <= SAMPLE_LIMIT,
        input.len() == 1,
        input[0].len() >= 1,
        input[0][0] == a,
        forall|i: int| 1 <= i < input[0].len() ==> input[0][i] == 0i64,
        0 <= n < input[0].len(),
    ensures
        delay_out_at(echo_start(dd, ll), p, input, 0, n) == if n >= 1 && n % dd == 0 {
            echo_amp(a, p.feedback, (n / dd) as nat)
        } else {
            0
        },
{
    let s = SCALE as int;
    let st0 = echo_start(dd, ll);
    let stn = delay_state_at(st0, p, input, n as nat);
    let xs = xs_at(input, n);
    assert(xs.len() == 1);
    if n == 0 {
        assert(stn == st0);
        lemma_qmul_unit(xs[0] as int);
        lemma_qmul_unit(st0.lines[0][0] as int);
        assert(st0.lines[0][0] == 0i64);
        assert(delay_step_outs(st0, p, xs)[0] == qmul_spec(0, xs[0] as int) + qmul_spec(
            s,
            st0.lines[0][0] as int,
        ));
    } else {
        lemma_echo_state_at(a, p, dd, ll, input, n);
        let k = (n - 1) / dd + 1;
        let pos = (k * dd) % ll;
        let amp = echo_amp(a, p.feedback, k as nat);
        lemma_echo_counter(n, dd);
        lemma_echo_amp_range(a, p.feedback, k as nat);
        let read = n % ll;
        vstd::arithmetic::div_mod::lemma_mod_bound(n, ll);
        let gap = k * dd - n;
        lemma_mod_window(n, gap, ll);
        vstd::arithmetic::div_mod::lemma_add_mod_noop(n, gap, ll);
        let y = stn.lines[0][read];
        lemma_qmul_unit(xs[0] as int);
        lemma_qmul_unit(y as int);
        assert(delay_step_outs(stn, p, xs)[0] == qmul_spec(0, xs[0] as int) + qmul_spec(
            s,
            y as int,
        ));
        if n % dd == 0 {
            assert(gap == 0);
            assert(pos == read);
            assert(y as int == amp);
            assert(k == n / dd);
        } else {
            assert(gap != 0);
            assert(pos != read);
            assert(y == 0i64);
        }
    }
}

/// A digital delay effect with feedback and dry/wet mixing, for one or
/// two channels.
pub struct DigitalDelay {
    sample_rate: i64,
    delay_time: i64,
    feedback: i64,
    dry_gain: i64,
    wet_gain: i64,
    sample_rate_per_ms: i64,
    delay_samples: i64,
    smoothing_factor: i64,
    smoothed_delay_samples: i64,
    delay_lines: Vec<Vec<i64>>,
    read_index: usize,
}

impl DigitalDelay {
    /// The per-block state: ring contents, read cursor, smoothed delay.
    pub closed spec fn st(&self) -> DelayState {
        DelayState {
            lines: self.delay_lines@.map_values(|c: Vec<i64>| c@),
            read: self.read_index as int,
            smoothed: self.smoothed_delay_samples as int,
        }
    }

    /// The per-sample parameters currently in force.
    pub closed spec fn params(&self) -> DelayParams {
        DelayParams {
            target: self.delay_samples as int,
            factor: self.smoothing_factor as int,
            feedback: self.feedback as int,
            dry: self.dry_gain as int,
            wet: self.wet_gain as int,
        }
    }

    pub closed spec fn num_channels_spec(&self) -> int {
        self.delay_lines@.len() as int
    }

    pub closed spec fn sample_rate_spec(&self) -> int {
        self.sample_rate as int
    }

    pub closed spec fn delay_time_spec(&self) -> int {
        self.delay_time as int
    }

    pub closed spec fn sample_rate_per_ms_spec(&self) -> int {
        self.sample_rate_per_ms as int
    }

    /// Whether `prepare` has been run; before that, processing is a
    /// no-op.
    pub closed spec fn prepared(&self) -> bool {
        self.sample_rate != 0
    }

    /// The shared ring length.
    pub closed spec fn ring_len(&self) -> int {
        if self.delay_lines@.len() == 0 {
            0
        } else {
            self.delay_lines@[0]@.len() as int
        }
    }

    pub closed spec fn wf(&self) -> bool {
        &&& 1 <= self.delay_lines@.len() <= 2
        &&& 0 <= self.feedback <= FEEDBACK_LIMIT
        &&& 0 <= self.dry_gain <= GAIN_LIMIT
        &&& 0 <= self.wet_gain <= GAIN_LIMIT
        &&& 1 <= self.delay_time <= DELAY_TIME_LIMIT
        &&& 0 <= self.sample_rate_per_ms <= 1_000_000_000
        &&& 0 <= self.delay_samples <= DELAY_SAMPLES_LIMIT
        &&& 0 <= self.smoothed_delay_samples <= DELAY_SAMPLES_LIMIT
        &&& 0 <= self.smoothing_factor <= SCALE
        &&& self.sample_rate == 0 || SAMPLE_RATE_MIN <= self.sample_rate <= SAMPLE_RATE_LIMIT
        &&& self.prepared() ==> {
            &&& is_ring_len(self.ring_len())
            &&& 1 <= self.ring_len() <= 0x4000_0000
            &&& (self.read_index as int) < self.ring_len()
            &&& forall|c: int|
                0 <= c < self.delay_lines@.len() ==> #[trigger] self.delay_lines@[c]@.len()
                    == self.ring_len()
            &&& forall|c: int, j: int|
                0 <= c < self.delay_lines@.len() && 0 <= j < self.ring_len()
                    ==> -LINE_LIMIT <= #[trigger] self.delay_lines@[c]@[j] <= LINE_LIMIT
        }
    }

    /// A delay for the given channel count (one or two), with default
    /// parameters, unprepared.
    pub fn new(num_channels: usize) -> (r: DigitalDelay)
        requires
            1 <= num_channels <= 2,
        ensures
            r.wf(),
            !r.prepared(),
            r.num_channels_spec() == num_channels,
            r.delay_time_spec() == DEFAULT_DELAY_TIME,
            r.params().feedback == DEFAULT_FEEDBACK,
            r.params().dry == DEFAULT_DRY_GAIN,
            r.params().wet == DEFAULT_WET_GAIN,
    {
        let mut delay_lines: Vec<Vec<i64>> = Vec::new();
        let mut c: usize = 0;
        while c < num_channels
            invariant
                delay_lines@.len() == c,
                c <= num_channels,
            decreases num_channels - c,
        {
            delay_lines.push(Vec::new());
            c = c + 1;
        }
        DigitalDelay {
            sample_rate: 0,
            delay_time: DEFAULT_DELAY_TIME,
            feedback: DEFAULT_FEEDBACK,
            dry_gain: DEFAULT_DRY_GAIN,
            wet_gain: DEFAULT_WET_GAIN,
            sample_rate_per_ms: 0,
            delay_samples: 0,
            smoothing_factor: 0,
            smoothed_delay_samples: 0,
            delay_lines,
            read_index: 0,
        }
    }

    /// Sets the delay time in micro-milliseconds and recomputes the
    /// target delay length from the current sample rate.
    pub fn set_delay_time(&mut self, delay: i64)
        requires
            old(self).wf(),
            1 <= delay <= DELAY_TIME_LIMIT,
        ensures
            final(self).wf(),
            final(self).delay_time_spec() == delay,
            final(self).params().target == qmul_spec(
                delay as int,
                old(self).sample_rate_per_ms_spec(),
            ),
            final(self).params().factor == old(self).params().factor,
            final(self).params().feedback == old(self).params().feedback,
            final(self).params().dry == old(self).params().dry,
            final(self).params().wet == old(self).params().wet,
            final(self).st() == old(self).st(),
            final(self).prepared() == old(self).prepared(),
            final(self).num_channels_spec() == old(self).num_channels_spec(),
            final(self).sample_rate_spec() == old(self).sample_rate_spec(),
            final(self).sample_rate_per_ms_spec() == old(self).sample_rate_per_ms_spec(),
    {
        proof {
            lemma_qmul_bound(
                delay as int,
                self.sample_rate_per_ms as int,
                DELAY_TIME_LIMIT as int,
                1_000_000_000,
            );
            vstd::arithmetic::div_mod::lemma_div_is_ordered(
                0,
                delay as int * self.sample_rate_per_ms as int,
                SCALE as int,
            );
            assert(delay as int * self.sample_rate_per_ms as int >= 0) by (nonlinear_arith)
                requires delay >= 0, self.sample_rate_per_ms >= 0,
            ;
        }
        self.delay_time = delay;
        self.delay_samples = qmul(delay, self.sample_rate_per_ms);
    }

    /// Everything except the parameter set is unchanged.
    pub open spec fn same_but_params(pre: &DigitalDelay, post: &DigitalDelay) -> bool {
        &&& post.st() == pre.st()
        &&& post.prepared() == pre.prepared()
        &&& post.num_channels_spec() == pre.num_channels_spec()
        &&& post.sample_rate_spec() == pre.sample_rate_spec()
        &&& post.sample_rate_per_ms_spec() == pre.sample_rate_per_ms_spec()
        &&& post.delay_time_spec() == pre.delay_time_spec()
        &&& post.ring_len() == pre.ring_len()
    }

    /// Sets the feedback amount (non-negative).
    pub fn set_feedback(&mut self, feedback: i64)
        requires
            old(self).wf(),
            0 <= feedback <= FEEDBACK_LIMIT,
        ensures
            final(self).wf(),
            Self::same_but_params(old(self), final(self)),
            final(self).params() == (DelayParams { feedback: feedback as int, ..old(self).params() }),
    {
        self.feedback = feedback;
    }

    /// Sets the dry gain (non-negative).
    pub fn set_dry_gain(&mut self, dry_gain: i64)
        requires
            old(self).wf(),
            0 <= dry_gain <= GAIN_LIMIT,
        ensures
            final(self).wf(),
            Self::same_but_params(old(self), final(self)),
            final(self).params() == (DelayParams { dry: dry_gain as int, ..old(self).params() }),
    {
        self.dry_gain = dry_gain;
    }

    /// Sets the wet gain (non-negative).
    pub fn set_wet_gain(&mut self, wet_gain: i64)
        requires
            old(self).wf(),
            0 <= wet_gain <= GAIN_LIMIT,
        ensures
            final(self).wf(),
            Self::same_but_params(old(self), final(self)),
            final(self).params() == (DelayParams { wet: wet_gain as int, ..old(self).params() }),
    {
        self.wet_gain = wet_gain;
    }

    /// Readies the delay for a sample rate (in micro-hertz): derives
    /// the samples-per-millisecond rate, the target delay length, and
    /// the smoothing factor, sizes each channel's ring to the next
    /// power of two covering the maximum supported delay, and clears
    /// all state. The block size plays no role in sizing.
    pub fn prepare(&mut self, sample_rate: i64, _block_size: usize)
        requires
            old(self).wf(),
            SAMPLE_RATE_MIN <= sample_rate <= SAMPLE_RATE_LIMIT,
        ensures
            final(self).wf(),
            final(self).prepared(),
            final(self).sample_rate_spec() == sample_rate,
            final(self).num_channels_spec() == old(self).num_channels_spec(),
            final(self).delay_time_spec() == old(self).delay_time_spec(),
            final(self).sample_rate_per_ms_spec() == sample_rate as int / 1000,
            final(self).params() == (DelayParams {
                target: qmul_spec(old(self).delay_time_spec(), sample_rate as int / 1000),
                factor: smoothing_factor_spec(sample_rate as int / 1000),
                feedback: old(self).params().feedback,
                dry: old(self).params().dry,
                wet: old(self).params().wet,
            }),
            final(self).st().smoothed == final(self).params().target,
            final(self).st().read == 0,
            final(self).st().lines.len() == old(self).num_channels_spec(),
            forall|c: int, j: int|
                0 <= c < final(self).st().lines.len() && 0 <= j < final(self).ring_len()
                    ==> final(self).st().lines[c][j] == 0i64,
            is_ring_len(final(self).ring_len()),
            final(self).ring_len() >= max_delay_samples_spec(sample_rate as int / 1000),
            final(self).ring_len() == 1 || final(self).ring_len() / 2 < max_delay_samples_spec(
                sample_rate as int / 1000,
            ),
    {
        self.sample_rate = sample_rate;
        let spm = ((sample_rate as u64) / 1000) as i64;
        self.sample_rate_per_ms = spm;
        proof {
            lemma_qmul_bound(
                self.delay_time as int,
                spm as int,
                DELAY_TIME_LIMIT as int,
                1_000_000_000,
            );
            assert(self.delay_time as int * spm as int >= 0) by (nonlinear_arith)
                requires self.delay_time >= 1, spm >= 0,
            ;
            vstd::arithmetic::div_mod::lemma_div_is_ordered(
                0,
                self.delay_time as int * spm as int,
                SCALE as int,
            );
            lemma_qmul_bound(DELAY_TIME_SMOOTHING as int, spm as int, DELAY_TIME_SMOOTHING as int, 1_000_000_000);
            assert(DELAY_TIME_SMOOTHING as int * spm as int >= 10_000_000_000) by (nonlinear_arith)
                requires spm >= 1000,
            ;
            vstd::arithmetic::div_mod::lemma_div_is_ordered(
                10_000_000_000,
                DELAY_TIME_SMOOTHING as int * spm as int,
                SCALE as int,
            );
            lemma_qmul_bound(MAX_DELAY_TIME as int, spm as int, MAX_DELAY_TIME as int, 1_000_000_000);
            assert(MAX_DELAY_TIME as int * spm as int >= 0) by (nonlinear_arith)
                requires spm >= 0,
            ;
            vstd::arithmetic::div_mod::lemma_div_is_ordered(
                0,
                MAX_DELAY_TIME as int * spm as int,
                SCALE as int,
            );
        }
        self.delay_samples = qmul(self.delay_time, spm);
        let smooth_span = qmul(DELAY_TIME_SMOOTHING, spm);
        let t = div_nn(1_000_000_000_000, smooth_span as u64);
        self.smoothing_factor = exp_neg(t);
        self.smoothed_delay_samples = self.delay_samples;

        let q = qmul(MAX_DELAY_TIME, spm);
        let max_delay_samples = (((q as u64) + (SCALE as u64) - 1) / (SCALE as u64)) as usize;
        proof {
            vstd::arithmetic::div_mod::lemma_div_is_ordered(
                q as int + SCALE as int - 1,
                1_000_000_000_000 + SCALE as int - 1,
                SCALE as int,
            );
        }
        let ring = next_power_of_two(max_delay_samples);
        let num_channels = self.delay_lines.len();
        let mut lines: Vec<Vec<i64>> = Vec::new();
        let mut c: usize = 0;
        while c < num_channels
            invariant
                lines@.len() == c,
                c <= num_channels,
                forall|i: int| 0 <= i < c ==> (#[trigger] lines@[i]@).len() == ring as int,
                forall|i: int, j: int|
                    0 <= i < c && 0 <= j < ring as int ==> lines@[i]@[j] == 0i64,
            decreases num_channels - c,
        {
            let mut line: Vec<i64> = Vec::new();
            let mut j: usize = 0;
            while j < ring
                invariant
                    line@.len() == j,
                    j <= ring,
                    forall|k: int| 0 <= k < j ==> line@[k] == 0i64,
                decreases ring - j,
            {
                line.push(0);
                j = j + 1;
            }
            lines.push(line);
            c = c + 1;
        }
        self.delay_lines = lines;
        self.read_index = 0;
    }

    /// Clears the rings to silence and snaps the smoothed delay length
    /// to its target, without reallocating.
    pub fn reset(&mut self)
        requires
            old(self).wf(),
        ensures
            final(self).wf(),
            Self::same_but_state(old(self), final(self)),
            final(self).st().read == 0,
            final(self).st().smoothed == old(self).params().target,
            final(self).st().lines.len() == old(self).st().lines.len(),
            forall|c: int|
                0 <= c < final(self).st().lines.len()
                    ==> (#[trigger] final(self).st().lines[c]).len()
                    == old(self).st().lines[c].len(),
            forall|c: int, j: int|
                0 <= c < final(self).st().lines.len()
                    && 0 <= j < final(self).st().lines[c].len()
                    ==> final(self).st().lines[c][j] == 0i64,
    {
        self.smoothed_delay_samples = self.delay_samples;
        let num_channels = self.delay_lines.len();
        let mut c: usize = 0;
        while c < num_channels
            invariant
                c <= num_channels,
                self.delay_lines@.len() == num_channels,
                forall|i: int|
                    0 <= i < num_channels ==> (#[trigger] self.delay_lines@[i]@).len() == old(
                        self,
                    ).delay_lines@[i]@.len(),
                forall|i: int, j: int|
                    0 <= i < c && 0 <= j < self.delay_lines@[i]@.len()
                        ==> self.delay_lines@[i]@[j] == 0i64,
                self.sample_rate == old(self).sample_rate,
                self.delay_time == old(self).delay_time,
                self.feedback == old(self).feedback,
                self.dry_gain == old(self).dry_gain,
                self.wet_gain == old(self).wet_gain,
                self.sample_rate_per_ms == old(self).sample_rate_per_ms,
                self.delay_samples == old(self).delay_samples,
                self.smoothing_factor == old(self).smoothing_factor,
                self.smoothed_delay_samples == old(self).delay_samples,
                self.read_index == old(self).read_index,
            decreases num_channels - c,
        {
            let line: &mut Vec<i64> = &mut self.delay_lines[c];
            let len = line.len();
            let mut j: usize = 0;
            while j < len
                invariant
                    j <= len,
                    line@.len() == len,
                    forall|k: int| 0 <= k < j ==> line@[k] == 0i64,
                decreases len - j,
            {
                line.set(j, 0);
                j = j + 1;
            }
            c = c + 1;
        }
        self.read_index = 0;
    }

    /// Processes one block in place. Before `prepare` has been called
    /// this is a no-op. Afterwards, every channel's samples are
    /// replaced by the delay's outputs for that block, and the rings,
    /// cursor and smoothed delay advance accordingly.
    pub fn process_inplace(&mut self, buffer: &mut BufferViewMut)
        requires
            old(self).wf(),
            old(buffer).wf(),
            old(self).prepared() ==> old(buffer).chans().len() == old(self).num_channels_spec(),
            forall|c: int, j: int|
                0 <= c < old(buffer).chans().len() && 0 <= j < old(buffer).chans()[c].len()
                    ==> -SAMPLE_LIMIT <= #[trigger] old(buffer).chans()[c][j] <= SAMPLE_LIMIT,
        ensures
            final(self).wf(),
            final(buffer).wf(),
            Self::same_but_state(old(self), final(self)),
            final(buffer).chans().len() == old(buffer).chans().len(),
            final(buffer).samples_spec() == old(buffer).samples_spec(),
            forall|c: int|
                0 <= c < final(buffer).chans().len()
                    ==> (#[trigger] final(buffer).chans()[c]).len()
                    == old(buffer).chans()[c].len(),
            !old(self).prepared() ==> *final(self) == *old(self) && *final(buffer) == *old(
                buffer,
            ),
            old(self).prepared() ==> final(self).st() == delay_state_at(
                old(self).st(),
                old(self).params(),
                old(buffer).chans(),
                old(buffer).samples_spec() as nat,
            ),
            old(self).prepared() ==> forall|c: int, n: int|
                0 <= c < old(buffer).chans().len() && 0 <= n < old(buffer).samples_spec()
                    ==> #[trigger] final(buffer).chans()[c][n] as int == delay_out_at(
                    old(self).st(),
                    old(self).params(),
                    old(buffer).chans(),
                    c,
                    n,
                ),
    {
        if self.sample_rate == 0 {
            return;
        }
        let ghost st0 = self.st();
        let ghost p = self.params();
        let ghost input0 = buffer.chans();
        let num_channels = buffer.num_channels();
        let num_samples = buffer.num_samples();
        let delay_line_len = self.delay_lines[0].len();
        let delay_line_mask = delay_line_len - 1;
        let feedback = self.feedback;
        let dry = self.dry_gain;
        let wet = self.wet_gain;
        let target = self.delay_samples;
        let factor = self.smoothing_factor;

        let mut n: usize = 0;
        #[verifier::loop_isolation(false)]
        while n < num_samples
            invariant
                n <= num_samples,
                self.sample_rate == old(self).sample_rate,
                self.delay_time == old(self).delay_time,
                self.feedback == old(self).feedback,
                self.dry_gain == old(self).dry_gain,
                self.wet_gain == old(self).wet_gain,
                self.sample_rate_per_ms == old(self).sample_rate_per_ms,
                self.delay_samples == old(self).delay_samples,
                self.smoothing_factor == old(self).smoothing_factor,
                0 <= self.smoothed_delay_samples <= DELAY_SAMPLES_LIMIT,
                self.delay_lines@.len() == num_channels,
                forall|c: int|
                    0 <= c < num_channels ==> (#[trigger] self.delay_lines@[c]@).len()
                        == delay_line_len,
                forall|c: int, j: int|
                    0 <= c < num_channels && 0 <= j < delay_line_len
                        ==> -LINE_LIMIT <= #[trigger] self.delay_lines@[c]@[j] <= LINE_LIMIT,
                (self.read_index as int) < delay_line_len as int,
                self.st() == delay_state_at(st0, p, input0, n as nat),
                buffer.chans().len() == num_channels,
                buffer.num_samples == num_samples,
                forall|c: int|
                    0 <= c < num_channels ==> (#[trigger] buffer.chans()[c]).len()
                        == num_samples,
                forall|c: int, j: int|
                    0 <= c < num_channels && n <= j < num_samples
                        ==> #[trigger] buffer.chans()[c][j] == input0[c][j],
                forall|c: int, j: int|
                    0 <= c < num_channels && 0 <= j < n
                        ==> #[trigger] buffer.chans()[c][j] as int == delay_out_at(
                        st0,
                        p,
                        input0,
                        c,
                        j,
                    ),
            decreases num_samples - n,
        {
            let ghost st_n = self.st();
            let read = self.read_index;

            // Smooth the delay length one-pole toward the target.
            let diff = self.smoothed_delay_samples - target;
            proof {
                lemma_qmul_bound(
                    diff as int,
                    factor as int,
                    DELAY_SAMPLES_LIMIT as int,
                    SCALE as int,
                );
                lemma_smooth_range(self.smoothed_delay_samples as int, target as int, factor as int);
            }
            let sm1 = target + qmul(diff, factor);
            self.smoothed_delay_samples = sm1;
            let d_int = div_nn(sm1, 1_000_000);
            proof {
                vstd::arithmetic::div_mod::lemma_fundamental_div_mod(sm1 as int, SCALE as int);
                vstd::arithmetic::div_mod::lemma_mod_bound(sm1 as int, SCALE as int);
            }
            let frac = sm1 - d_int * SCALE;
            assert(frac as int == sm1 as int % (SCALE as int));
            let w1 = (read + (d_int as usize)) & delay_line_mask;
            proof {
                lemma_mask_is_mod((read + (d_int as usize)) as usize, delay_line_len);
                vstd::arithmetic::div_mod::lemma_mod_bound(
                    read as int + d_int as int,
                    delay_line_len as int,
                );
            }
            let w2 = (w1 + 1) & delay_line_mask;
            proof {
                lemma_mask_is_mod((w1 + 1) as usize, delay_line_len);
                vstd::arithmetic::div_mod::lemma_mod_bound(
                    w1 as int + 1,
                    delay_line_len as int,
                );
            }

            let mut ch: usize = 0;
            #[verifier::loop_isolation(false)]
            while ch < num_channels
                invariant
                    ch <= num_channels,
                    self.sample_rate == old(self).sample_rate,
                    self.delay_time == old(self).delay_time,
                    self.feedback == old(self).feedback,
                    self.dry_gain == old(self).dry_gain,
                    self.wet_gain == old(self).wet_gain,
                    self.sample_rate_per_ms == old(self).sample_rate_per_ms,
                    self.delay_samples == old(self).delay_samples,
                    self.smoothing_factor == old(self).smoothing_factor,
                    self.delay_lines@.len() == num_channels,
                    self.read_index == read,
                    self.smoothed_delay_samples == sm1,
                    forall|c: int|
                        0 <= c < num_channels ==> (#[trigger] self.delay_lines@[c]@).len()
                            == delay_line_len,
                    forall|c: int, j: int|
                        0 <= c < num_channels && 0 <= j < delay_line_len
                            ==> -LINE_LIMIT <= #[trigger] self.delay_lines@[c]@[j]
                            <= LINE_LIMIT,
                    forall|c: int|
                        ch <= c < num_channels ==> #[trigger] self.delay_lines@[c]@
                            == st_n.lines[c],
                    forall|c: int|
                        0 <= c < ch ==> #[trigger] self.delay_lines@[c]@ == line_after_step(
                            st_n.lines[c],
                            read as int,
                            w1 as int,
                            w2 as int,
                            input0[c][n as int] + qmul_spec(
                                st_n.lines[c][read as int] as int,
                                feedback as int,
                            ),
                            frac as int,
                        ),
                    buffer.chans().len() == num_channels,
                    buffer.num_samples == num_samples,
                    forall|c: int|
                        0 <= c < num_channels ==> (#[trigger] buffer.chans()[c]).len()
                            == num_samples,
                    forall|c: int, j: int|
                        0 <= c < num_channels && n < j < num_samples
                            ==> #[trigger] buffer.chans()[c][j] == input0[c][j],
                    forall|c: int|
                        ch <= c < num_channels ==> #[trigger] buffer.chans()[c][n as int]
                            == input0[c][n as int],
                    forall|c: int, j: int|
                        0 <= c < num_channels && 0 <= j < n
                            ==> #[trigger] buffer.chans()[c][j] as int == delay_out_at(
                            st0,
                            p,
                            input0,
                            c,
                            j,
                        ),
                    forall|c: int|
                        0 <= c < ch ==> #[trigger] buffer.chans()[c][n as int] as int
                            == qmul_spec(dry as int, input0[c][n as int] as int) + qmul_spec(
                            wet as int,
                            st_n.lines[c][read as int] as int,
                        ),
                decreases num_channels - ch,
            {
                proof {
                    assert(buffer.chans()[ch as int] == buffer.channels@[ch as int]@);
                }
                let input_sample = buffer.channels[ch][n];
                assert(input_sample == input0[ch as int][n as int]);
                assert(-SAMPLE_LIMIT <= input_sample <= SAMPLE_LIMIT);

                let line: &mut Vec<i64> = &mut self.delay_lines[ch];
                let y = line[read];
                line.set(read, 0);
                proof {
                    lemma_qmul_bound(
                        y as int,
                        feedback as int,
                        LINE_LIMIT as int,
                        FEEDBACK_LIMIT as int,
                    );
                }
                let x = input_sample + qmul(y, feedback);
                proof {
                    lemma_qmul_bound(
                        x as int,
                        (SCALE - frac) as int,
                        11_000_000_000_000_001,
                        SCALE as int,
                    );
                    lemma_qmul_bound(x as int, frac as int, 11_000_000_000_000_001, SCALE as int);
                }
                let t1 = qmul(x, SCALE - frac);
                let v1 = sat_add(line[w1], t1, LINE_LIMIT);
                line.set(w1, v1);
                let t2 = qmul(x, frac);
                let v2 = sat_add(line[w2], t2, LINE_LIMIT);
                line.set(w2, v2);
                proof {
                    assert(self.delay_lines@[ch as int]@ == line_after_step(
                        st_n.lines[ch as int],
                        read as int,
                        w1 as int,
                        w2 as int,
                        x as int,
                        frac as int,
                    ));
                }

                proof {
                    lemma_qmul_bound(
                        dry as int,
                        input_sample as int,
                        GAIN_LIMIT as int,
                        SAMPLE_LIMIT as int,
                    );
                    lemma_qmul_bound(wet as int, y as int, GAIN_LIMIT as int, LINE_LIMIT as int);
                }
                let out = qmul(dry, input_sample) + qmul(wet, y);
                let ghost chans_before = buffer.chans();
                let chan: &mut Vec<i64> = &mut buffer.channels[ch];
                chan.set(n, out);
                proof {
                    assert(buffer.chans()[ch as int] =~= chans_before[ch as int].update(
                        n as int,
                        out,
                    ));
                    assert forall|c: int|
                        0 <= c < num_channels && c != ch as int implies #[trigger] buffer.chans()[c]
                        == chans_before[c] by {
                        assert(buffer.channels@[c]@ == chans_before[c]);
                    }
                }
                ch = ch + 1;
            }

            self.read_index = (read + 1) & delay_line_mask;
            proof {
                lemma_mask_is_mod((read + 1) as usize, delay_line_len);
                vstd::arithmetic::div_mod::lemma_mod_bound(read as int + 1, delay_line_len as int);
                let xs = xs_at(input0, n as int);
                assert(xs.len() == num_channels);
                assert forall|c: int| 0 <= c < num_channels implies self.delay_lines@.map_values(
                    |v: Vec<i64>| v@,
                )[c] == delay_step_state(st_n, p, xs).lines[c] by {
                    assert(xs[c] == input0[c][n as int]);
                    assert(st_n.lines[0].len() == delay_line_len as int);
                }
                assert(self.st().lines =~= delay_step_state(st_n, p, xs).lines);
                assert(self.st() == delay_step_state(st_n, p, xs));
                assert(delay_state_at(st0, p, input0, (n + 1) as nat) == delay_step_state(
                    delay_state_at(st0, p, input0, n as nat),
                    p,
                    xs_at(input0, n as int),
                ));
                assert forall|c: int| 0 <= c < num_channels implies buffer.chans()[c][n as int]
                    as int == delay_out_at(st0, p, input0, c, n as int) by {
                    assert(delay_step_outs(st_n, p, xs)[c] == qmul_spec(
                        p.dry,
                        xs[c] as int,
                    ) + qmul_spec(p.wet, st_n.lines[c][st_n.read] as int));
                }
            }
            n = n + 1;
        }
        proof {
            assert(buffer.chans().len() == old(buffer).chans().len());
        }
    }

    /// Processes a copy of the input and returns the output channels,
    /// leaving the input untouched; the result is exactly what
    /// `process_inplace` would have produced in the caller's buffer.
    pub fn process(&mut self, input: &BufferView) -> (out: Vec<Vec<i64>>)
        requires
            old(self).wf(),
            input.wf(),
            old(self).prepared() ==> input.chans().len() == old(self).num_channels_spec(),
            forall|c: int, j: int|
                0 <= c < input.chans().len() && 0 <= j < input.chans()[c].len()
                    ==> -SAMPLE_LIMIT <= #[trigger] input.chans()[c][j] <= SAMPLE_LIMIT,
        ensures
            final(self).wf(),
            Self::same_but_state(old(self), final(self)),
            out@.len() == input.chans().len(),
            forall|c: int|
                0 <= c < out@.len() ==> (#[trigger] out@[c]@).len() == input.chans()[c].len(),
            !old(self).prepared() ==> *final(self) == *old(self) && out@.map_values(
                |v: Vec<i64>| v@,
            ) == input.chans(),
            old(self).prepared() ==> final(self).st() == delay_state_at(
                old(self).st(),
                old(self).params(),
                input.chans(),
                input.samples_spec() as nat,
            ),
            old(self).prepared() ==> forall|c: int, n: int|
                0 <= c < input.chans().len() && 0 <= n < input.samples_spec()
                    ==> #[trigger] out@[c]@[n] as int == delay_out_at(
                    old(self).st(),
                    old(self).params(),
                    input.chans(),
                    c,
                    n,
                ),
    {
        let channels = input.to_vec();
        let ghost chans0 = input.chans();
        proof {
            assert forall|i: int|
                0 <= i < channels@.len() implies #[trigger] channels@[i]@.len()
                == channels@[0]@.len() by {
                assert(channels@.map_values(|c: Vec<i64>| c@)[i] == chans0[i]);
                assert(channels@.map_values(|c: Vec<i64>| c@)[0] == chans0[0]);
            }
        }
        let mut view = BufferViewMut::new(channels);
        proof {
            assert(view.chans() =~= chans0);
            if view.chans().len() > 0 {
                assert(view.chans()[0] == chans0[0]);
                assert(chans0[0].len() == input.samples_spec());
                assert(view.chans()[0].len() == view.samples_spec());
            }
            assert(view.samples_spec() == input.samples_spec());
        }
        self.process_inplace(&mut view);
        let ghost chans_after = view.chans();
        let BufferViewMut { channels: out, num_samples: _ } = view;
        proof {
            assert(out@.map_values(|c: Vec<i64>| c@) == chans_after);
            assert forall|c: int| 0 <= c < out@.len() implies #[trigger] out@[c]@
                == chans_after[c] by {
                assert(out@.map_values(|v: Vec<i64>| v@)[c] == out@[c]@);
            }
        }
        out
    }

    /// Everything except the mutable state is unchanged.
    pub open spec fn same_but_state(pre: &DigitalDelay, post: &DigitalDelay) -> bool {
        &&& post.params() == pre.params()
        &&& post.prepared() == pre.prepared()
        &&& post.num_channels_spec() == pre.num_channels_spec()
        &&& post.sample_rate_spec() == pre.sample_rate_spec()
        &&& post.sample_rate_per_ms_spec() == pre.sample_rate_per_ms_spec()
        &&& post.delay_time_spec() == pre.delay_time_spec()
        &&& post.ring_len() == pre.ring_len()
    }

    /// Exposes the current parameter set for reasoning and tests.
    pub fn delay_time(&self) -> (r: i64)
        ensures
            r as int == self.delay_time_spec(),
    {
        self.delay_time
    }

    pub fn feedback(&self) -> (r: i64)
        ensures
            r as int == self.params().feedback,
    {
        self.feedback
    }

    pub fn dry_gain(&self) -> (r: i64)
        ensures
            r as int == self.params().dry,
    {
        self.dry_gain
    }

    pub fn wet_gain(&self) -> (r: i64)
        ensures
            r as int == self.params().wet,
    {
        self.wet_gain
    }

    pub fn num_channels(&self) -> (r: usize)
        ensures
            r as int == self.num_channels_spec(),
    {
        self.delay_lines.len()
    }

    pub fn sample_rate_per_ms(&self) -> (r: i64)
        ensures
            r as int == self.sample_rate_per_ms_spec(),
    {
        self.sample_rate_per_ms
    }

    pub fn delay_samples(&self) -> (r: i64)
        ensures
            r as int == self.params().target,
    {
        self.delay_samples
    }

    pub fn smoothed_delay_samples(&self) -> (r: i64)
        ensures
            r as int == self.st().smoothed,
    {
        self.smoothed_delay_samples
    }

    pub fn ring_buffer_len(&self) -> (r: usize)
        requires
            self.num_channels_spec() >= 1,
        ensures
            r as int == self.ring_len(),
    {
        self.delay_lines[0].len()
    }
}


impl crate::effects::Effect for DigitalDelay {
    open spec fn effect_wf(&self) -> bool {
        self.wf()
    }

    open spec fn effect_channels(&self) -> int {
        self.num_channels_spec()
    }

    open spec fn effect_prepared(&self) -> bool {
        self.prepared()
    }

    fn prepare(&mut self, sample_rate: i64, block_size: usize) {
        DigitalDelay::prepare(self, sample_rate, block_size)
    }

    fn reset(&mut self) {
        DigitalDelay::reset(self)
    }

    fn process(&mut self, input: &BufferView) -> (out: Vec<Vec<i64>>) {
        DigitalDelay::process(self, input)
    }

    fn process_inplace(&mut self, buffer: &mut BufferViewMut) {
        DigitalDelay::process_inplace(self, buffer)
    }
}

} // verus!
