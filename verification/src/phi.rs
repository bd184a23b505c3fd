//! The phi-accrual failure detector.
//!
//! Per peer, the detector consumes heartbeat timestamps (milliseconds) and
//! produces a continuous suspicion level phi in thousandths: the longer a
//! peer stays silent compared with its observed heartbeat rhythm, the
//! higher phi climbs.  A peer is considered alive while phi is nonzero yet
//! below the configured threshold.

use crate::history::{
    add_seq, all_bounded, sum_of, sum_sq_of, HeartbeatHistory, MAX_INTERVAL, MAX_SAMPLE_SIZE,
};
use crate::logistic::{
    c_nano, isqrt_u128, phi_nano_exec, phi_nano_of, spec_isqrt, v_milli_exec, v_milli_of,
    Y_CAP_MILLI,
};
use vstd::arithmetic::div_mod::{lemma_div_is_ordered, lemma_div_pos_is_pos};
use vstd::prelude::*;

verus! {

/// Largest accepted timestamp (milliseconds since the epoch).
pub const MAX_TIMESTAMP: u64 = 0x1_0000_0000_0000;

/// Largest accepted first-heartbeat estimate (milliseconds); keeps the
/// seeded intervals within `MAX_INTERVAL`.
pub const MAX_ESTIMATE: u64 = 0x8000_0000_0000;

/// Default suspicion cutoff, in thousandths of phi.
pub const DEFAULT_THRESHOLD: u64 = 16_000;

/// Default window capacity.
pub const DEFAULT_SAMPLE_SIZE: usize = 200;

/// Default floor on the standard deviation (milliseconds).
pub const DEFAULT_MIN_STD_DEVIATION: u64 = 500;

/// Default slack added to the mean interval (milliseconds).
pub const DEFAULT_ACCEPTABLE_HEARTBEAT_PAUSE: u64 = 0;

/// Default synthetic first-heartbeat interval estimate (milliseconds).
pub const DEFAULT_FIRST_HEARTBEAT_ESTIMATE: u64 = 500;

/// Verdict on a peer at a given instant, carrying the suspicion level in
/// thousandths of phi.
#[derive(Debug, Clone, Copy, PartialEq, Eq, Structural)]
pub enum State {
    Alive(u64),
    Dead(u64),
}

/// Abstract state of a detector: its configuration, the timestamp of the
/// last recorded heartbeat (0 for none), and the retained window of
/// inter-heartbeat intervals, oldest first.
pub ghost struct DetectorModel {
    pub threshold: int,
    pub sample_size: int,
    pub min_std_deviation: int,
    pub acceptable_heartbeat_pause: int,
    pub first_heartbeat_estimate: int,
    pub latest: int,
    pub window: Seq<u64>,
}

/// Configuration and window are within the ranges the arithmetic needs.
pub open spec fn model_wf(m: DetectorModel) -> bool {
    &&& 0 <= m.threshold <= u64::MAX
    &&& 2 <= m.sample_size <= MAX_SAMPLE_SIZE
    &&& 1 <= m.min_std_deviation <= MAX_TIMESTAMP
    &&& 0 <= m.acceptable_heartbeat_pause <= MAX_TIMESTAMP
    &&& 0 <= m.first_heartbeat_estimate <= MAX_ESTIMATE
    &&& 0 <= m.latest <= MAX_TIMESTAMP
    &&& m.window.len() <= m.sample_size
    &&& all_bounded(m.window)
}

/// The window holds at least the two seeded intervals, so mean and
/// variance are defined.
pub open spec fn seeded(m: DetectorModel) -> bool {
    m.window.len() >= 2
}

/// Elapsed silence at `ts`; a timestamp behind the last heartbeat counts
/// as zero elapsed time rather than underflowing.
pub open spec fn spec_diff(m: DetectorModel, ts: int) -> int {
    if ts >= m.latest {
        ts - m.latest
    } else {
        0
    }
}

/// Mean interval of the window plus the acceptable pause, in thousandths
/// of a millisecond; the mean divides by `len - 1`.
pub open spec fn spec_mean_milli(m: DetectorModel) -> int {
    sum_of(m.window) * 1000 / (m.window.len() - 1) + m.acceptable_heartbeat_pause * 1000
}

/// Variance of the window (milliseconds squared), clamped at zero: with
/// the `len - 1` denominators the raw value can go negative, and a
/// degenerate variance must lose against the deviation floor.
pub open spec fn spec_variance(m: DetectorModel) -> int {
    let n1 = m.window.len() - 1;
    let mean = sum_of(m.window) / n1;
    let q = sum_sq_of(m.window) / n1;
    if q >= mean * mean {
        q - mean * mean
    } else {
        0
    }
}

/// Standard deviation with the configured floor applied (milliseconds);
/// never below 1, so it can divide.
pub open spec fn spec_std(m: DetectorModel) -> int {
    let s = spec_isqrt(spec_variance(m));
    if s < m.min_std_deviation {
        m.min_std_deviation
    } else {
        s
    }
}

/// True when the elapsed silence exceeds the mean interval.
pub open spec fn spec_over(m: DetectorModel, ts: int) -> bool {
    spec_diff(m, ts) * 1000 > spec_mean_milli(m)
}

/// Magnitude of the gap between elapsed silence and mean interval, in
/// thousandths of a millisecond.
pub open spec fn spec_gap_milli(m: DetectorModel, ts: int) -> int {
    if spec_over(m, ts) {
        spec_diff(m, ts) * 1000 - spec_mean_milli(m)
    } else {
        spec_mean_milli(m) - spec_diff(m, ts) * 1000
    }
}

/// Normalized deviation `|diff - mean| / std` in thousandths, capped.
pub open spec fn spec_y(m: DetectorModel, ts: int) -> int {
    let y = spec_gap_milli(m, ts) / spec_std(m);
    if y > Y_CAP_MILLI {
        Y_CAP_MILLI as int
    } else {
        y
    }
}

/// The mapped deviation handed to the logistic approximation.
pub open spec fn spec_v(m: DetectorModel, ts: int) -> int {
    v_milli_of(spec_y(m, ts))
}

/// The suspicion level in thousandths of phi: 0 before any heartbeat,
/// otherwise the logistic approximation of `-log10(P(alive))`.
pub open spec fn spec_phi(m: DetectorModel, ts: int) -> int {
    if m.latest == 0 {
        0
    } else {
        phi_nano_of(spec_over(m, ts), spec_v(m, ts)) / 1000000
    }
}

/// Alive iff phi is nonzero yet below the threshold.
pub open spec fn spec_alive(m: DetectorModel, ts: int) -> bool {
    spec_phi(m, ts) != 0 && spec_phi(m, ts) < m.threshold
}

/// Verdict at `ts`, carrying phi.
pub open spec fn spec_state(m: DetectorModel, ts: int) -> State {
    if spec_alive(m, ts) {
        State::Alive(spec_phi(m, ts) as u64)
    } else {
        State::Dead(spec_phi(m, ts) as u64)
    }
}

/// Effect of a heartbeat at `ts`: when a previous heartbeat exists and the
/// peer still counts as available (judged on the state before the update),
/// the elapsed interval enters the window; the last-seen timestamp is set
/// unconditionally.
pub open spec fn spec_heartbeat(m: DetectorModel, ts: u64) -> DetectorModel {
    let m1 = if m.latest > 0 && spec_alive(m, ts as int) {
        DetectorModel { window: add_seq(m.window, m.sample_size, spec_diff(m, ts as int) as u64), ..m }
    } else {
        m
    };
    DetectorModel { latest: ts as int, ..m1 }
}

/// Per-peer suspicion model over heartbeat arrival times.
#[derive(Debug)]
pub struct PhiAccrualFailureDetector {
    threshold: u64,
    sample_size: usize,
    min_std_deviation: u64,
    acceptable_heartbeat_pause: u64,
    first_heartbeat_estimate: u64,
    latest: u64,
    history: HeartbeatHistory,
}

impl View for PhiAccrualFailureDetector {
    type V = DetectorModel;

    closed spec fn view(&self) -> DetectorModel {
        DetectorModel {
            threshold: self.threshold as int,
            sample_size: self.sample_size as int,
            min_std_deviation: self.min_std_deviation as int,
            acceptable_heartbeat_pause: self.acceptable_heartbeat_pause as int,
            first_heartbeat_estimate: self.first_heartbeat_estimate as int,
            latest: self.latest as int,
            window: self.history@,
        }
    }
}

impl PhiAccrualFailureDetector {
    /// The concrete fields agree with the running sums and the model is
    /// in range.
    pub closed spec fn inv(self) -> bool {
        &&& self.history.wf()
        &&& self.history.spec_sample_size() == self.sample_size
        &&& model_wf(self@)
    }

    pub fn new(
        threshold: u64,
        sample_size: usize,
        min_std_deviation: u64,
        acceptable_heartbeat_pause: u64,
        first_heartbeat_estimate: u64,
    ) -> (d: PhiAccrualFailureDetector)
        requires
            2 <= sample_size <= MAX_SAMPLE_SIZE,
            1 <= min_std_deviation <= MAX_TIMESTAMP,
            acceptable_heartbeat_pause <= MAX_TIMESTAMP,
            first_heartbeat_estimate <= MAX_ESTIMATE,
        ensures
            d.inv(),
            d@ == (DetectorModel {
                threshold: threshold as int,
                sample_size: sample_size as int,
                min_std_deviation: min_std_deviation as int,
                acceptable_heartbeat_pause: acceptable_heartbeat_pause as int,
                first_heartbeat_estimate: first_heartbeat_estimate as int,
                latest: 0,
                window: Seq::<u64>::empty(),
            }),
    {
        PhiAccrualFailureDetector {
            threshold,
            sample_size,
            min_std_deviation,
            acceptable_heartbeat_pause,
            first_heartbeat_estimate,
            latest: 0,
            history: HeartbeatHistory::new(sample_size),
        }
    }

    /// The invariant keeps the abstract model within the ranges the
    /// arithmetic needs.
    pub proof fn lemma_inv_model_wf(self)
        requires
            self.inv(),
        ensures
            model_wf(self@),
    {
    }

    /// Timestamp of the last recorded heartbeat; 0 when none was ever
    /// recorded.
    pub fn last(&self) -> (t: u64)
        ensures
            t as int == self@.latest,
    {
        self.latest
    }

    /// Up to `num` most recent intervals of the window, most-recent-first.
    pub fn history(&self, num: usize) -> (out: Vec<u64>)
        ensures
            out@.len() == vstd::math::min(num as int, self@.window.len() as int),
            forall|k: int|
                0 <= k < out@.len() ==> out@[k] == self@.window[self@.window.len() - 1 - k],
    {
        self.history.history(num)
    }

    /// The suspicion level at `timestamp`, in thousandths of phi.
    pub fn phi(&self, timestamp: u64) -> (p: u64)
        requires
            self.inv(),
            timestamp <= MAX_TIMESTAMP,
            self@.latest != 0 ==> seeded(self@),
        ensures
            p as int == spec_phi(self@, timestamp as int),
    {
        if self.latest == 0 {
            return 0;
        }
        let ghost m = self@;
        let n = self.history.len();
        let sum = self.history.sum();
        let sumsq = self.history.sum_squared();
        proof {
            crate::history::lemma_sum_bounds(m.window);
            lemma_mean_bound(m.window);
            assert(m.window.len() * (MAX_INTERVAL as int) <= 0x10000int * 0x1_0000_0000_0000)
                by (nonlinear_arith)
                requires
                    0 <= m.window.len() <= 0x10000,
            ;
            assert(m.window.len() * (MAX_INTERVAL as int) * (MAX_INTERVAL as int)
                <= 0x10000int * 0x1_0000_0000_0000 * 0x1_0000_0000_0000) by (nonlinear_arith)
                requires
                    0 <= m.window.len() <= 0x10000,
            ;
        }
        let n1 = (n - 1) as u128;
        let mean_milli: u128 = sum * 1000 / n1 + (self.acceptable_heartbeat_pause as u128) * 1000;
        let mean_base: u128 = sum / n1;
        let q: u128 = sumsq / n1;
        proof {
            lemma_div_is_ordered(0, sum as int, n1 as int);
            lemma_div_is_ordered(0, sumsq as int, n1 as int);
            assert(q as int <= sumsq as int) by {
                vstd::arithmetic::div_mod::lemma_div_nonincreasing(sumsq as int, n1 as int);
            }
            assert(mean_base as int <= 2 * MAX_INTERVAL);
            assert((mean_base as int) * (mean_base as int)
                <= (2 * MAX_INTERVAL as int) * (2 * MAX_INTERVAL as int)) by (nonlinear_arith)
                requires
                    0 <= mean_base as int <= 2 * MAX_INTERVAL as int,
            ;
        }
        let var: u128 = if q >= mean_base * mean_base {
            q - mean_base * mean_base
        } else {
            0
        };
        let std = isqrt_u128(var);
        proof {
            assert(var as int == spec_variance(m));
            assert((std as int) * (std as int) <= var as int);
            assert(std as int <= var as int) by (nonlinear_arith)
                requires
                    0 <= std as int,
                    (std as int) * (std as int) <= var as int,
                    var as int >= 0,
                    (std as int + 1) * (std as int + 1) > var as int,
            ;
        }
        let std_ms: u128 = if std < self.min_std_deviation as u128 {
            self.min_std_deviation as u128
        } else {
            std
        };
        let diff: u64 = if timestamp >= self.latest {
            timestamp - self.latest
        } else {
            0
        };
        let diff_milli: u128 = (diff as u128) * 1000;
        let over = diff_milli > mean_milli;
        let gap: u128 = if over {
            diff_milli - mean_milli
        } else {
            mean_milli - diff_milli
        };
        let y_raw: u128 = gap / std_ms;
        proof {
            lemma_div_is_ordered(0, gap as int, std_ms as int);
        }
        let y: u64 = if y_raw > Y_CAP_MILLI as u128 {
            Y_CAP_MILLI
        } else {
            y_raw as u64
        };
        let v = v_milli_exec(y);
        let nano = phi_nano_exec(over, v);
        proof {
            assert(std_ms as int == spec_std(m));
            assert(diff as int == spec_diff(m, timestamp as int));
            assert(over == spec_over(m, timestamp as int));
            assert(gap as int == spec_gap_milli(m, timestamp as int));
            assert(y as int == spec_y(m, timestamp as int));
            assert(v as int == spec_v(m, timestamp as int));
            assert(nano as int == phi_nano_of(spec_over(m, timestamp as int), spec_v(m, timestamp as int)));
        }
        nano / 1000000
    }

    /// Verdict at `timestamp`: `Alive(phi)` while phi is nonzero and below
    /// the threshold, `Dead(phi)` otherwise (in particular before any
    /// heartbeat).
    pub fn state(&self, timestamp: u64) -> (st: State)
        requires
            self.inv(),
            timestamp <= MAX_TIMESTAMP,
            self@.latest != 0 ==> seeded(self@),
        ensures
            st == spec_state(self@, timestamp as int),
    {
        let p = self.phi(timestamp);
        if p != 0 && p < self.threshold {
            State::Alive(p)
        } else {
            State::Dead(p)
        }
    }

    /// True iff `state(timestamp)` is `Alive`.
    pub fn is_available(&self, timestamp: u64) -> (a: bool)
        requires
            self.inv(),
            timestamp <= MAX_TIMESTAMP,
            self@.latest != 0 ==> seeded(self@),
        ensures
            a == spec_alive(self@, timestamp as int),
    {
        let p = self.phi(timestamp);
        p != 0 && p < self.threshold
    }

    /// Records a heartbeat at `timestamp`.  When a previous heartbeat
    /// exists and the peer still counts as available at `timestamp`, the
    /// elapsed interval enters the window, so that silence already deemed
    /// suspect does not poison the statistics; the last-seen timestamp is
    /// set unconditionally.  A timestamp behind the last one counts as an
    /// interval of zero.
    pub fn heartbeat(&mut self, timestamp: u64)
        requires
            old(self).inv(),
            seeded(old(self)@),
            timestamp <= MAX_TIMESTAMP,
        ensures
            final(self).inv(),
            seeded(final(self)@),
            final(self)@ == spec_heartbeat(old(self)@, timestamp),
    {
        let ghost m = self@;
        if self.latest > 0 {
            let interval: u64 = if timestamp >= self.latest {
                timestamp - self.latest
            } else {
                0
            };
            if self.is_available(timestamp) {
                self.history.add(interval);
                proof {
                    assert(self@.window == add_seq(m.window, m.sample_size, interval));
                }
            }
        }
        self.latest = timestamp;
    }
}

/// Builder for a detector: starts from the documented defaults, each
/// `with_` method replaces one knob, `build` seeds the window.
pub struct PhiAccrualFailureDetectorBuilder(PhiAccrualFailureDetector);

impl View for PhiAccrualFailureDetectorBuilder {
    type V = DetectorModel;

    closed spec fn view(&self) -> DetectorModel {
        self.0@
    }
}

impl PhiAccrualFailureDetectorBuilder {
    pub closed spec fn inv(self) -> bool {
        &&& model_wf(self.0@)
        &&& self.0@.latest == 0
        &&& self.0@.window.len() == 0
    }

    pub fn new() -> (b: PhiAccrualFailureDetectorBuilder)
        ensures
            b.inv(),
            b@.threshold == DEFAULT_THRESHOLD,
            b@.sample_size == DEFAULT_SAMPLE_SIZE,
            b@.min_std_deviation == DEFAULT_MIN_STD_DEVIATION,
            b@.acceptable_heartbeat_pause == DEFAULT_ACCEPTABLE_HEARTBEAT_PAUSE,
            b@.first_heartbeat_estimate == DEFAULT_FIRST_HEARTBEAT_ESTIMATE,
    {
        PhiAccrualFailureDetectorBuilder(PhiAccrualFailureDetector::new(
            DEFAULT_THRESHOLD,
            DEFAULT_SAMPLE_SIZE,
            DEFAULT_MIN_STD_DEVIATION,
            DEFAULT_ACCEPTABLE_HEARTBEAT_PAUSE,
            DEFAULT_FIRST_HEARTBEAT_ESTIMATE,
        ))
    }

    /// Suspicion cutoff, in thousandths of phi.
    pub fn with_threshold(&mut self, threshold: u64) -> (r: &mut PhiAccrualFailureDetectorBuilder)
        requires
            old(self).inv(),
        ensures
            (*r).inv(),
            (*r)@ == (DetectorModel { threshold: threshold as int, ..old(self)@ }),
            *final(self) == *final(r),
    {
        self.0.threshold = threshold;
        self
    }

    /// Window capacity; at least 2 so that mean and variance stay defined.
    pub fn with_sample_size(&mut self, sample_size: usize) -> (r:
        &mut PhiAccrualFailureDetectorBuilder)
        requires
            old(self).inv(),
            2 <= sample_size <= MAX_SAMPLE_SIZE,
        ensures
            (*r).inv(),
            (*r)@ == (DetectorModel { sample_size: sample_size as int, ..old(self)@ }),
            *final(self) == *final(r),
    {
        self.0.sample_size = sample_size;
        self
    }

    /// Floor on the standard deviation (milliseconds); at least 1 so that
    /// it can divide.
    pub fn with_min_std_deviation(&mut self, min_std_deviation: u64) -> (r:
        &mut PhiAccrualFailureDetectorBuilder)
        requires
            old(self).inv(),
            1 <= min_std_deviation <= MAX_TIMESTAMP,
        ensures
            (*r).inv(),
            (*r)@ == (DetectorModel {
                min_std_deviation: min_std_deviation as int,
                ..old(self)@
            }),
            *final(self) == *final(r),
    {
        self.0.min_std_deviation = min_std_deviation;
        self
    }

    /// Constant slack added to the mean interval (milliseconds).
    pub fn with_acceptable_heartbeat_pause(&mut self, acceptable_heartbeat_pause: u64) -> (r:
        &mut PhiAccrualFailureDetectorBuilder)
        requires
            old(self).inv(),
            acceptable_heartbeat_pause <= MAX_TIMESTAMP,
        ensures
            (*r).inv(),
            (*r)@ == (DetectorModel {
                acceptable_heartbeat_pause: acceptable_heartbeat_pause as int,
                ..old(self)@
            }),
            *final(self) == *final(r),
    {
        self.0.acceptable_heartbeat_pause = acceptable_heartbeat_pause;
        self
    }

    /// Synthetic first-heartbeat interval estimate (milliseconds).
    pub fn with_first_heartbeat_estimate(&mut self, first_heartbeat_estimate: u64) -> (r:
        &mut PhiAccrualFailureDetectorBuilder)
        requires
            old(self).inv(),
            first_heartbeat_estimate <= MAX_ESTIMATE,
        ensures
            (*r).inv(),
            (*r)@ == (DetectorModel {
                first_heartbeat_estimate: first_heartbeat_estimate as int,
                ..old(self)@
            }),
            *final(self) == *final(r),
    {
        self.0.first_heartbeat_estimate = first_heartbeat_estimate;
        self
    }

    /// Produces a detector with the configured knobs and a window
    /// pre-seeded with two synthetic intervals around the estimate, so
    /// that mean and variance are defined from the first real heartbeat
    /// on.
    pub fn build(&mut self) -> (d: PhiAccrualFailureDetector)
        requires
            old(self).inv(),
        ensures
            *final(self) == *old(self),
            d.inv(),
            seeded(d@),
            d@ == (DetectorModel {
                latest: 0,
                window: seq![
                    (old(self)@.first_heartbeat_estimate
                        - old(self)@.first_heartbeat_estimate / 4) as u64,
                    (old(self)@.first_heartbeat_estimate
                        + old(self)@.first_heartbeat_estimate / 4) as u64,
                ],
                ..old(self)@
            }),
    {
        let e = self.0.first_heartbeat_estimate;
        let q = e / 4;
        let mut d = PhiAccrualFailureDetector::new(
            self.0.threshold,
            self.0.sample_size,
            self.0.min_std_deviation,
            self.0.acceptable_heartbeat_pause,
            e,
        );
        proof {
            assert(q as int == e as int / 4);
            assert(e as int / 4 <= e as int) by (nonlinear_arith)
                requires
                    e as int >= 0,
            ;
        }
        d.history.add(e - q);
        d.history.add(e + q);
        proof {
            assert(d.history@ =~= seq![(e - q) as u64, (e + q) as u64]);
        }
        d
    }
}

/// While a peer stays silent, suspicion never decreases: with no
/// heartbeat recorded in between, a later timestamp never yields a
/// smaller phi.
pub proof fn lemma_phi_monotonic(m: DetectorModel, t1: int, t2: int)
    requires
        model_wf(m),
        m.latest != 0 ==> seeded(m),
        t1 <= t2,
    ensures
        spec_phi(m, t1) <= spec_phi(m, t2),
{
    if m.latest != 0 {
        let mu = spec_mean_milli(m);
        let std = spec_std(m);
        let n1 = m.window.len() - 1;
        crate::history::lemma_sum_bounds(m.window);
        lemma_div_pos_is_pos(sum_of(m.window) * 1000, n1);
        assert(mu >= 0);
        assert(std >= 1);
        let d1 = spec_diff(m, t1) * 1000;
        let d2 = spec_diff(m, t2) * 1000;
        assert(d1 <= d2);
        let g1 = spec_gap_milli(m, t1);
        let g2 = spec_gap_milli(m, t2);
        let o1 = spec_over(m, t1);
        let o2 = spec_over(m, t2);
        lemma_div_pos_is_pos(g1, std);
        lemma_div_pos_is_pos(g2, std);
        let y1 = spec_y(m, t1);
        let y2 = spec_y(m, t2);
        assert(0 <= y1 <= Y_CAP_MILLI);
        assert(0 <= y2 <= Y_CAP_MILLI);
        let v1 = spec_v(m, t1);
        let v2 = spec_v(m, t2);
        crate::logistic::lemma_v_milli_bounds(y1);
        crate::logistic::lemma_v_milli_bounds(y2);
        if !o1 && !o2 {
            lemma_div_is_ordered(g2, g1, std);
            crate::logistic::lemma_v_milli_mono(y2, y1);
        } else if !o1 && o2 {
        } else if o1 && o2 {
            lemma_div_is_ordered(g1, g2, std);
            crate::logistic::lemma_v_milli_mono(y1, y2);
        } else {
            assert(false);
        }
        crate::logistic::lemma_phi_nano_mono(o1, v1, o2, v2);
        lemma_div_is_ordered(
            phi_nano_of(o1, v1),
            phi_nano_of(o2, v2),
            1000000,
        );
    }
}

/// An interval observed while the peer is already deemed suspect does not
/// enter the window: the statistics are untouched by a heartbeat that
/// arrives under suspicion.
pub proof fn lemma_suspect_interval_excluded(m: DetectorModel, ts: u64)
    requires
        !spec_alive(m, ts as int),
    ensures
        spec_heartbeat(m, ts).window == m.window,
{
}

/// A heartbeat keeps the model well-formed and the window seeded.
pub proof fn lemma_heartbeat_preserves_wf(m: DetectorModel, ts: u64)
    requires
        model_wf(m),
        seeded(m),
        ts <= MAX_TIMESTAMP,
    ensures
        model_wf(spec_heartbeat(m, ts)),
        seeded(spec_heartbeat(m, ts)),
{
    let m2 = spec_heartbeat(m, ts);
    if m.latest > 0 && spec_alive(m, ts as int) {
        let iv = spec_diff(m, ts as int) as u64;
        let t = m.window.push(iv);
        assert(all_bounded(t)) by {
            assert(forall|i: int| 0 <= i < m.window.len() ==> t[i] == m.window[i]);
        }
        if t.len() > m.sample_size {
            assert(all_bounded(t.drop_first())) by {
                assert(forall|i: int|
                    0 <= i < t.drop_first().len() ==> t.drop_first()[i] == t[i + 1]);
            }
        }
    }
}

/// A fresh heartbeat revives a suspect peer: right after `heartbeat(ts)`
/// the verdict at exactly `ts` is `Alive`, with phi at most 301
/// thousandths (log10 of 2).  This needs the threshold to lie above that
/// level, and the window's mean not to dwarf its deviation so far that
/// phi truncates to zero.
pub proof fn lemma_recovery(m: DetectorModel, ts: u64)
    requires
        model_wf(m),
        seeded(m),
        1 <= ts <= MAX_TIMESTAMP,
        m.threshold > 301,
        spec_v(spec_heartbeat(m, ts), ts as int) <= 6161,
    ensures
        1 <= spec_phi(spec_heartbeat(m, ts), ts as int) <= 301,
        spec_alive(spec_heartbeat(m, ts), ts as int),
        spec_state(spec_heartbeat(m, ts), ts as int) is Alive,
{
    let m2 = spec_heartbeat(m, ts);
    lemma_heartbeat_preserves_wf(m, ts);
    assert(m2.latest == ts as int);
    let mu = spec_mean_milli(m2);
    let n1 = m2.window.len() - 1;
    crate::history::lemma_sum_bounds(m2.window);
    lemma_div_pos_is_pos(sum_of(m2.window) * 1000, n1);
    assert(mu >= 0);
    assert(spec_diff(m2, ts as int) == 0);
    assert(!spec_over(m2, ts as int));
    let v = spec_v(m2, ts as int);
    let std = spec_std(m2);
    lemma_div_pos_is_pos(spec_gap_milli(m2, ts as int), std);
    crate::logistic::lemma_v_milli_bounds(spec_y(m2, ts as int));
    assert(0 <= v);
    crate::logistic::lemma_c_nano_mono(0, v);
    crate::logistic::lemma_c_nano_mono(v, 6161);
    assert(c_nano(6161) == 1075176 - 149651271int / 2000) by {
        assert(c_nano(6161) == crate::logistic::seg(6161, 6000, 1075176, 8000, 145665));
    }
    assert(149651271int / 2000 == 74825) by (nonlinear_arith);
    assert(c_nano(0) == 301029996) by {
        assert(c_nano(0) == crate::logistic::seg(0, 0, 301029996, 250, 250127312));
        assert((301029996 - 250127312) * (0 - 0) == 0);
        assert(0int / 250 == 0) by (nonlinear_arith);
    }
    assert(1000351 <= c_nano(v) <= 301029996);
    lemma_div_is_ordered(1000351, c_nano(v), 1000000);
    lemma_div_is_ordered(c_nano(v), 301029996, 1000000);
    assert(1000351int / 1000000 == 1) by (nonlinear_arith);
    assert(301029996int / 1000000 == 301) by (nonlinear_arith);
}

/// Relies on std::time::SystemTime::now and duration_since: the wall
/// clock as milliseconds since the Unix epoch, or 0 when the clock reads
/// before the epoch.
#[verifier::external_body]
fn now_millis() -> (t: u128) {
    match std::time::SystemTime::now().duration_since(std::time::UNIX_EPOCH) {
        Ok(d) => d.as_millis(),
        Err(_) => 0,
    }
}

/// The wall clock in milliseconds since the epoch, clamped into the range
/// the detector accepts.
pub fn now() -> (t: u64)
    ensures
        t <= MAX_TIMESTAMP,
{
    let ms = now_millis();
    if ms > MAX_TIMESTAMP as u128 {
        MAX_TIMESTAMP
    } else {
        ms as u64
    }
}

/// The mean interval never exceeds twice the interval bound: the sum is at
/// most `len` times the bound, and it divides by `len - 1 >= len / 2`.
proof fn lemma_mean_bound(s: Seq<u64>)
    requires
        all_bounded(s),
        s.len() >= 2,
    ensures
        0 <= sum_of(s) / (s.len() - 1) <= 2 * MAX_INTERVAL,
{
    crate::history::lemma_sum_bounds(s);
    let n = s.len() as int;
    let n1 = n - 1;
    assert(n * (MAX_INTERVAL as int) <= n1 * (2 * MAX_INTERVAL as int)) by (nonlinear_arith)
        requires
            n >= 2,
            n1 == n - 1,
    ;
    lemma_div_is_ordered(sum_of(s), n1 * (2 * MAX_INTERVAL as int), n1);
    assert((n1 * (2 * MAX_INTERVAL as int)) / n1 == 2 * MAX_INTERVAL as int) by (nonlinear_arith)
        requires
            n1 >= 1,
    ;
    lemma_div_pos_is_pos(sum_of(s), n1);
}

} // verus!
