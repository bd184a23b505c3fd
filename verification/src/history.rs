//! Bounded sliding window of inter-heartbeat intervals with running sums.
//!
//! The window keeps at most `sample_size` intervals (FIFO eviction) and
//! maintains `sum` and `sum_squared` incrementally, so the mean and the
//! variance of the window are available in constant time.

use std::collections::VecDeque;
use vstd::prelude::*;

verus! {

/// Largest interval (milliseconds) the window accepts; keeps the running
/// sums far away from overflow.
pub const MAX_INTERVAL: u64 = 0x1_0000_0000_0000;

/// Largest window capacity; keeps the running sums far away from overflow.
pub const MAX_SAMPLE_SIZE: usize = 0x1_0000;

/// Mathematical sum of a sequence of intervals.
pub open spec fn sum_of(s: Seq<u64>) -> int
    decreases s.len(),
{
    if s.len() == 0 {
        0
    } else {
        s[0] + sum_of(s.drop_first())
    }
}

/// Mathematical sum of the squares of a sequence of intervals.
pub open spec fn sum_sq_of(s: Seq<u64>) -> int
    decreases s.len(),
{
    if s.len() == 0 {
        0
    } else {
        s[0] * s[0] + sum_sq_of(s.drop_first())
    }
}

/// Every interval of the window is at most `MAX_INTERVAL`.
pub open spec fn all_bounded(s: Seq<u64>) -> bool {
    forall|i: int| 0 <= i < s.len() ==> s[i] <= MAX_INTERVAL
}

/// The window after appending `x` to `s` under capacity `cap`: the oldest
/// entry is evicted when the capacity is exceeded.
pub open spec fn add_seq(s: Seq<u64>, cap: int, x: u64) -> Seq<u64> {
    let t = s.push(x);
    if t.len() > cap {
        t.drop_first()
    } else {
        t
    }
}

pub proof fn lemma_sum_push(s: Seq<u64>, x: u64)
    ensures
        sum_of(s.push(x)) == sum_of(s) + x,
        sum_sq_of(s.push(x)) == sum_sq_of(s) + x * x,
    decreases s.len(),
{
    let t = s.push(x);
    assert(t.len() == s.len() + 1);
    assert(t[0] == if s.len() == 0 { x } else { s[0] });
    if s.len() == 0 {
        assert(t.drop_first() =~= Seq::<u64>::empty());
        assert(sum_of(t) == t[0] + sum_of(t.drop_first()));
        assert(sum_sq_of(t) == t[0] * t[0] + sum_sq_of(t.drop_first()));
    } else {
        assert(t.drop_first() =~= s.drop_first().push(x));
        lemma_sum_push(s.drop_first(), x);
        assert(sum_of(t) == t[0] + sum_of(t.drop_first()));
        assert(sum_sq_of(t) == t[0] * t[0] + sum_sq_of(t.drop_first()));
    }
}

pub proof fn lemma_sum_bounds(s: Seq<u64>)
    requires
        all_bounded(s),
    ensures
        0 <= sum_of(s) <= s.len() * (MAX_INTERVAL as int),
        0 <= sum_sq_of(s) <= s.len() * (MAX_INTERVAL as int) * (MAX_INTERVAL as int),
    decreases s.len(),
{
    if s.len() > 0 {
        assert(all_bounded(s.drop_first())) by {
            assert(forall|i: int|
                0 <= i < s.drop_first().len() ==> s.drop_first()[i] == s[i + 1]);
        }
        lemma_sum_bounds(s.drop_first());
        assert(s[0] * s[0] <= (MAX_INTERVAL as int) * (MAX_INTERVAL as int)) by (nonlinear_arith)
            requires 0 <= s[0] <= MAX_INTERVAL as int;
        assert((s.len() - 1) * (MAX_INTERVAL as int) + MAX_INTERVAL as int
            == s.len() * (MAX_INTERVAL as int)) by (nonlinear_arith);
        assert((s.len() - 1) * (MAX_INTERVAL as int) * (MAX_INTERVAL as int)
            + (MAX_INTERVAL as int) * (MAX_INTERVAL as int)
            == s.len() * (MAX_INTERVAL as int) * (MAX_INTERVAL as int)) by (nonlinear_arith);
    }
}

/// Bounded FIFO window of heartbeat intervals with O(1) running mean and
/// variance data.
#[derive(Debug)]
pub struct HeartbeatHistory {
    sample_size: usize,
    intervals: VecDeque<u64>,
    sum: u128,
    sum_squared: u128,
}

impl View for HeartbeatHistory {
    type V = Seq<u64>;

    /// Abstractly, the window is the sequence of retained intervals,
    /// oldest first.
    closed spec fn view(&self) -> Seq<u64> {
        self.intervals@
    }
}

impl HeartbeatHistory {
    /// Capacity of the window.
    pub closed spec fn spec_sample_size(self) -> usize {
        self.sample_size
    }

    /// Internal consistency: the running sums agree with the window and
    /// the window respects its capacity.
    pub closed spec fn wf(self) -> bool {
        &&& self.sample_size <= MAX_SAMPLE_SIZE
        &&& self.intervals@.len() <= self.sample_size
        &&& all_bounded(self.intervals@)
        &&& self.sum == sum_of(self.intervals@)
        &&& self.sum_squared == sum_sq_of(self.intervals@)
    }

    pub fn new(sample_size: usize) -> (h: HeartbeatHistory)
        requires
            sample_size <= MAX_SAMPLE_SIZE,
        ensures
            h.wf(),
            h@ == Seq::<u64>::empty(),
            h.spec_sample_size() == sample_size,
    {
        let h = HeartbeatHistory {
            sample_size,
            intervals: VecDeque::new(),
            sum: 0,
            sum_squared: 0,
        };
        proof {
            assert(h.intervals@ =~= Seq::<u64>::empty());
        }
        h
    }

    /// Number of retained intervals.
    pub fn len(&self) -> (n: usize)
        ensures
            n == self@.len(),
    {
        self.intervals.len()
    }

    /// True when no interval has been retained.
    pub fn empty(&self) -> (e: bool)
        ensures
            e == (self@.len() == 0),
    {
        self.intervals.len() == 0
    }

    /// Running sum of the window.
    pub fn sum(&self) -> (s: u128)
        requires
            self.wf(),
        ensures
            s == sum_of(self@),
    {
        self.sum
    }

    /// Running sum of squares of the window.
    pub fn sum_squared(&self) -> (s: u128)
        requires
            self.wf(),
        ensures
            s == sum_sq_of(self@),
    {
        self.sum_squared
    }

    /// Appends `interval`, updating the running sums incrementally, and
    /// evicts the oldest interval when the capacity is exceeded.
    pub fn add(&mut self, interval: u64)
        requires
            old(self).wf(),
            interval <= MAX_INTERVAL,
        ensures
            final(self).wf(),
            final(self)@ == add_seq(old(self)@, old(self).spec_sample_size() as int, interval),
            final(self).spec_sample_size() == old(self).spec_sample_size(),
            old(self)@.len() < old(self).spec_sample_size()
                ==> final(self)@.len() == old(self)@.len() + 1,
            old(self)@.len() >= old(self).spec_sample_size() && old(self).spec_sample_size() > 0
                ==> final(self)@.len() == old(self).spec_sample_size(),
    {
        proof {
            lemma_sum_bounds(self.intervals@);
            lemma_sum_push(self.intervals@, interval);
            assert(self.intervals@.len() * (MAX_INTERVAL as int)
                <= MAX_SAMPLE_SIZE * (MAX_INTERVAL as int)) by (nonlinear_arith)
                requires self.intervals@.len() <= MAX_SAMPLE_SIZE as int;
            assert(self.intervals@.len() * (MAX_INTERVAL as int) * (MAX_INTERVAL as int)
                <= MAX_SAMPLE_SIZE * (MAX_INTERVAL as int) * (MAX_INTERVAL as int))
                by (nonlinear_arith)
                requires self.intervals@.len() <= MAX_SAMPLE_SIZE as int;
            assert((interval as int) * (interval as int)
                <= (MAX_INTERVAL as int) * (MAX_INTERVAL as int)) by (nonlinear_arith)
                requires 0 <= interval as int <= MAX_INTERVAL as int;
        }
        self.intervals.push_back(interval);
        self.sum = self.sum + interval as u128;
        self.sum_squared = self.sum_squared + (interval as u128) * (interval as u128);
        if self.intervals.len() > self.sample_size {
            if let Some(i) = self.intervals.pop_front() {
                proof {
                    let t = old(self).intervals@.push(interval);
                    assert(sum_of(t) == i + sum_of(t.drop_first()));
                    assert(sum_sq_of(t) == i * i + sum_sq_of(t.drop_first()));
                    lemma_sum_bounds(t.drop_first());
                }
                self.sum = self.sum - i as u128;
                self.sum_squared = self.sum_squared - (i as u128) * (i as u128);
            }
        }
    }

    /// Up to `num` most recent intervals, most-recent-first; a pure read.
    pub fn history(&self, num: usize) -> (out: Vec<u64>)
        ensures
            out@.len() == vstd::math::min(num as int, self@.len() as int),
            forall|k: int|
                0 <= k < out@.len() ==> out@[k] == self@[self@.len() - 1 - k],
    {
        let mut out: Vec<u64> = Vec::new();
        let n = self.intervals.len();
        let mut k: usize = 0;
        while k < num && k < n
            invariant
                n == self@.len(),
                k <= n,
                out@.len() == k,
                k <= num,
                forall|j: int| 0 <= j < k ==> out@[j] == self@[n - 1 - j],
            decreases n - k,
        {
            out.push(self.intervals[n - 1 - k]);
            k = k + 1;
        }
        out
    }
}

} // verus!
