//! Time-windowed reputation of a peer.

use vstd::prelude::*;

verus! {

/// Scores below this knock a peer out.
pub const KNOCK_OUT_SCORE: u64 = 40;

/// Scores at or above this mark a good peer.
pub const GOOD_TRUST_SCORE: u64 = 80;

/// Intervals needed before a score is given.
pub const MIN_SCORED_INTERVALS: usize = 3;

/// Settings shared by the metrics of all peers.
#[derive(Debug, Clone, Copy, PartialEq, Eq, Structural)]
pub struct TrustMetricConfig {
    /// Length of an interval in seconds.
    pub interval_secs: u64,
    /// Intervals kept in the history.
    pub max_history: usize,
    /// Weight in percent of the newest interval against all before it.
    pub alpha: u64,
}

impl TrustMetricConfig {
    pub open spec fn wf(&self) -> bool {
        &&& self.interval_secs > 0
        &&& self.max_history > 0
        &&& 1 <= self.alpha <= 100
    }

    /// Sixty-second intervals, two hundred of them, a weight of thirty percent.
    pub fn default_config() -> (r: TrustMetricConfig)
        ensures
            r.wf(),
            r.interval_secs == 60,
            r.max_history == 200,
            r.alpha == 30,
    {
        TrustMetricConfig { interval_secs: 60, max_history: 200, alpha: 30 }
    }

    pub fn new(interval_secs: u64, max_history: usize, alpha: u64) -> (r: Option<TrustMetricConfig>)
        ensures
            r.is_some() == (interval_secs > 0 && max_history > 0 && 1 <= alpha <= 100),
            r.is_some() ==> r.unwrap().wf() && r.unwrap().interval_secs == interval_secs
                && r.unwrap().max_history == max_history && r.unwrap().alpha == alpha,
    {
        if interval_secs > 0 && max_history > 0 && 1 <= alpha && alpha <= 100 {
            Some(TrustMetricConfig { interval_secs, max_history, alpha })
        } else {
            None
        }
    }
}

/// Percentage of good events in one interval: `100 * good / max(1, good + bad)`.
pub open spec fn ratio(e: (u64, u64)) -> int {
    if e.0 + e.1 == 0 {
        0
    } else {
        (100 * e.0) / (e.0 + e.1)
    }
}

/// Exponentially weighted average of the ratios, the newest weighing `alpha` percent.
pub open spec fn weighted(s: Seq<(u64, u64)>, alpha: int) -> int
    decreases s.len(),
{
    if s.len() == 0 {
        0
    } else if s.len() == 1 {
        ratio(s[0])
    } else {
        (alpha * ratio(s.last()) + (100 - alpha) * weighted(s.drop_last(), alpha)) / 100
    }
}

/// Before three intervals closed, a metric has no opinion.
pub proof fn lemma_no_opinion_before_three_intervals(m: TrustMetric)
    requires
        m.history@.len() < MIN_SCORED_INTERVALS,
    ensures
        m.score_spec().is_none(),
{
}

/// The interval closes: its counts join the history, the oldest interval
/// leaves a full history.
pub open spec fn interval_closed(h: Seq<(u64, u64)>, good: u64, bad: u64, max_history: usize) -> Seq<(u64, u64)> {
    if h.len() < max_history {
        h.push((good, bad))
    } else {
        h.push((good, bad)).drop_first()
    }
}

/// `m1` is `m0` after a tick at `now`: a running metric whose interval has
/// passed closes it and starts the next at `now`; otherwise nothing changes.
pub open spec fn ticked(m0: TrustMetric, m1: TrustMetric, now: u64) -> bool {
    if m0.started && m0.interval_start as int + m0.config.interval_secs <= now {
        &&& m1.config == m0.config
        &&& m1.started == m0.started
        &&& m1.good == 0 && m1.bad == 0
        &&& m1.history@ == interval_closed(m0.history@, m0.good, m0.bad, m0.config.max_history)
        &&& m1.interval_start == now
    } else {
        m1 == m0
    }
}

/// Reputation of one peer: counters for the running interval and the history of
/// closed intervals, newest last.
#[derive(Debug, Clone)]
pub struct TrustMetric {
    pub config: TrustMetricConfig,
    pub good: u64,
    pub bad: u64,
    pub history: Vec<(u64, u64)>,
    pub started: bool,
    /// When the running interval began.
    pub interval_start: u64,
}

impl TrustMetric {
    pub open spec fn wf(&self) -> bool {
        &&& self.config.wf()
        &&& self.history@.len() <= self.config.max_history
    }

    /// The intervals that count towards the score: the closed ones, and the
    /// running one once it saw an event.
    pub open spec fn observed(&self) -> Seq<(u64, u64)> {
        if self.good + self.bad > 0 {
            self.history@.push((self.good, self.bad))
        } else {
            self.history@
        }
    }

    /// The score, or `None` ("no opinion") before enough intervals closed.
    pub open spec fn score_spec(&self) -> Option<u64> {
        if self.history@.len() < MIN_SCORED_INTERVALS {
            None
        } else {
            Some(weighted(self.observed(), self.config.alpha as int) as u64)
        }
    }

    /// A fresh, paused metric.
    pub fn new(config: TrustMetricConfig) -> (r: TrustMetric)
        requires
            config.wf(),
        ensures
            r.wf(),
            r.config == config,
            r.good == 0 && r.bad == 0,
            r.history@.len() == 0,
            !r.started,
    {
        TrustMetric { config, good: 0, bad: 0, history: Vec::new(), started: false, interval_start: 0 }
    }

    pub fn start(&mut self, now: u64)
        requires
            old(self).wf(),
        ensures
            final(self).wf(),
            final(self).started,
            final(self).interval_start == now,
            final(self).config == old(self).config,
            final(self).good == old(self).good,
            final(self).bad == old(self).bad,
            final(self).history@ == old(self).history@,
    {
        self.started = true;
        self.interval_start = now;
    }

    pub fn pause(&mut self)
        requires
            old(self).wf(),
        ensures
            final(self).wf(),
            !final(self).started,
            final(self).config == old(self).config,
            final(self).good == old(self).good,
            final(self).bad == old(self).bad,
            final(self).history@ == old(self).history@,
    {
        self.started = false;
    }

    pub fn is_started(&self) -> (r: bool)
        ensures
            r == self.started,
    {
        self.started
    }

    pub fn good_events(&mut self, n: u64)
        requires
            old(self).wf(),
        ensures
            final(self).wf(),
            final(self).good == crate::tags::sat_add(old(self).good, n),
            final(self).bad == old(self).bad,
            final(self).config == old(self).config,
            final(self).started == old(self).started,
            final(self).history@ == old(self).history@,
    {
        self.good = self.good.saturating_add(n);
    }

    pub fn bad_events(&mut self, n: u64)
        requires
            old(self).wf(),
        ensures
            final(self).wf(),
            final(self).bad == crate::tags::sat_add(old(self).bad, n),
            final(self).good == old(self).good,
            final(self).config == old(self).config,
            final(self).started == old(self).started,
            final(self).history@ == old(self).history@,
    {
        self.bad = self.bad.saturating_add(n);
    }

    pub fn good_events_count(&self) -> (r: u64)
        ensures
            r == self.good,
    {
        self.good
    }

    pub fn bad_events_count(&self) -> (r: u64)
        ensures
            r == self.bad,
    {
        self.bad
    }

    /// Number of closed intervals held.
    pub fn intervals(&self) -> (r: usize)
        ensures
            r == self.history@.len(),
    {
        self.history.len()
    }

    /// Closes the running interval: its counts join the history, the oldest
    /// interval leaves once the history is full, and the counters restart.
    pub fn enter_new_interval(&mut self)
        requires
            old(self).wf(),
        ensures
            final(self).wf(),
            final(self).good == 0 && final(self).bad == 0,
            final(self).config == old(self).config,
            final(self).started == old(self).started,
            final(self).history@ == if old(self).history@.len() < old(self).config.max_history {
                old(self).history@.push((old(self).good, old(self).bad))
            } else {
                old(self).history@.push((old(self).good, old(self).bad)).drop_first()
            },
    {
        self.history.push((self.good, self.bad));
        if self.history.len() > self.config.max_history {
            self.history.remove(0);
        }
        self.good = 0;
        self.bad = 0;
    }

    /// Closes the running interval if the metric runs and a whole interval has
    /// passed at `now`.
    pub fn tick(&mut self, now: u64)
        requires
            old(self).wf(),
        ensures
            final(self).wf(),
            ticked(*old(self), *final(self), now),
    {
        if self.started && self.interval_start <= now && now - self.interval_start >= self.config.interval_secs {
            self.enter_new_interval();
            self.interval_start = now;
        }
    }

    /// Forgets all intervals and counts, keeping the settings.
    pub fn reset_history(&mut self)
        requires
            old(self).wf(),
        ensures
            final(self).wf(),
            final(self).history@.len() == 0,
            final(self).good == 0 && final(self).bad == 0,
            final(self).config == old(self).config,
            final(self).started == old(self).started,
    {
        self.history = Vec::new();
        self.good = 0;
        self.bad = 0;
    }

    /// The score in `[0, 100]`, or `None` before three intervals closed.
    pub fn trust_score(&self) -> (r: Option<u64>)
        requires
            self.wf(),
        ensures
            r == self.score_spec(),
            r.is_some() ==> r.unwrap() <= 100,
    {
        if self.history.len() < MIN_SCORED_INTERVALS {
            return None;
        }
        let alpha = self.config.alpha;
        let mut s: u64 = 0;
        let mut i: usize = 0;
        while i < self.history.len()
            invariant
                1 <= alpha <= 100,
                alpha == self.config.alpha,
                i <= self.history@.len(),
                s == weighted(self.history@.subrange(0, i as int), alpha as int),
                s <= 100,
            decreases self.history@.len() - i,
        {
            let ghost prefix = self.history@.subrange(0, i + 1);
            assert(prefix.drop_last() =~= self.history@.subrange(0, i as int));
            s = step(s, self.history[i], alpha, i == 0);
            i = i + 1;
        }
        assert(self.history@.subrange(0, self.history@.len() as int) =~= self.history@);
        if self.good > 0 || self.bad > 0 {
            let ghost h = self.history@;
            assert(h.push((self.good, self.bad)).drop_last() =~= h);
            s = step(s, (self.good, self.bad), alpha, false);
        }
        Some(s)
    }
}

/// Percentage of good events among `good + bad`, zero for none.
fn interval_ratio(e: (u64, u64)) -> (r: u64)
    ensures
        r == ratio(e),
        r <= 100,
{
    let total: u128 = e.0 as u128 + e.1 as u128;
    if total == 0 {
        0
    } else {
        let g = e.0 as u128;
        let r: u128 = (100 * g) / total;
        assert((100 * g as int) / (total as int) <= 100) by (nonlinear_arith)
            requires
                g <= total,
                total > 0,
        ;
        r as u64
    }
}

/// One step of the weighted average: the first interval alone, or the new
/// ratio blended with the running value.
fn step(s: u64, e: (u64, u64), alpha: u64, first: bool) -> (r: u64)
    requires
        s <= 100,
        1 <= alpha <= 100,
    ensures
        r <= 100,
        first ==> r == ratio(e),
        !first ==> r == (alpha * ratio(e) + (100 - alpha) * s) / 100,
{
    let q = interval_ratio(e);
    if first {
        q
    } else {
        assert(alpha * q <= alpha * 100 && (100 - alpha) * s <= (100 - alpha) * 100) by (nonlinear_arith)
            requires
                q <= 100,
                s <= 100,
                1 <= alpha <= 100,
        ;
        let t: u64 = alpha * q + (100 - alpha) * s;
        t / 100
    }
}

} // verus!
