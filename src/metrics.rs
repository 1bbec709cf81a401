//! Pipeline counters and the rolling window of latency samples.
use std::collections::VecDeque;
use vstd::prelude::*;
use vstd::seq_lib::{to_multiset_build, to_multiset_insert};

verus! {

/// Samples kept by default in the latency window.
pub const DEFAULT_WINDOW: usize = 1000;

/// A p99 latency at or above this many microseconds fails the assessment.
pub const P99_LIMIT_US: u64 = 10_000;

/// Sum of the samples.
pub open spec fn seq_sum(s: Seq<u64>) -> int
    decreases s.len(),
{
    if s.len() == 0 {
        0
    } else {
        seq_sum(s.drop_last()) + s.last()
    }
}

/// Ascending order.
pub open spec fn is_sorted(s: Seq<u64>) -> bool {
    forall|a: int, b: int| 0 <= a < b < s.len() ==> s[a] <= s[b]
}

/// Index of the p99 sample among `n` sorted samples: `min(floor(0.99 n), n - 1)`.
pub open spec fn p99_index(n: nat) -> int {
    let k = (99 * n / 100) as int;
    if k < n - 1 {
        k
    } else {
        n - 1
    }
}

/// A bounded FIFO after one more item: the oldest leaves once `cap` are held.
pub open spec fn window_push<T>(w: Seq<T>, cap: nat, x: T) -> Seq<T> {
    if w.len() >= cap {
        w.drop_first().push(x)
    } else {
        w.push(x)
    }
}

/// A bounded FIFO never holds more than its capacity; once full, a push
/// drops exactly the oldest item and keeps the others in arrival order, with
/// the new one last.
pub proof fn lemma_bounded_fifo<T>(w: Seq<T>, cap: nat, x: T)
    requires
        cap > 0,
        w.len() <= cap,
    ensures
        window_push(w, cap, x).len() <= cap,
        window_push(w, cap, x).last() == x,
        w.len() < cap ==> window_push(w, cap, x).len() == w.len() + 1 && forall|i: int|
            0 <= i < w.len() ==> window_push(w, cap, x)[i] == w[i],
        w.len() == cap ==> window_push(w, cap, x).len() == cap && forall|i: int|
            0 <= i < cap - 1 ==> window_push(w, cap, x)[i] == w[i + 1],
{
}

/// A bounded FIFO after pushing `xs` in order.
pub open spec fn push_all<T>(w: Seq<T>, cap: nat, xs: Seq<T>) -> Seq<T>
    decreases xs.len(),
{
    if xs.len() == 0 {
        w
    } else {
        window_push(push_all(w, cap, xs.drop_last()), cap, xs.last())
    }
}

/// Starting empty, a bounded FIFO holds exactly the last `min(n, cap)` of
/// the `n` items pushed, oldest first.
pub proof fn lemma_fifo_keeps_latest<T>(cap: nat, xs: Seq<T>)
    requires
        cap > 0,
    ensures
        push_all(Seq::<T>::empty(), cap, xs) == xs.subrange(
            if xs.len() > cap {
                xs.len() - cap
            } else {
                0
            },
            xs.len() as int,
        ),
    decreases xs.len(),
{
    if xs.len() == 0 {
        assert(xs.subrange(0, 0) =~= Seq::<T>::empty());
    } else {
        let ys = xs.drop_last();
        lemma_fifo_keeps_latest(cap, ys);
        let s1: int = if ys.len() > cap {
            ys.len() - cap
        } else {
            0
        };
        let s: int = if xs.len() > cap {
            xs.len() - cap
        } else {
            0
        };
        let r = ys.subrange(s1, ys.len() as int);
        if r.len() >= cap {
            assert(r.drop_first().push(xs.last()) =~= xs.subrange(s, xs.len() as int));
        } else {
            assert(r.push(xs.last()) =~= xs.subrange(s, xs.len() as int));
        }
    }
}

/// Latency statistics in microseconds. The mean is `sum_us / count`; the
/// median is the average of `median_low_us` and `median_high_us`, equal when
/// the count is odd.
#[derive(Debug, Clone, Copy, PartialEq, Eq, Structural)]
pub struct LatencyStats {
    pub count: u64,
    pub sum_us: u128,
    pub median_low_us: u64,
    pub median_high_us: u64,
    pub p99_us: u64,
}

/// The statistics of samples whose sum is `sum` and which, sorted, are `s`.
pub open spec fn stats_of(sum: int, s: Seq<u64>) -> LatencyStats {
    let n = s.len() as int;
    if n == 0 {
        LatencyStats { count: 0, sum_us: 0, median_low_us: 0, median_high_us: 0, p99_us: 0 }
    } else {
        LatencyStats {
            count: n as u64,
            sum_us: sum as u128,
            median_low_us: if n % 2 == 0 {
                s[n / 2 - 1]
            } else {
                s[n / 2]
            },
            median_high_us: s[n / 2],
            p99_us: s[p99_index(n as nat)],
        }
    }
}

/// The p99 index lies within the samples for every non-empty window.
pub proof fn lemma_p99_index_in_bounds(n: nat)
    requires
        n >= 1,
    ensures
        0 <= p99_index(n) < n,
{
}

/// Counters of the pipeline and a bounded window of latency samples.
pub struct Metrics {
    packets_received: u64,
    packets_processed: u64,
    packets_dropped: u64,
    bytes_received: u64,
    latencies: VecDeque<u64>,
    max_samples: usize,
}

/// No datagram is counted both processed and dropped, nor either without
/// being counted received.
pub proof fn lemma_outcomes_within_received(m: &Metrics)
    requires
        m.wf(),
    ensures
        m.processed() + m.dropped() <= m.received(),
{
}

impl Metrics {
    pub closed spec fn received(&self) -> nat {
        self.packets_received as nat
    }

    pub closed spec fn processed(&self) -> nat {
        self.packets_processed as nat
    }

    pub closed spec fn dropped(&self) -> nat {
        self.packets_dropped as nat
    }

    pub closed spec fn bytes(&self) -> nat {
        self.bytes_received as nat
    }

    /// The latency samples held, oldest first.
    pub closed spec fn samples(&self) -> Seq<u64> {
        self.latencies@
    }

    /// The most samples the window holds.
    pub closed spec fn window_size(&self) -> nat {
        self.max_samples as nat
    }

    /// Well-formed metrics hold at most `window_size()` samples, a positive
    /// number.
    pub proof fn lemma_window_bounded(&self)
        requires
            self.wf(),
        ensures
            self.samples().len() <= self.window_size(),
            self.window_size() > 0,
    {
    }

    /// No datagram has more than one outcome, and the window keeps its bound.
    pub closed spec fn wf(&self) -> bool {
        &&& self.packets_processed + self.packets_dropped <= self.packets_received
        &&& self.latencies@.len() <= self.max_samples
        &&& self.max_samples > 0
    }

    /// Metrics with a window of the default size.
    pub fn new() -> (r: Self)
        ensures
            r.wf(),
            r.received() == 0,
            r.processed() == 0,
            r.dropped() == 0,
            r.bytes() == 0,
            r.samples() == Seq::<u64>::empty(),
            r.window_size() == DEFAULT_WINDOW,
    {
        Self::with_window(DEFAULT_WINDOW)
    }

    /// Metrics whose window holds at most `window_size` samples.
    pub fn with_window(window_size: usize) -> (r: Self)
        requires
            window_size > 0,
        ensures
            r.wf(),
            r.received() == 0,
            r.processed() == 0,
            r.dropped() == 0,
            r.bytes() == 0,
            r.samples() == Seq::<u64>::empty(),
            r.window_size() == window_size,
    {
        Metrics {
            packets_received: 0,
            packets_processed: 0,
            packets_dropped: 0,
            bytes_received: 0,
            latencies: VecDeque::with_capacity(window_size),
            max_samples: window_size,
        }
    }

    pub fn packets_received(&self) -> (r: u64)
        ensures
            r == self.received(),
    {
        self.packets_received
    }

    pub fn packets_processed(&self) -> (r: u64)
        ensures
            r == self.processed(),
    {
        self.packets_processed
    }

    pub fn packets_dropped(&self) -> (r: u64)
        ensures
            r == self.dropped(),
    {
        self.packets_dropped
    }

    pub fn bytes_received(&self) -> (r: u64)
        ensures
            r == self.bytes(),
    {
        self.bytes_received
    }

    pub fn sample_count(&self) -> (r: usize)
        ensures
            r == self.samples().len(),
            self.wf() ==> r <= self.window_size(),
    {
        self.latencies.len()
    }

    /// Adds a latency sample, evicting the oldest when the window is full.
    pub fn add_latency(&mut self, latency_us: u64)
        requires
            old(self).wf(),
        ensures
            final(self).wf(),
            final(self).samples().len() <= final(self).window_size(),
            final(self).samples() == window_push(
                old(self).samples(),
                old(self).window_size(),
                latency_us,
            ),
            final(self).window_size() == old(self).window_size(),
            final(self).received() == old(self).received(),
            final(self).processed() == old(self).processed(),
            final(self).dropped() == old(self).dropped(),
            final(self).bytes() == old(self).bytes(),
    {
        if self.latencies.len() >= self.max_samples {
            self.latencies.pop_front();
        }
        self.latencies.push_back(latency_us);
        proof {
            assert(self.latencies@ =~= window_push(
                old(self).latencies@,
                old(self).max_samples as nat,
                latency_us,
            ));
        }
    }

    /// Counts one more datagram of `len` bytes.
    fn count_received(&mut self, len: u64)
        requires
            old(self).wf(),
            old(self).packets_received < u64::MAX,
            old(self).bytes_received + len <= u64::MAX,
        ensures
            final(self).packets_received == old(self).packets_received + 1,
            final(self).bytes_received == old(self).bytes_received + len,
            final(self).packets_processed == old(self).packets_processed,
            final(self).packets_dropped == old(self).packets_dropped,
            final(self).latencies == old(self).latencies,
            final(self).max_samples == old(self).max_samples,
            old(self).packets_processed + old(self).packets_dropped < old(self).packets_received
                + 1,
    {
        self.packets_received += 1;
        self.bytes_received += len;
    }

    /// A datagram of `len` bytes that was decoded and judged in time.
    pub fn record_processed(&mut self, len: u64, latency_us: u64)
        requires
            old(self).wf(),
            old(self).received() < u64::MAX,
            old(self).bytes() + len <= u64::MAX,
        ensures
            final(self).wf(),
            final(self).samples().len() <= final(self).window_size(),
            final(self).received() == old(self).received() + 1,
            final(self).bytes() == old(self).bytes() + len,
            final(self).processed() == old(self).processed() + 1,
            final(self).dropped() == old(self).dropped(),
            final(self).samples() == window_push(
                old(self).samples(),
                old(self).window_size(),
                latency_us,
            ),
            final(self).window_size() == old(self).window_size(),
    {
        self.count_received(len);
        self.packets_processed += 1;
        self.add_latency(latency_us);
    }

    /// A datagram of `len` bytes that was decoded but took longer than the
    /// budget: dropped, and its latency still sampled.
    pub fn record_late(&mut self, len: u64, latency_us: u64)
        requires
            old(self).wf(),
            old(self).received() < u64::MAX,
            old(self).bytes() + len <= u64::MAX,
        ensures
            final(self).wf(),
            final(self).samples().len() <= final(self).window_size(),
            final(self).received() == old(self).received() + 1,
            final(self).bytes() == old(self).bytes() + len,
            final(self).processed() == old(self).processed(),
            final(self).dropped() == old(self).dropped() + 1,
            final(self).samples() == window_push(
                old(self).samples(),
                old(self).window_size(),
                latency_us,
            ),
            final(self).window_size() == old(self).window_size(),
    {
        self.count_received(len);
        self.packets_dropped += 1;
        self.add_latency(latency_us);
    }

    /// A datagram of `len` bytes that could not be decoded: dropped before
    /// any latency was measured.
    pub fn record_undecodable(&mut self, len: u64)
        requires
            old(self).wf(),
            old(self).received() < u64::MAX,
            old(self).bytes() + len <= u64::MAX,
        ensures
            final(self).wf(),
            final(self).samples().len() <= final(self).window_size(),
            final(self).received() == old(self).received() + 1,
            final(self).bytes() == old(self).bytes() + len,
            final(self).processed() == old(self).processed(),
            final(self).dropped() == old(self).dropped() + 1,
            final(self).samples() == old(self).samples(),
            final(self).window_size() == old(self).window_size(),
    {
        self.count_received(len);
        self.packets_dropped += 1;
    }

    /// The samples in ascending order.
    pub fn sorted_latencies(&self) -> (r: Vec<u64>)
        ensures
            is_sorted(r@),
            r@.to_multiset() == self.samples().to_multiset(),
    {
        let n = self.latencies.len();
        let mut out: Vec<u64> = Vec::with_capacity(n);
        let mut i: usize = 0;
        proof {
            assert(self.latencies@.subrange(0, 0) =~= out@);
        }
        while i < n
            invariant
                n == self.latencies@.len(),
                i <= n,
                is_sorted(out@),
                out@.len() == i,
                out@.to_multiset() == self.latencies@.subrange(0, i as int).to_multiset(),
            decreases n - i,
        {
            let x = self.latencies[i];
            let mut p: usize = 0;
            while p < out.len() && out[p] <= x
                invariant
                    p <= out@.len(),
                    forall|k: int| 0 <= k < p ==> out@[k] <= x,
                decreases out@.len() - p,
            {
                p += 1;
            }
            let ghost before = out@;
            out.insert(p, x);
            proof {
                assert forall|a: int, b: int| 0 <= a < b < out@.len() implies out@[a]
                    <= out@[b] by {
                    if b < p {
                    } else if b == p {
                        assert(out@[a] == before[a]);
                    } else if a < p {
                        assert(out@[b] == before[b - 1]);
                        assert(before[b - 1] >= before[p as int]);
                    } else if a == p {
                        assert(out@[b] == before[b - 1]);
                        assert(before[b - 1] >= before[p as int]);
                    } else {
                        assert(out@[a] == before[a - 1]);
                        assert(out@[b] == before[b - 1]);
                    }
                }
                to_multiset_insert(before, p as int, x);
                let s = self.latencies@;
                assert(s.subrange(0, i + 1) =~= s.subrange(0, i as int).push(x));
                to_multiset_build(s.subrange(0, i as int), x);
            }
            i += 1;
        }
        proof {
            assert(self.latencies@.subrange(0, n as int) =~= self.latencies@);
        }
        out
    }

    /// Sum of the samples.
    fn latency_sum(&self) -> (r: u128)
        ensures
            r == seq_sum(self.samples()),
    {
        let n = self.latencies.len();
        let mut sum: u128 = 0;
        let mut i: usize = 0;
        while i < n
            invariant
                n == self.latencies@.len(),
                i <= n,
                sum == seq_sum(self.latencies@.subrange(0, i as int)),
                sum <= i * 0xffff_ffff_ffff_ffff,
            decreases n - i,
        {
            let x = self.latencies[i];
            proof {
                let s = self.latencies@;
                assert(s.subrange(0, i + 1).drop_last() =~= s.subrange(0, i as int));
                assert(sum + x <= (i + 1) * 0xffff_ffff_ffff_ffff) by (nonlinear_arith)
                    requires
                        sum <= i * 0xffff_ffff_ffff_ffff,
                        x <= 0xffff_ffff_ffff_ffff,
                ;
                assert((i + 1) * 0xffff_ffff_ffff_ffff <= 0xffff_ffff_ffff_ffff_ffff_ffff_ffff_ffff)
                    by (nonlinear_arith)
                    requires
                        i < 0x1_0000_0000_0000_0000,
                ;
            }
            sum = sum + x as u128;
            i += 1;
        }
        proof {
            assert(self.latencies@.subrange(0, n as int) =~= self.latencies@);
        }
        sum
    }

    /// Mean, median and p99 of the window, over its samples sorted in
    /// ascending order; all zero for an empty window.
    pub fn latency_stats(&self) -> (r: LatencyStats)
        ensures
            exists|s: Seq<u64>|
                #![auto]
                is_sorted(s) && s.to_multiset() == self.samples().to_multiset() && r == stats_of(
                    seq_sum(self.samples()),
                    s,
                ),
    {
        let data = self.sorted_latencies();
        let sum = self.latency_sum();
        let n = data.len();
        proof {
            self.samples().to_multiset_ensures();
            data@.to_multiset_ensures();
        }
        let r = if n == 0 {
            LatencyStats { count: 0, sum_us: 0, median_low_us: 0, median_high_us: 0, p99_us: 0 }
        } else {
            let high = data[n / 2];
            let low = if n % 2 == 0 {
                data[n / 2 - 1]
            } else {
                high
            };
            let k = n / 100 * 99 + (n % 100) * 99 / 100;
            proof {
                assert(k == 99 * n / 100) by (nonlinear_arith)
                    requires
                        k == n / 100 * 99 + (n % 100) * 99 / 100,
                ;
            }
            let p = if k < n - 1 {
                k
            } else {
                n - 1
            };
            LatencyStats {
                count: n as u64,
                sum_us: sum,
                median_low_us: low,
                median_high_us: high,
                p99_us: data[p],
            }
        };
        proof {
            assert(r == stats_of(seq_sum(self.samples()), data@));
        }
        r
    }

    /// Received datagrams per second over `elapsed_us` microseconds, rounded
    /// down; zero when no time has passed.
    pub fn throughput_pps(&self, elapsed_us: u64) -> (r: u128)
        ensures
            elapsed_us == 0 ==> r == 0,
            elapsed_us > 0 ==> r == (self.received() * 1_000_000) as int / (elapsed_us as int),
    {
        if elapsed_us == 0 {
            0
        } else {
            (self.packets_received as u128) * 1_000_000 / (elapsed_us as u128)
        }
    }

    /// Share of received datagrams that were dropped, in hundredths of a
    /// percent, rounded down; zero when nothing was received.
    pub fn packet_loss_rate(&self) -> (r: u64)
        requires
            self.wf(),
        ensures
            self.received() == 0 ==> r == 0,
            self.received() > 0 ==> r == self.dropped() * 10_000 / self.received(),
            r <= 10_000,
    {
        if self.packets_received == 0 {
            0
        } else {
            let d = self.packets_dropped as u128;
            let n = self.packets_received as u128;
            let r = d * 10_000 / n;
            proof {
                assert(r <= 10_000) by (nonlinear_arith)
                    requires
                        r as int == (d * 10_000) as int / (n as int),
                        d <= n,
                        n > 0,
                ;
            }
            r as u64
        }
    }

    /// Whether p99 latency stays under 10 ms and loss under 0.1 %.
    pub fn meets_requirements(&self) -> (r: bool)
        requires
            self.wf(),
        ensures
            exists|s: Seq<u64>|
                #![auto]
                is_sorted(s) && s.to_multiset() == self.samples().to_multiset() && r == (stats_of(
                    seq_sum(self.samples()),
                    s,
                ).p99_us < P99_LIMIT_US && (self.received() == 0 || 1000 * self.dropped()
                    < self.received())),
    {
        let stats = self.latency_stats();
        let r = stats.p99_us < P99_LIMIT_US && (self.packets_received == 0
            || (self.packets_dropped as u128) * 1000 < self.packets_received as u128);
        proof {
            let s = choose|s: Seq<u64>|
                #![auto]
                is_sorted(s) && s.to_multiset() == self.samples().to_multiset() && stats
                    == stats_of(seq_sum(self.samples()), s);
            assert(is_sorted(s) && s.to_multiset() == self.samples().to_multiset() && r == (
            stats_of(seq_sum(self.samples()), s).p99_us < P99_LIMIT_US && (self.received() == 0
                || 1000 * self.dropped() < self.received())));
        }
        r
    }
}

} // verus!
