//! Processing under a latency budget: per-datagram accept or drop decisions, the recency
//! buffer of accepted datagrams, the synthetic cost model and the sampling of
//! accepted records for observers.
use crate::metrics::{window_push, Metrics};
use crate::telemetry::{
    packet_id_of, priority_of, speed_of, DecodeError, FastTelemetry,
};
use rand::Rng;
use std::collections::VecDeque;
use vstd::arithmetic::div_mod::lemma_fundamental_div_mod_converse;
use vstd::prelude::*;

verus! {

/// Default latency budget per datagram: 10 ms.
pub const DEFAULT_MAX_LATENCY_US: u64 = 10_000;

/// Default capacity of the recency buffer.
pub const DEFAULT_BUFFER_CAPACITY: usize = 1000;

/// By default every tenth accepted record is sampled for observers.
pub const DEFAULT_SAMPLE_EVERY: u64 = 10;

/// Accepted records between two reclamation pauses.
pub const GC_INTERVAL: u64 = 10_000;

/// Speeds above this many km/h double the synthetic cost.
pub const FAST_SPEED_KMH: u16 = 300;

/// Largest bound of a tier's delay range, so that a spiked cost fits.
pub const MAX_TIER_DELAY_US: u64 = 1_000_000_000;

/// Chance of a cost spike, as numerator over denominator: 5 %.
pub const SPIKE_NUMERATOR: u32 = 5;
pub const SPIKE_DENOMINATOR: u32 = 100;

/// Chance of a simulated transport corruption: 0.1 %.
pub const CORRUPTION_NUMERATOR: u32 = 1;
pub const CORRUPTION_DENOMINATOR: u32 = 1000;

/// Relies on rand's `thread_rng().gen_range(lo..hi)`: a value in `lo..hi`;
/// it panics on an empty range, which `requires` leaves out.
#[verifier::external_body]
fn random_in_range(lo: u64, hi: u64) -> (r: u64)
    requires
        lo < hi,
    ensures
        lo <= r < hi,
{
    rand::thread_rng().gen_range(lo..hi)
}

/// Relies on rand's `thread_rng().gen_ratio(n, d)`: `true` with chance n/d,
/// always `false` for n = 0 and always `true` for n = d; it panics for d = 0
/// or n > d, which `requires` leaves out.
#[verifier::external_body]
fn random_ratio(numerator: u32, denominator: u32) -> (r: bool)
    requires
        0 < denominator,
        numerator <= denominator,
    ensures
        numerator == 0 ==> !r,
        numerator == denominator ==> r,
{
    rand::thread_rng().gen_ratio(numerator, denominator)
}

/// The decoded fields that processing works on.
#[derive(Debug, Clone, Copy, PartialEq, Eq, Structural)]
pub struct PacketInfo {
    pub packet_id: u32,
    pub priority: u8,
    /// Present only while load simulation is on and the record holds a speed.
    pub speed: Option<u16>,
}

/// Why a datagram was dropped.
#[derive(Debug, Clone, Copy, PartialEq, Eq, Structural)]
pub enum DropReason {
    /// Simulated transport corruption.
    Corrupted,
    /// The bytes are no valid record.
    Malformed(DecodeError),
    /// Decoded, but processing took longer than the budget.
    LatencyBudgetExceeded { packet_id: u32, latency_us: u64 },
}

/// What became of a datagram that was decoded and timed.
#[derive(Debug, Clone, Copy, PartialEq, Eq, Structural)]
pub enum Verdict {
    /// Counted processed and kept in the recency buffer.
    Accepted {
        /// This record is to be fully decoded and published to observers.
        publish_sample: bool,
        /// The reclamation pause is due now, outside any record's latency.
        pause: bool,
    },
    /// Counted dropped; its latency was still sampled.
    Dropped(DropReason),
}

/// A delay range `lo..hi` in microseconds.
#[derive(Debug, Clone, Copy, PartialEq, Eq, Structural)]
pub struct DelayRange {
    pub lo: u64,
    pub hi: u64,
}

/// Delay ranges of the synthetic cost model, one per priority tier.
#[derive(Debug, Clone, Copy, PartialEq, Eq, Structural)]
pub struct CostModel {
    pub critical: DelayRange,
    pub high: DelayRange,
    pub low: DelayRange,
}

/// A range that can be drawn from and whose spiked cost fits.
pub open spec fn range_ok(r: DelayRange) -> bool {
    r.lo < r.hi <= MAX_TIER_DELAY_US
}

/// The range of a priority tier; every tier beyond the second is low.
pub open spec fn tier_range(m: CostModel, priority: u8) -> DelayRange {
    if priority == 0 {
        m.critical
    } else if priority == 1 {
        m.high
    } else {
        m.low
    }
}

/// The cost of a record: the base delay, doubled above 300 km/h, and ten
/// times that on a spike.
pub open spec fn cost_spec(base: u64, speed: u16, spike: bool) -> int {
    let d = if speed > FAST_SPEED_KMH {
        2 * base
    } else {
        base as int
    };
    if spike {
        10 * d
    } else {
        d
    }
}

/// Under a well-formed model every base delay of a higher tier exceeds every
/// base delay of a lower one.
pub proof fn lemma_tiers_ordered(m: CostModel, b0: u64, b1: u64, b2: u64)
    requires
        m.wf(),
        m.critical.lo <= b0 < m.critical.hi,
        m.high.lo <= b1 < m.high.hi,
        m.low.lo <= b2 < m.low.hi,
    ensures
        b0 < b1 < b2,
{
}

impl CostModel {
    /// Each range can be drawn from, and the three are disjoint and ordered:
    /// critical work is cheapest, low-priority work dearest.
    pub open spec fn wf(&self) -> bool {
        &&& range_ok(self.critical) && range_ok(self.high) && range_ok(self.low)
        &&& self.critical.hi <= self.high.lo
        &&& self.high.hi <= self.low.lo
    }

    /// The default ranges, disjoint and ordered by tier: 50..150 µs for
    /// critical, 150..400 µs for high and 400..800 µs for low priority.
    pub fn new() -> (r: Self)
        ensures
            r.wf(),
            r.critical == (DelayRange { lo: 50, hi: 150 }),
            r.high == (DelayRange { lo: 150, hi: 400 }),
            r.low == (DelayRange { lo: 400, hi: 800 }),
    {
        CostModel {
            critical: DelayRange { lo: 50, hi: 150 },
            high: DelayRange { lo: 150, hi: 400 },
            low: DelayRange { lo: 400, hi: 800 },
        }
    }

    /// A model with the given ranges, which must be disjoint and ordered.
    pub fn with_ranges(critical: DelayRange, high: DelayRange, low: DelayRange) -> (r: Option<Self>)
        ensures
            r is Some <==> (CostModel { critical, high, low }).wf(),
            r is Some ==> r == Some(CostModel { critical, high, low }),
    {
        let m = CostModel { critical, high, low };
        if critical.lo < critical.hi && critical.hi <= MAX_TIER_DELAY_US && high.lo < high.hi
            && high.hi <= MAX_TIER_DELAY_US && low.lo < low.hi && low.hi <= MAX_TIER_DELAY_US
            && critical.hi <= high.lo && high.hi <= low.lo {
            Some(m)
        } else {
            None
        }
    }

    /// The delay range of a priority tier.
    pub fn tier(&self, priority: u8) -> (r: DelayRange)
        ensures
            r == tier_range(*self, priority),
    {
        if priority == 0 {
            self.critical
        } else if priority == 1 {
            self.high
        } else {
            self.low
        }
    }

    /// The cost for a given base delay, speed and spike.
    pub fn cost_us(base: u64, speed: u16, spike: bool) -> (r: u64)
        requires
            base < MAX_TIER_DELAY_US,
        ensures
            r == cost_spec(base, speed, spike),
    {
        let d = if speed > FAST_SPEED_KMH {
            2 * base
        } else {
            base
        };
        if spike {
            10 * d
        } else {
            d
        }
    }

    /// Draws the cost of a record of the given tier and speed: a base delay
    /// from the tier's range, and a spike with chance 5 %.
    pub fn draw_cost_us(&self, priority: u8, speed: u16) -> (r: u64)
        requires
            self.wf(),
        ensures
            exists|base: u64, spike: bool|
                tier_range(*self, priority).lo <= base < tier_range(*self, priority).hi && r
                    == cost_spec(base, speed, spike),
    {
        let range = self.tier(priority);
        let base = random_in_range(range.lo, range.hi);
        let spike = random_ratio(SPIKE_NUMERATOR, SPIKE_DENOMINATOR);
        let r = Self::cost_us(base, speed, spike);
        proof {
            assert(tier_range(*self, priority).lo <= base < tier_range(*self, priority).hi && r
                == cost_spec(base, speed, spike));
        }
        r
    }
}

/// Reads the fields that processing needs. The id is required; a record
/// without a priority counts as high; the speed is read only under load
/// simulation, and a record without one is not simulated. A malformed value
/// under any of these keys refuses the record.
pub open spec fn packet_info_of(data: Seq<u8>, simulate_load: bool) -> Result<
    PacketInfo,
    DecodeError,
> {
    match packet_id_of(data) {
        Err(e) => Err(e),
        Ok(id) => match priority_of(data) {
            Err(e) => Err(e),
            Ok(p) => if !simulate_load {
                Ok(PacketInfo { packet_id: id, priority: p, speed: None })
            } else {
                match speed_of(data) {
                    Ok(v) => Ok(PacketInfo { packet_id: id, priority: p, speed: Some(v) }),
                    Err(DecodeError::FieldNotFound) => Ok(
                        PacketInfo { packet_id: id, priority: p, speed: None },
                    ),
                    Err(e) => Err(e),
                }
            },
        },
    }
}

/// The processor: it judges each datagram against the latency budget and
/// keeps the most recently accepted ones.
pub struct TelemetryProcessor {
    packet_buffer: VecDeque<Vec<u8>>,
    buffer_capacity: usize,
    packets_since_last_gc: u64,
    simulate_load: bool,
    max_latency_us: u64,
    sample_every: u64,
}

impl TelemetryProcessor {
    /// The accepted datagrams held, oldest first.
    pub closed spec fn buffer(&self) -> Seq<Vec<u8>> {
        self.packet_buffer@
    }

    pub closed spec fn capacity(&self) -> nat {
        self.buffer_capacity as nat
    }

    pub closed spec fn budget_us(&self) -> u64 {
        self.max_latency_us
    }

    pub closed spec fn sampling_ratio(&self) -> nat {
        self.sample_every as nat
    }

    pub closed spec fn load_simulated(&self) -> bool {
        self.simulate_load
    }

    /// Accepted records since the last reclamation pause.
    pub closed spec fn since_pause(&self) -> nat {
        self.packets_since_last_gc as nat
    }

    /// A well-formed processor never holds more datagrams than its capacity,
    /// which is positive.
    pub proof fn lemma_buffer_bounded(&self)
        requires
            self.wf(),
        ensures
            self.buffer().len() <= self.capacity(),
            self.capacity() > 0,
            self.sampling_ratio() > 0,
    {
    }

    pub closed spec fn wf(&self) -> bool {
        &&& self.packet_buffer@.len() <= self.buffer_capacity
        &&& self.buffer_capacity > 0
        &&& self.sample_every > 0
        &&& self.packets_since_last_gc < GC_INTERVAL
    }

    /// A processor with the default budget (10 ms), buffer capacity (1000)
    /// and sampling ratio (every tenth accepted record).
    pub fn new(simulate_load: bool) -> (r: Self)
        ensures
            r.wf(),
            r.buffer() == Seq::<Vec<u8>>::empty(),
            r.capacity() == DEFAULT_BUFFER_CAPACITY,
            r.budget_us() == DEFAULT_MAX_LATENCY_US,
            r.sampling_ratio() == DEFAULT_SAMPLE_EVERY,
            r.load_simulated() == simulate_load,
            r.since_pause() == 0,
    {
        Self::with_config(
            simulate_load,
            DEFAULT_MAX_LATENCY_US,
            DEFAULT_BUFFER_CAPACITY,
            DEFAULT_SAMPLE_EVERY,
        )
    }

    /// A processor with the given budget, buffer capacity and sampling ratio.
    pub fn with_config(
        simulate_load: bool,
        max_latency_us: u64,
        buffer_capacity: usize,
        sample_every: u64,
    ) -> (r: Self)
        requires
            buffer_capacity > 0,
            sample_every > 0,
        ensures
            r.wf(),
            r.buffer() == Seq::<Vec<u8>>::empty(),
            r.capacity() == buffer_capacity,
            r.budget_us() == max_latency_us,
            r.sampling_ratio() == sample_every,
            r.load_simulated() == simulate_load,
            r.since_pause() == 0,
    {
        TelemetryProcessor {
            packet_buffer: VecDeque::new(),
            buffer_capacity,
            packets_since_last_gc: 0,
            simulate_load,
            max_latency_us,
            sample_every,
        }
    }

    /// Buffer occupancy and capacity.
    pub fn buffer_stats(&self) -> (r: (usize, usize))
        requires
            self.wf(),
        ensures
            r.0 == self.buffer().len(),
            r.1 == self.capacity(),
            r.0 <= r.1,
            r.1 > 0,
    {
        (self.packet_buffer.len(), self.buffer_capacity)
    }

    /// The `i`-th datagram held, counted from the oldest.
    pub fn recent(&self, i: usize) -> (r: &Vec<u8>)
        requires
            i < self.buffer().len(),
        ensures
            *r == self.buffer()[i as int],
    {
        &self.packet_buffer[i]
    }

    /// Whether load simulation is on.
    pub fn simulate_load(&self) -> (r: bool)
        ensures
            r == self.load_simulated(),
    {
        self.simulate_load
    }

    /// Reads the fields that processing needs from a datagram.
    pub fn decode_fields(&self, data: &[u8]) -> (r: Result<PacketInfo, DecodeError>)
        ensures
            r == packet_info_of(data@, self.load_simulated()),
    {
        let mut fast = FastTelemetry::new(data);
        let packet_id = fast.packet_id()?;
        let priority = fast.priority()?;
        let speed = if self.simulate_load {
            match fast.speed() {
                Ok(v) => Some(v),
                Err(DecodeError::FieldNotFound) => None,
                Err(e) => {
                    return Err(e);
                },
            }
        } else {
            None
        };
        Ok(PacketInfo { packet_id, priority, speed })
    }

    /// Keeps an accepted datagram, evicting the oldest when the buffer is full.
    fn push_recent(&mut self, data: Vec<u8>)
        requires
            old(self).wf(),
        ensures
            final(self).wf(),
            final(self).buffer() == window_push(old(self).buffer(), old(self).capacity(), data),
            final(self).buffer_capacity == old(self).buffer_capacity,
            final(self).packets_since_last_gc == old(self).packets_since_last_gc,
            final(self).simulate_load == old(self).simulate_load,
            final(self).max_latency_us == old(self).max_latency_us,
            final(self).sample_every == old(self).sample_every,
    {
        if self.packet_buffer.len() >= self.buffer_capacity {
            self.packet_buffer.pop_front();
        }
        self.packet_buffer.push_back(data);
        proof {
            assert(self.packet_buffer@ =~= window_push(
                old(self).packet_buffer@,
                old(self).buffer_capacity as nat,
                data,
            ));
        }
    }

    /// Counts a datagram that could not be used: dropped before any latency
    /// was measured.
    pub fn reject(&self, metrics: &mut Metrics, len: u64)
        requires
            old(metrics).wf(),
            old(metrics).received() < u64::MAX,
            old(metrics).bytes() + len <= u64::MAX,
        ensures
            final(metrics).wf(),
            final(metrics).received() == old(metrics).received() + 1,
            final(metrics).bytes() == old(metrics).bytes() + len,
            final(metrics).processed() == old(metrics).processed(),
            final(metrics).dropped() == old(metrics).dropped() + 1,
            final(metrics).samples() == old(metrics).samples(),
            final(metrics).window_size() == old(metrics).window_size(),
    {
        metrics.record_undecodable(len);
    }

    /// Judges a decoded datagram by the time spent on it. Over the budget it
    /// is dropped; otherwise it is processed and kept, every n-th accepted
    /// record (n the sampling ratio, counted from the start) is marked for
    /// publication, and each 10 000th acceptance brings the reclamation pause
    /// when load is simulated. Either way its latency is sampled.
    pub fn finish(
        &mut self,
        metrics: &mut Metrics,
        data: Vec<u8>,
        info: PacketInfo,
        latency_us: u64,
    ) -> (r: Verdict)
        requires
            old(self).wf(),
            old(metrics).wf(),
            old(metrics).received() < u64::MAX,
            old(metrics).bytes() + data@.len() <= u64::MAX,
        ensures
            final(self).wf(),
            final(self).buffer().len() <= final(self).capacity(),
            final(metrics).samples().len() <= final(metrics).window_size(),
            final(metrics).wf(),
            final(metrics).received() == old(metrics).received() + 1,
            final(metrics).bytes() == old(metrics).bytes() + data@.len(),
            final(metrics).samples() == window_push(
                old(metrics).samples(),
                old(metrics).window_size(),
                latency_us,
            ),
            final(metrics).window_size() == old(metrics).window_size(),
            final(self).capacity() == old(self).capacity(),
            final(self).budget_us() == old(self).budget_us(),
            final(self).sampling_ratio() == old(self).sampling_ratio(),
            final(self).load_simulated() == old(self).load_simulated(),
            latency_us > old(self).budget_us() ==> {
                &&& r == Verdict::Dropped(
                    DropReason::LatencyBudgetExceeded { packet_id: info.packet_id, latency_us },
                )
                &&& final(metrics).processed() == old(metrics).processed()
                &&& final(metrics).dropped() == old(metrics).dropped() + 1
                &&& final(self).buffer() == old(self).buffer()
                &&& final(self).since_pause() == old(self).since_pause()
            },
            latency_us <= old(self).budget_us() ==> {
                &&& r == Verdict::Accepted {
                    publish_sample: final(metrics).processed() % old(self).sampling_ratio() == 0,
                    pause: old(self).load_simulated() && old(self).since_pause() + 1
                        == GC_INTERVAL,
                }
                &&& final(metrics).processed() == old(metrics).processed() + 1
                &&& final(metrics).dropped() == old(metrics).dropped()
                &&& final(self).buffer() == window_push(old(self).buffer(), old(self).capacity(), data)
                &&& final(self).since_pause() == ((old(self).since_pause() + 1) % (GC_INTERVAL as nat)) as nat
            },
    {
        let len = data.len() as u64;
        if latency_us > self.max_latency_us {
            metrics.record_late(len, latency_us);
            return Verdict::Dropped(
                DropReason::LatencyBudgetExceeded { packet_id: info.packet_id, latency_us },
            );
        }
        metrics.record_processed(len, latency_us);
        self.push_recent(data);
        let publish_sample = metrics.packets_processed() % self.sample_every == 0;
        let mut pause = false;
        self.packets_since_last_gc += 1;
        if self.packets_since_last_gc == GC_INTERVAL {
            pause = self.simulate_load;
            self.packets_since_last_gc = 0;
        }
        Verdict::Accepted { publish_sample, pause }
    }
}

/// Stage before processing: hands the datagram on, or, when corruption is
/// simulated, loses one in a thousand as corrupted in transit.
pub struct PacketDecoder {
    simulate_corruption: bool,
}

impl PacketDecoder {
    pub closed spec fn corrupts(&self) -> bool {
        self.simulate_corruption
    }

    pub fn new(simulate_corruption: bool) -> (r: Self)
        ensures
            r.corrupts() == simulate_corruption,
    {
        PacketDecoder { simulate_corruption }
    }

    /// A copy of the datagram, or `Corrupted` (only while corruption is
    /// simulated).
    pub fn decode_raw(&self, data: &[u8]) -> (r: Result<Vec<u8>, DropReason>)
        ensures
            match r {
                Ok(v) => v@ == data@,
                Err(e) => self.corrupts() && e == DropReason::Corrupted,
            },
            !self.corrupts() ==> r is Ok,
    {
        if self.simulate_corruption && random_ratio(CORRUPTION_NUMERATOR, CORRUPTION_DENOMINATOR) {
            return Err(DropReason::Corrupted);
        }
        Ok(vstd::slice::slice_to_vec(data))
    }
}

/// Records sampled among the first `k` accepted ones when every `n`-th is.
pub open spec fn samples_published(k: nat, n: nat) -> nat
    decreases k,
{
    if k == 0 {
        0
    } else {
        samples_published((k - 1) as nat, n) + if k % n == 0 {
            1nat
        } else {
            0nat
        }
    }
}

/// Sampling every `n`-th accepted record publishes exactly `k / n` of the
/// first `k`: one at each multiple of `n`, none between.
pub proof fn lemma_every_nth_sampled(k: nat, n: nat)
    requires
        n > 0,
    ensures
        samples_published(k, n) == k / n,
    decreases k,
{
    if k > 0 {
        lemma_every_nth_sampled((k - 1) as nat, n);
        let q = ((k - 1) as int) / (n as int);
        let r = ((k - 1) as int) % (n as int);
        assert((k - 1) as int == q * n + r && 0 <= r < n) by (nonlinear_arith)
            requires
                n > 0,
                q == ((k - 1) as int) / (n as int),
                r == ((k - 1) as int) % (n as int),
        ;
        if r == n - 1 {
            assert(k as int == (q + 1) * n + 0) by (nonlinear_arith)
                requires
                    (k - 1) as int == q * n + r,
                    r == n - 1,
            ;
            lemma_fundamental_div_mod_converse(k as int, n as int, q + 1, 0);
        } else {
            assert(k as int == q * n + (r + 1)) by (nonlinear_arith)
                requires
                    (k - 1) as int == q * n + r,
            ;
            lemma_fundamental_div_mod_converse(k as int, n as int, q, r + 1);
        }
    }
}

} // verus!
