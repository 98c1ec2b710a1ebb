//! Apoptosis: the periodic sweep that prunes dead routing entries and
//! expired pings. The bookkeeping of a sweep (when it is due, which entries
//! die, what the report says) is decided here; walking the routing table
//! and the transport queues is done by the caller.

use vstd::prelude::*;

use crate::dht::messages::{expired_pings, ping_expired, PendingPings};
use crate::dht::routing::{
    lemma_filter_run, outlived, survives, NodeEntry, RoutingTable, SweepLimits,
};

verus! {

/// Maximum consecutive failures before a node is pruned.
pub const MAX_FAILURES: u32 = 3;

/// Maximum acceptable round-trip time in milliseconds; slower nodes are pruned.
pub const MAX_LATENCY_MS: u32 = 500;

/// [`MAX_LATENCY_MS`] as a latency order key: the bit pattern of the
/// 32-bit float 500.0, which orders against other non-negative latencies
/// as the values do.
pub const MAX_LATENCY_KEY: u32 = 0x43FA_0000;

/// Maximum idle time in seconds since a node was last seen.
pub const MAX_STALE_SECS: u64 = 600;

/// Maximum age in seconds of a pending PING before it counts as lost.
pub const PENDING_PING_TIMEOUT_S: u64 = 10;

/// [`MAX_STALE_SECS`] in milliseconds.
pub const MAX_STALE_MS: u64 = 600_000;

/// [`PENDING_PING_TIMEOUT_S`] in milliseconds.
pub const PENDING_PING_TIMEOUT_MS: u64 = 10_000;

/// Engine ticks between sweeps.
pub const SWEEP_INTERVAL_TICKS: u64 = 1000;

/// Deaths in one sweep above which the network is in a death spiral.
pub const DEATH_SPIRAL_THRESHOLD: usize = 50;

/// Summary of what one sweep pruned.
#[derive(Debug, Clone)]
pub struct ApoptosisReport {
    /// DHT routing entries evicted.
    pub dht_nodes_evicted: usize,
    /// Pending PINGs expired.
    pub pending_pings_expired: usize,
    /// Reliable data frames purged.
    pub data_frames_purged: usize,
    /// Sum of all deaths.
    pub total_deaths: usize,
    /// Milliseconds the sweep took.
    pub sweep_duration_ms: u64,
}

impl Default for ApoptosisReport {
    fn default() -> (r: Self)
        ensures
            r.dht_nodes_evicted == 0,
            r.pending_pings_expired == 0,
            r.data_frames_purged == 0,
            r.total_deaths == 0,
            r.sweep_duration_ms == 0,
    {
        ApoptosisReport {
            dht_nodes_evicted: 0,
            pending_pings_expired: 0,
            data_frames_purged: 0,
            total_deaths: 0,
            sweep_duration_ms: 0,
        }
    }
}

/// The pruning garbage collector's running state.
pub struct ApoptosisSystem {
    last_sweep_tick: u64,
    /// Cumulative deaths since boot.
    pub cumulative_deaths: u64,
    /// Most deaths seen in a single sweep.
    pub peak_deaths_per_sweep: usize,
}

impl Default for ApoptosisSystem {
    fn default() -> (s: Self)
        ensures
            s.spec_last_sweep_tick() == 0,
            s.spec_cumulative_deaths() == 0,
            s.spec_peak_deaths() == 0,
    {
        ApoptosisSystem::new()
    }
}

/// Whether a routing entry dies in a sweep: too many failures, too slow,
/// or not seen for too long.
pub open spec fn spec_should_evict(fail_count: u32, laggy: bool, stale: bool) -> bool {
    fail_count >= MAX_FAILURES || laggy || stale
}

/// Whether a routing entry dies in a sweep. `laggy` is whether its latency
/// exceeds [`MAX_LATENCY_MS`], `stale` whether it was last seen more than
/// [`MAX_STALE_SECS`] ago.
pub fn should_evict(fail_count: u32, laggy: bool, stale: bool) -> (b: bool)
    ensures
        b == spec_should_evict(fail_count, laggy, stale),
{
    fail_count >= MAX_FAILURES || laggy || stale
}

/// The limits of the routing-table sweep: more than [`MAX_LATENCY_MS`]
/// of latency, silent for more than [`MAX_STALE_SECS`], or
/// [`MAX_FAILURES`] failures in a row.
pub open spec fn sweep_limits() -> SweepLimits {
    SweepLimits {
        max_latency_key: MAX_LATENCY_KEY,
        max_idle_ms: MAX_STALE_MS,
        max_failures: MAX_FAILURES,
    }
}

/// The limits of the routing-table sweep (see [`sweep_limits`]).
pub fn routing_sweep_limits() -> (l: SweepLimits)
    ensures
        l == sweep_limits(),
{
    SweepLimits {
        max_latency_key: MAX_LATENCY_KEY,
        max_idle_ms: MAX_STALE_MS,
        max_failures: MAX_FAILURES,
    }
}

/// Law: a sweep prunes exactly the entries it should. After it, no
/// routing entry has failed too often, is too slow or has been silent too
/// long, each remaining entry was there before in the same bucket, and
/// every entry that was fresh is still there; of the pending pings, none
/// has waited too long and every other one remains with its send time.
pub proof fn lemma_sweep_prunes_exactly(
    buckets: Seq<Seq<NodeEntry>>,
    pending: Map<u32, u64>,
    now_ms: u64,
)
    ensures
        ({
            let swept = buckets.map_values(
                |b: Seq<NodeEntry>| b.filter(survives(now_ms, sweep_limits())),
            );
            &&& swept.len() == buckets.len()
            &&& forall|i: int, j: int|
                0 <= i < swept.len() && 0 <= j < swept[i].len() ==> !outlived(
                    #[trigger] swept[i][j],
                    now_ms,
                    sweep_limits(),
                ) && buckets[i].contains(swept[i][j])
            &&& forall|i: int, j: int|
                0 <= i < buckets.len() && 0 <= j < buckets[i].len() && !outlived(
                    #[trigger] buckets[i][j],
                    now_ms,
                    sweep_limits(),
                ) ==> swept[i].contains(buckets[i][j])
        }),
        ({
            let left = pending.remove_keys(
                expired_pings(pending, now_ms, PENDING_PING_TIMEOUT_MS),
            );
            &&& forall|k: u32| #[trigger] left.contains_key(k) ==> !ping_expired(
                left[k],
                now_ms,
                PENDING_PING_TIMEOUT_MS,
            )
            &&& forall|k: u32|
                #[trigger] pending.contains_key(k) && !ping_expired(
                    pending[k],
                    now_ms,
                    PENDING_PING_TIMEOUT_MS,
                ) ==> left.contains_key(k) && left[k] == pending[k]
        }),
{
    broadcast use vstd::seq_lib::group_filter_ensures;

    let p = survives(now_ms, sweep_limits());
    let swept = buckets.map_values(|b: Seq<NodeEntry>| b.filter(p));
    assert forall|i: int, j: int|
        0 <= i < swept.len() && 0 <= j < swept[i].len() implies !outlived(
        #[trigger] swept[i][j],
        now_ms,
        sweep_limits(),
    ) && buckets[i].contains(swept[i][j]) by {
        assert(swept[i] == buckets[i].filter(p));
        buckets[i].lemma_filter_pred(p, j);
        lemma_filter_run(buckets[i], p);
        assert(swept[i].contains(swept[i][j]));
    }
    assert forall|i: int, j: int|
        0 <= i < buckets.len() && 0 <= j < buckets[i].len() && !outlived(
        #[trigger] buckets[i][j],
        now_ms,
        sweep_limits(),
    ) implies swept[i].contains(buckets[i][j]) by {
        assert(swept[i] == buckets[i].filter(p));
        buckets[i].lemma_filter_contains(p, j);
    }
}

impl ApoptosisSystem {
    /// Cumulative deaths since boot.
    pub closed spec fn spec_cumulative_deaths(&self) -> u64 {
        self.cumulative_deaths
    }

    /// Most deaths seen in a single sweep.
    pub closed spec fn spec_peak_deaths(&self) -> usize {
        self.peak_deaths_per_sweep
    }

    /// The tick of the last sweep.
    pub closed spec fn spec_last_sweep_tick(&self) -> u64 {
        self.last_sweep_tick
    }

    /// A fresh system: no sweep yet, no deaths.
    pub fn new() -> (s: Self)
        ensures
            s.spec_last_sweep_tick() == 0,
            s.spec_cumulative_deaths() == 0,
            s.spec_peak_deaths() == 0,
    {
        ApoptosisSystem { last_sweep_tick: 0, cumulative_deaths: 0, peak_deaths_per_sweep: 0 }
    }

    /// Start a sweep at `current_tick` if one is due (at least
    /// [`SWEEP_INTERVAL_TICKS`] ticks since the last); records the tick and
    /// returns `true` when it is, leaves the system unchanged otherwise.
    pub fn begin_sweep(&mut self, current_tick: u64) -> (due: bool)
        requires
            current_tick >= old(self).spec_last_sweep_tick(),
        ensures
            due == (current_tick - old(self).spec_last_sweep_tick() >= SWEEP_INTERVAL_TICKS),
            due ==> final(self).spec_last_sweep_tick() == current_tick,
            !due ==> final(self).spec_last_sweep_tick() == old(self).spec_last_sweep_tick(),
            final(self).spec_cumulative_deaths() == old(self).spec_cumulative_deaths(),
            final(self).spec_peak_deaths() == old(self).spec_peak_deaths(),
    {
        if current_tick - self.last_sweep_tick < SWEEP_INTERVAL_TICKS {
            return false;
        }
        self.last_sweep_tick = current_tick;
        true
    }

    /// Compile the report of a sweep from its counts and fold it into the
    /// running totals (cumulative deaths, peak deaths per sweep).
    pub fn finish_sweep(
        &mut self,
        dht_nodes_evicted: usize,
        pending_pings_expired: usize,
        data_frames_purged: usize,
        sweep_duration_ms: u64,
    ) -> (r: ApoptosisReport)
        requires
            dht_nodes_evicted + pending_pings_expired + data_frames_purged <= usize::MAX,
            old(self).spec_cumulative_deaths() + dht_nodes_evicted + pending_pings_expired
                + data_frames_purged <= u64::MAX,
        ensures
            r.dht_nodes_evicted == dht_nodes_evicted,
            r.pending_pings_expired == pending_pings_expired,
            r.data_frames_purged == data_frames_purged,
            r.total_deaths == dht_nodes_evicted + pending_pings_expired + data_frames_purged,
            r.sweep_duration_ms == sweep_duration_ms,
            final(self).spec_cumulative_deaths() == old(self).spec_cumulative_deaths() + r.total_deaths,
            final(self).spec_peak_deaths() == if r.total_deaths > old(self).spec_peak_deaths() {
                r.total_deaths
            } else {
                old(self).spec_peak_deaths()
            },
            final(self).spec_last_sweep_tick() == old(self).spec_last_sweep_tick(),
    {
        let total: usize = dht_nodes_evicted + pending_pings_expired + data_frames_purged;
        self.cumulative_deaths = self.cumulative_deaths + total as u64;
        if total > self.peak_deaths_per_sweep {
            self.peak_deaths_per_sweep = total;
        }
        ApoptosisReport {
            dht_nodes_evicted,
            pending_pings_expired,
            data_frames_purged,
            total_deaths: total,
            sweep_duration_ms,
        }
    }

    /// One engine tick of apoptosis. When a sweep is due (see
    /// [`ApoptosisSystem::begin_sweep`]) it drops the routing entries that
    /// have outlived their place at `now_ms` (see [`sweep_limits`]) and the
    /// pings unanswered for more than [`PENDING_PING_TIMEOUT_MS`], and
    /// reports the deaths; otherwise it changes nothing and reports none.
    /// Purging the transport's queues and timing the sweep are left to the
    /// caller, so the report counts no purged frames and no duration.
    pub fn tick(
        &mut self,
        current_tick: u64,
        table: &mut RoutingTable,
        pending: &mut PendingPings,
        now_ms: u64,
    ) -> (r: ApoptosisReport)
        requires
            current_tick >= old(self).spec_last_sweep_tick(),
            old(table).wf(),
            old(table).spec_entries().len() + old(pending).spec_pending().len() <= usize::MAX,
            old(self).spec_cumulative_deaths() + old(table).spec_entries().len()
                + old(pending).spec_pending().len() <= u64::MAX,
        ensures
            final(table).wf(),
            final(table).spec_local_id() == old(table).spec_local_id(),
            final(pending).spec_next_seq() == old(pending).spec_next_seq(),
            r.data_frames_purged == 0,
            r.sweep_duration_ms == 0,
            r.total_deaths == r.dht_nodes_evicted + r.pending_pings_expired,
            if current_tick - old(self).spec_last_sweep_tick() >= SWEEP_INTERVAL_TICKS {
                &&& final(table).spec_buckets() == old(table).spec_buckets().map_values(
                    |b: Seq<NodeEntry>| b.filter(survives(now_ms, sweep_limits())),
                )
                &&& r.dht_nodes_evicted == old(table).spec_entries().len()
                    - final(table).spec_entries().len()
                &&& final(pending).spec_pending() == old(pending).spec_pending().remove_keys(
                    expired_pings(old(pending).spec_pending(), now_ms, PENDING_PING_TIMEOUT_MS),
                )
                &&& r.pending_pings_expired == expired_pings(
                    old(pending).spec_pending(),
                    now_ms,
                    PENDING_PING_TIMEOUT_MS,
                ).len()
                &&& final(self).spec_last_sweep_tick() == current_tick
                &&& final(self).spec_cumulative_deaths() == old(self).spec_cumulative_deaths()
                    + r.total_deaths
                &&& final(self).spec_peak_deaths() == if r.total_deaths
                    > old(self).spec_peak_deaths() {
                    r.total_deaths
                } else {
                    old(self).spec_peak_deaths()
                }
            } else {
                &&& final(table).spec_buckets() == old(table).spec_buckets()
                &&& final(pending).spec_pending() == old(pending).spec_pending()
                &&& r.dht_nodes_evicted == 0
                &&& r.pending_pings_expired == 0
                &&& final(self).spec_last_sweep_tick() == old(self).spec_last_sweep_tick()
                &&& final(self).spec_cumulative_deaths() == old(self).spec_cumulative_deaths()
                &&& final(self).spec_peak_deaths() == old(self).spec_peak_deaths()
            },
    {
        if !self.begin_sweep(current_tick) {
            return ApoptosisReport::default();
        }
        let evicted: usize = table.sweep(now_ms, routing_sweep_limits());
        let expired: usize = pending.expire(now_ms, PENDING_PING_TIMEOUT_MS);
        self.finish_sweep(evicted, expired, 0, 0)
    }

    /// The tick of the last sweep (0 before the first).
    pub fn last_sweep_tick(&self) -> (t: u64)
        ensures
            t == self.spec_last_sweep_tick(),
    {
        self.last_sweep_tick
    }

    /// Number of pings still awaiting their pong.
    pub fn pending_ping_count(&self, pending: &PendingPings) -> (n: usize)
        ensures
            n == pending.spec_pending().len(),
    {
        pending.len()
    }

    /// Whether a sweep's deaths signal a death spiral (more than 50).
    pub fn is_death_spiral(&self, report: &ApoptosisReport) -> (b: bool)
        ensures
            b == (report.total_deaths > DEATH_SPIRAL_THRESHOLD),
    {
        report.total_deaths > DEATH_SPIRAL_THRESHOLD
    }
}

} // verus!
