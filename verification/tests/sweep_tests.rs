use neuron_wire::apoptosis::{
    routing_sweep_limits, ApoptosisSystem, MAX_LATENCY_KEY, MAX_LATENCY_MS, MAX_STALE_MS,
    PENDING_PING_TIMEOUT_MS,
};
use neuron_wire::dht::messages::PendingPings;
use neuron_wire::dht::routing::{KBucket, RoutingTable, SweepLimits};
use neuron_wire::dht::{NodeAddr, NodeEntry, NodeId, NodeType};

fn nid(b: u8) -> NodeId {
    let mut a = [0u8; 32];
    a[31] = b;
    NodeId(a)
}

fn addr() -> NodeAddr {
    NodeAddr::V4([10, 0, 0, 2], 9000)
}

fn seen_at(b: u8, ms: u64) -> NodeEntry {
    NodeEntry::new(nid(b), addr(), NodeType::General, ms)
}

fn ids(rt: &RoutingTable) -> Vec<u8> {
    let mut v: Vec<u8> = rt.all_nodes().iter().map(|e| e.id.0[31]).collect();
    v.sort();
    v
}

/// A table holding one entry of each kind around the limits, swept at
/// 700 s.
fn mixed_table(now: u64) -> RoutingTable {
    let mut rt = RoutingTable::new(nid(0), addr(), NodeType::General);
    rt.insert(seen_at(1, now - 1_000));
    let mut slow = seen_at(2, now);
    slow.latency_key = 600.0f32.to_bits();
    rt.insert(slow);
    rt.insert(seen_at(3, 50_000));
    let mut failing = seen_at(4, now);
    failing.fail_count = 3;
    rt.insert(failing);
    rt.insert(seen_at(5, now - 600_000));
    let mut at_limit = seen_at(6, now);
    at_limit.latency_key = 500.0f32.to_bits();
    rt.insert(at_limit);
    rt.insert(seen_at(7, now + 5_000));
    rt
}

#[test]
fn latency_limit_key_is_the_bits_of_the_limit() {
    assert_eq!(MAX_LATENCY_KEY, (MAX_LATENCY_MS as f32).to_bits());
    assert_eq!(MAX_STALE_MS, 600_000);
    assert_eq!(PENDING_PING_TIMEOUT_MS, 10_000);
    let lim = routing_sweep_limits();
    assert_eq!(lim.max_latency_key, MAX_LATENCY_KEY);
    assert_eq!(lim.max_idle_ms, 600_000);
    assert_eq!(lim.max_failures, 3);
}

#[test]
fn table_sweep_drops_failing_slow_and_silent_nodes() {
    let now = 700_000;
    let mut rt = mixed_table(now);
    assert_eq!(rt.node_count(), 7);
    let removed = rt.sweep(now, routing_sweep_limits());
    assert_eq!(removed, 3);
    assert_eq!(rt.node_count(), 4);
    assert_eq!(ids(&rt), vec![1, 5, 6, 7]);
}

#[test]
fn table_sweep_with_loose_limits_keeps_everything() {
    let now = 700_000;
    let mut rt = mixed_table(now);
    let lim = SweepLimits { max_latency_key: u32::MAX, max_idle_ms: u64::MAX, max_failures: u32::MAX };
    assert_eq!(rt.sweep(now, lim), 0);
    assert_eq!(rt.node_count(), 7);
}

#[test]
fn bucket_sweep_keeps_latency_order_of_survivors() {
    let mut b = KBucket::new();
    for (i, ms) in [30.0f32, 10.0, 900.0, 20.0].iter().enumerate() {
        let mut e = seen_at(i as u8 + 1, 1_000);
        e.latency_key = ms.to_bits();
        assert!(b.upsert(e));
    }
    let removed = b.sweep(1_000, routing_sweep_limits());
    assert_eq!(removed, 1);
    let order: Vec<u8> = b.entries().iter().map(|e| e.id.0[31]).collect();
    assert_eq!(order, vec![2, 4, 1]);
}

#[test]
fn pending_pings_expire_after_the_timeout() {
    let mut p = PendingPings::new();
    let s1 = p.start(0);
    let s2 = p.start(5_000);
    let s3 = p.start(20_000);
    assert_eq!(p.expire(15_000, PENDING_PING_TIMEOUT_MS), 1);
    assert_eq!(p.len(), 2);
    assert_eq!(p.expire(16_000, PENDING_PING_TIMEOUT_MS), 1);
    assert_eq!(p.len(), 1);
    assert_eq!(p.finish(s1, 16_000), None);
    assert_eq!(p.finish(s2, 16_000), None);
    assert_eq!(p.finish(s3, 21_000), Some(1_000));
    assert_eq!(p.expire(100_000, PENDING_PING_TIMEOUT_MS), 0);
}

#[test]
fn apoptosis_tick_sweeps_only_when_due() {
    let now = 700_000;
    let mut sys = ApoptosisSystem::new();
    let mut rt = mixed_table(now);
    let mut p = PendingPings::new();
    p.start(now - 20_000);
    p.start(now - 1_000);

    let r = sys.tick(999, &mut rt, &mut p, now);
    assert_eq!(r.total_deaths, 0);
    assert_eq!(rt.node_count(), 7);
    assert_eq!(p.len(), 2);
    assert_eq!(sys.last_sweep_tick(), 0);

    let r = sys.tick(1_000, &mut rt, &mut p, now);
    assert_eq!(r.dht_nodes_evicted, 3);
    assert_eq!(r.pending_pings_expired, 1);
    assert_eq!(r.data_frames_purged, 0);
    assert_eq!(r.total_deaths, 4);
    assert_eq!(rt.node_count(), 4);
    assert_eq!(sys.pending_ping_count(&p), 1);
    assert_eq!(sys.last_sweep_tick(), 1_000);
    assert_eq!(sys.cumulative_deaths, 4);
    assert_eq!(sys.peak_deaths_per_sweep, 4);
    assert!(!sys.is_death_spiral(&r));

    let r = sys.tick(1_500, &mut rt, &mut p, now + 60_000);
    assert_eq!(r.total_deaths, 0);
    assert_eq!(p.len(), 1);
}
