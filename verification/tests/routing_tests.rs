use neuron_wire::dht::dht_msg_type::{FIND_NODE, NODES, PING, PONG};
use neuron_wire::dht::messages::{
    find_node_frame, nodes_frame, parse_dht_message, ping_frame, pong_frame, DhtMessage,
    PendingPings,
};
use neuron_wire::dht::routing::{
    KBucket, RoutingTable, DEFAULT_LATENCY_KEY, K, MAX_FAILURES, STALE_PING_MS,
};
use neuron_wire::dht::{NodeAddr, NodeEntry, NodeId, NodeType};

fn nid(b: u8) -> NodeId {
    let mut a = [0u8; 32];
    a[31] = b;
    NodeId(a)
}

fn addr() -> NodeAddr {
    NodeAddr::V4([127, 0, 0, 1], 9000)
}

fn key(ms: f32) -> u32 {
    ms.to_bits()
}

fn entry(b: u8, latency_ms: f32) -> NodeEntry {
    let mut e = NodeEntry::new(nid(b), addr(), NodeType::General, 0);
    e.latency_key = key(latency_ms);
    e
}

#[test]
fn test_routing_insert() {
    let local = nid(0x00);
    let mut rt = RoutingTable::new(local, addr(), NodeType::General);
    for i in 0..K + 1 {
        let mut id = [0u8; 32];
        id[31] = i as u8;
        rt.insert(NodeEntry::new(NodeId(id), addr(), NodeType::General, 0));
    }
    assert!(rt.node_count() <= K);
}

#[test]
fn test_latency_eviction() {
    let local = nid(0x00);
    let mut rt = RoutingTable::new(local, addr(), NodeType::General);
    for i in 0..K {
        rt.insert(entry(0x80 + i as u8, 200.0 + (i as f32) * 10.0));
    }
    assert_eq!(rt.node_count(), K);
    let fast = entry(0xFF, 5.0);
    assert!(rt.insert(fast), "low-latency should evict highest-latency");
    assert_eq!(rt.node_count(), K, "should stay at K after eviction");
}

#[test]
fn test_nearest_nodes() {
    let mut rt = RoutingTable::new(nid(0x00), addr(), NodeType::General);
    for i in 0..10 {
        rt.insert(NodeEntry::new(nid(i), addr(), NodeType::General, 0));
    }
    assert_eq!(rt.nearest_nodes(&nid(0x05), 3).len(), 3);
}

#[test]
fn default_latency_key_is_100_ms() {
    assert_eq!(DEFAULT_LATENCY_KEY, 100.0f32.to_bits());
    let e = NodeEntry::new(nid(1), addr(), NodeType::Vision, 42);
    assert_eq!(e.latency_key, DEFAULT_LATENCY_KEY);
    assert_eq!(e.last_seen_ms, 42);
    assert_eq!(e.fail_count, 0);
}

#[test]
fn local_node_is_refused() {
    let mut rt = RoutingTable::new(nid(7), addr(), NodeType::General);
    assert!(!rt.insert(NodeEntry::new(nid(7), addr(), NodeType::General, 0)));
    assert_eq!(rt.node_count(), 0);
}

#[test]
fn bucket_keeps_fastest_first_and_refreshes_known_node() {
    let mut b = KBucket::new();
    assert!(b.upsert(entry(1, 50.0)));
    assert!(b.upsert(entry(2, 20.0)));
    assert!(b.upsert(entry(3, 30.0)));
    let ids: Vec<u8> = b.entries().iter().map(|e| e.id.0[31]).collect();
    assert_eq!(ids, vec![2, 3, 1]);
    // refreshing node 2 with a slower latency moves it back, keeps its address
    let mut refresh = entry(2, 40.0);
    refresh.addr = NodeAddr::V4([10, 0, 0, 9], 1);
    refresh.last_seen_ms = 99;
    assert!(b.upsert(refresh));
    let ids: Vec<u8> = b.entries().iter().map(|e| e.id.0[31]).collect();
    assert_eq!(ids, vec![3, 2, 1]);
    let e2 = b.entries()[1];
    assert_eq!(e2.addr, addr());
    assert_eq!(e2.last_seen_ms, 99);
    assert_eq!(b.len(), 3);
    assert_eq!(b.fastest().unwrap().id, nid(3));
}

#[test]
fn equal_latencies_keep_arrival_order() {
    let mut b = KBucket::new();
    b.upsert(entry(1, 10.0));
    b.upsert(entry(2, 10.0));
    b.upsert(entry(3, 10.0));
    let ids: Vec<u8> = b.entries().iter().map(|e| e.id.0[31]).collect();
    assert_eq!(ids, vec![1, 2, 3]);
    // node 1 slows to 10 -> unchanged key stays in place
    b.upsert(entry(1, 10.0));
    let ids: Vec<u8> = b.entries().iter().map(|e| e.id.0[31]).collect();
    assert_eq!(ids, vec![1, 2, 3]);
}

#[test]
fn full_bucket_refuses_slower_newcomer() {
    let mut b = KBucket::new();
    for i in 0..K {
        assert!(b.upsert(entry(i as u8 + 1, 10.0 + i as f32)));
    }
    assert!(!b.upsert(entry(200, 1000.0)));
    assert_eq!(b.len(), K);
    assert!(b.find(&nid(200)).is_none());
    assert!(b.upsert(entry(201, 1.0)));
    assert_eq!(b.fastest().unwrap().id, nid(201));
    // the slowest (node K) left
    assert!(b.find(&nid(K as u8)).is_none());
}

#[test]
fn bucket_remove_and_remove_at() {
    let mut b = KBucket::new();
    b.upsert(entry(1, 1.0));
    b.upsert(entry(2, 2.0));
    assert!(!b.remove_at(5));
    assert!(b.remove(&nid(1)));
    assert!(!b.remove(&nid(1)));
    assert_eq!(b.find(&nid(2)), Some(0));
    assert!(b.remove_at(0));
    assert!(b.fastest().is_none());
}

#[test]
fn failures_drop_a_node_after_max_failures() {
    let mut rt = RoutingTable::new(nid(0), addr(), NodeType::General);
    rt.insert(entry(0x10, 5.0));
    for _ in 0..MAX_FAILURES - 1 {
        rt.record_failure(&nid(0x10));
    }
    assert_eq!(rt.lookup(&nid(0x10)).unwrap().fail_count, MAX_FAILURES - 1);
    rt.record_failure(&nid(0x10));
    assert!(rt.lookup(&nid(0x10)).is_none());
    assert_eq!(rt.node_count(), 0);
    // unknown nodes are ignored
    rt.record_failure(&nid(0x11));
    assert!(!rt.remove(&nid(0x11)));
}

#[test]
fn record_latency_clears_failures_and_reorders() {
    let mut rt = RoutingTable::new(nid(0), addr(), NodeType::General);
    rt.insert(entry(0x10, 5.0));
    rt.insert(entry(0x11, 6.0));
    rt.record_failure(&nid(0x10));
    rt.record_latency(&nid(0x10), key(9.0), 1234);
    let e = rt.lookup(&nid(0x10)).unwrap();
    assert_eq!(e.fail_count, 0);
    assert_eq!(e.last_seen_ms, 1234);
    assert_eq!(e.latency_key, key(9.0));
    let fastest = rt.closest_fast(&nid(0x10)).unwrap();
    assert_eq!(fastest.id, nid(0x11));
}

#[test]
fn nearest_nodes_are_sorted_by_xor_distance() {
    let mut rt = RoutingTable::new(nid(0x00), addr(), NodeType::General);
    for i in 1..10u8 {
        rt.insert(NodeEntry::new(nid(i), addr(), NodeType::General, 0));
    }
    let near: Vec<u8> = rt.nearest_nodes(&nid(0x05), 4).iter().map(|e| e.id.0[31]).collect();
    // distances from 5: 5^5=0, 4->1, 7->2, 6->3
    assert_eq!(near, vec![5, 4, 7, 6]);
    assert_eq!(rt.nearest_nodes(&nid(0x05), 100).len(), 9);
    assert!(rt.nearest_nodes(&nid(0x05), 0).is_empty());
    assert_eq!(rt.all_nodes().len(), 9);
}

#[test]
fn closest_fast_searches_outward_preferring_the_bucket_above() {
    let mut rt = RoutingTable::new(nid(0x00), addr(), NodeType::General);
    assert!(rt.closest_fast(&nid(0x04)).is_none());
    assert!(rt.closest_fast(&nid(0x00)).is_none());
    // bucket 1 (id 2) and bucket 3 (id 8): target in bucket 2 (id 4)
    rt.insert(entry(0x02, 50.0));
    rt.insert(entry(0x08, 70.0));
    assert_eq!(rt.closest_fast(&nid(0x04)).unwrap().id, nid(0x08));
    // the target's own bucket wins
    rt.insert(entry(0x05, 90.0));
    rt.insert(entry(0x06, 80.0));
    assert_eq!(rt.closest_fast(&nid(0x04)).unwrap().id, nid(0x06));
}

#[test]
fn stale_nodes_are_those_silent_too_long() {
    let mut rt = RoutingTable::new(nid(0x00), addr(), NodeType::General);
    rt.insert(NodeEntry::new(nid(1), NodeAddr::V4([1, 1, 1, 1], 1), NodeType::General, 0));
    rt.insert(NodeEntry::new(nid(2), NodeAddr::V4([2, 2, 2, 2], 2), NodeType::General, 500_000));
    assert!(rt.stale_addrs(STALE_PING_MS).is_empty());
    assert_eq!(rt.stale_addrs(STALE_PING_MS + 1), vec![NodeAddr::V4([1, 1, 1, 1], 1)]);
    assert_eq!(rt.stale_addrs(900_000).len(), 2);
}

fn strip_len(frame: &[u8]) -> &[u8] {
    &frame[4..]
}

#[test]
fn frames_carry_their_types_and_fields() {
    let me = nid(0x33);
    let p = ping_frame(&me, &addr(), NodeType::Memory, 77);
    assert_eq!(p.len(), 4 + 16 + 48);
    assert_eq!(p[4 + 5], PING);
    assert_eq!(&p[20..52], &me.0[..]);
    assert_eq!(&p[52..59], &[4, 127, 0, 0, 1, 0x23, 0x28]);
    assert_eq!(p[59], 3);
    assert_eq!(&p[64..68], &77u32.to_le_bytes());
    let q = pong_frame(&me, &addr(), NodeType::Memory, 77);
    assert_eq!(q[4 + 5], PONG);
    let f = find_node_frame(&nid(9));
    assert_eq!(f.len(), 52);
    assert_eq!(f[9], FIND_NODE);
    let n = nodes_frame(&nid(9), &[(nid(1), addr(), NodeType::Audio, 12)]);
    assert_eq!(n[9], NODES);
    assert_eq!(n.len(), 20 + 32 + 44);
}

#[test]
fn parse_reads_find_node_and_ignores_short_or_unknown() {
    let f = find_node_frame(&nid(9));
    match parse_dht_message(strip_len(&f)) {
        DhtMessage::FindNode { target } => assert_eq!(target, nid(9)),
        other => panic!("unexpected {:?}", other),
    }
    assert!(matches!(parse_dht_message(&[0u8; 10]), DhtMessage::Ignored));
    let mut unknown = vec![0u8; 40];
    unknown[5] = 99;
    assert!(matches!(parse_dht_message(&unknown), DhtMessage::Ignored));
    let mut short_ping = vec![0u8; 30];
    short_ping[5] = PING;
    assert!(matches!(parse_dht_message(&short_ping), DhtMessage::Ignored));
}

#[test]
fn parse_reads_ping_fields_at_fixed_offsets() {
    let mut m = vec![0u8; 70];
    m[5] = PING;
    for i in 16..48 {
        m[i] = i as u8;
    }
    m[58] = 6;
    m[64..68].copy_from_slice(&0xA1B2C3D4u32.to_le_bytes());
    match parse_dht_message(&m) {
        DhtMessage::Ping { sender, node_type, seq } => {
            assert_eq!(sender.0[0], 16);
            assert_eq!(sender.0[31], 47);
            assert_eq!(node_type, NodeType::Consensus);
            assert_eq!(seq, 0xA1B2C3D4);
        }
        other => panic!("unexpected {:?}", other),
    }
    m[5] = PONG;
    m[58] = 200;
    match parse_dht_message(&m) {
        DhtMessage::Pong { sender, seq } => {
            assert_eq!(sender.0[5], 21);
            assert_eq!(seq, 0xA1B2C3D4);
        }
        other => panic!("unexpected {:?}", other),
    }
}

#[test]
fn parse_reads_node_records_after_the_header() {
    let mut m = vec![0u8; 16];
    m[5] = NODES;
    let mut recs = Vec::new();
    neuron_wire::dht::serialize_node(&nid(1), &addr(), NodeType::Audio, 3, &mut recs);
    neuron_wire::dht::serialize_node(
        &nid(2),
        &NodeAddr::V6([0; 16], 5),
        NodeType::Vision,
        4,
        &mut recs,
    );
    m.extend_from_slice(&recs);
    m.extend_from_slice(&[1, 2, 3]);
    match parse_dht_message(&m) {
        DhtMessage::Nodes { nodes } => {
            assert_eq!(nodes.len(), 2);
            assert_eq!(nodes[0], (nid(1), addr(), NodeType::Audio));
            assert_eq!(nodes[1], (nid(2), NodeAddr::V6([0; 16], 5), NodeType::Vision));
        }
        other => panic!("unexpected {:?}", other),
    }
}

#[test]
fn pending_pings_number_and_settle() {
    let mut p = PendingPings::new();
    assert_eq!(p.start(1000), 1);
    assert_eq!(p.start(1005), 2);
    assert_eq!(p.len(), 2);
    assert_eq!(p.finish(1, 1040), Some(40));
    assert_eq!(p.finish(1, 1040), None);
    assert_eq!(p.finish(2, 900), Some(0));
    assert_eq!(p.len(), 0);
}
