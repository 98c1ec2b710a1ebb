use neuron_wire::demo::{
    gradient_exchange_due, heartbeat_due, lcg_mantissa, lcg_next, Heard, PeerBook,
    PEER_TIMEOUT_TICKS,
};

#[test]
fn demo_schedule() {
    assert!(heartbeat_due(0));
    assert!(heartbeat_due(30));
    assert!(!heartbeat_due(31));
    assert!(gradient_exchange_due(120));
    assert!(!gradient_exchange_due(90));
}

#[test]
fn demo_generator_steps() {
    assert_eq!(lcg_next(0), 12_345);
    assert_eq!(lcg_next(1), 1_103_527_590);
    assert_eq!(lcg_next(u32::MAX), 1_103_515_245u32.wrapping_neg().wrapping_add(12_345));
    assert_eq!(lcg_mantissa(512), 1);
    assert_eq!(lcg_mantissa(u32::MAX), 0x7F_FFFF);
    assert_eq!(lcg_mantissa(511), 0);
}

#[test]
fn demo_peers_discovered_refreshed_and_removed() {
    let mut b = PeerBook::new();
    assert_eq!(b.heard("me", "", 1, true), Heard::Ignored);
    assert_eq!(b.heard("me", "me", 1, true), Heard::Ignored);
    assert_eq!(b.heard("me", "a", 1, false), Heard::Ignored);
    assert_eq!(b.len(), 0);
    assert_eq!(b.heard("me", "a", 2, true), Heard::Discovered);
    assert_eq!(b.heard("me", "b", 3, true), Heard::Discovered);
    assert_eq!(b.len(), 2);
    assert_eq!(b.get(0).latency_ticks, 1);
    assert_eq!(b.heard("me", "a", 9, true), Heard::Known);
    assert_eq!(b.get(0).latency_ticks, 2);
    assert_eq!(b.get(0).last_seen_tick, 9);
    assert_eq!(b.heard("me", "a", 10, false), Heard::Known);
    assert_eq!(b.get(0).latency_ticks, 2);
    assert_eq!(b.get(0).last_seen_tick, 10);
    assert!(b.remove("a"));
    assert!(!b.remove("a"));
    assert_eq!(b.len(), 1);
    assert_eq!(b.get(0).id, "b");
}

#[test]
fn demo_peers_time_out() {
    let mut b = PeerBook::new();
    b.heard("me", "a", 0, true);
    b.heard("me", "b", 100, true);
    assert_eq!(b.alive_count(), 2);
    assert!(b.expire(PEER_TIMEOUT_TICKS).is_empty());
    assert_eq!(b.expire(PEER_TIMEOUT_TICKS + 1), vec!["a".to_string()]);
    assert!(!b.get(0).alive);
    assert!(b.get(1).alive);
    assert_eq!(b.alive_count(), 1);
    assert!(b.expire(PEER_TIMEOUT_TICKS + 1).is_empty());
    assert_eq!(b.heard("me", "a", 200, true), Heard::Known);
    assert!(b.get(0).alive);
    assert_eq!(b.expire(400), vec!["a".to_string(), "b".to_string()]);
}
