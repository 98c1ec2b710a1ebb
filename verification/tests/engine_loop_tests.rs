use neuron_wire::engine_loop::{
    admit_peer, heartbeat_due, peer_is_stale, phase_due, xorshift_step, Admission, Reliability,
    PEER_TTL_MS,
};

#[test]
fn test_reliability_enum() {
    assert_eq!(Reliability::BestEffort.max_retries(), 0);
    assert_eq!(Reliability::Data.max_retries(), 3);
    assert_eq!(Reliability::Consensus.max_retries(), 5);
    assert!(!Reliability::BestEffort.is_reliable());
    assert!(Reliability::Data.is_reliable());
    assert!(Reliability::Consensus.is_reliable());
}

#[test]
fn admission_decisions() {
    assert_eq!(admit_peer(true, 10, 10, 5, 5), Admission::Accept { new_ip_slot: false });
    assert_eq!(admit_peer(false, 10, 10, 0, 5), Admission::TooManyPeers);
    assert_eq!(admit_peer(false, 9, 10, 5, 5), Admission::PerIpLimit);
    assert_eq!(admit_peer(false, 9, 10, 4, 5), Admission::Accept { new_ip_slot: true });
    assert_eq!(admit_peer(false, 1000, 0, 1000, 0), Admission::Accept { new_ip_slot: false });
}

#[test]
fn staleness_and_schedules() {
    assert!(!peer_is_stale(PEER_TTL_MS, 0));
    assert!(peer_is_stale(PEER_TTL_MS + 1, 0));
    assert!(phase_due(2000, 1000, 1000));
    assert!(!phase_due(1999, 1000, 1000));
    assert!(heartbeat_due(500, 0, 500));
    assert!(!heartbeat_due(500, 0, 0));
    assert!(!heartbeat_due(499, 0, 500));
}

#[test]
fn xorshift_known_step() {
    let x: u64 = 1;
    let a = x ^ (x << 13);
    let b = a ^ (a >> 7);
    let c = b ^ (b << 17);
    assert_eq!(xorshift_step(1), c);
    assert_ne!(xorshift_step(1), 1);
}
