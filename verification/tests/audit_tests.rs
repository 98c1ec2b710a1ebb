use neuron_wire::audit::{AuditEventType, AuditLog, CHECKPOINT_INTERVAL, MAX_AUDIT_ENTRIES};
use neuron_wire::components::EntityId;

#[test]
fn test_append_and_hash_chain() {
    let mut log = AuditLog::new();
    let seq0 = log.append(AuditEventType::NodeStartup, "Node initialized", None);
    assert_eq!(seq0, 0);
    assert!(log.genesis_hash().is_some());

    let seq1 = log.append(
        AuditEventType::PeerDiscovered,
        "Discovered peer 0xabcd",
        Some(EntityId([1u8; 32])),
    );
    assert_eq!(seq1, 1);

    assert!(log.verify_integrity());
}

#[test]
fn test_tamper_detection() {
    let mut log = AuditLog::new();
    log.append(AuditEventType::NodeStartup, "init", None);
    log.append(AuditEventType::PeerDiscovered, "peer1", None);

    assert!(log.verify_integrity());

    log.set_entry_hash(0, [0xFFu8; 32]);

    assert!(!log.verify_integrity());
}

#[test]
fn test_multiple_events() {
    let mut log = AuditLog::new();
    let peer = EntityId([2u8; 32]);

    log.append(AuditEventType::NodeStartup, "boot", None);
    log.append(AuditEventType::PeerDiscovered, "discovered", Some(peer));
    log.append(AuditEventType::HandshakeSuccess, "handshake ok", Some(peer));
    log.append(AuditEventType::TrustChange, "trust increased", Some(peer));
    log.append(AuditEventType::BootstrapCheckpoint, "checkpoint", None);

    assert_eq!(log.total_entries(), 5);
    assert!(log.verify_integrity());
    assert!(log.current_hash() != [0u8; 32]);
}

#[test]
fn test_bootstrap_proof() {
    let mut log = AuditLog::new();
    log.append(AuditEventType::NodeStartup, "boot", None);
    log.append(AuditEventType::ConfigChange, "config", None);

    let proof = log.bootstrap_proof();
    assert!(log.verify_bootstrap(&proof));
    assert_eq!(proof.total_entries, 2);
}

#[test]
fn test_checkpointing() {
    let mut log = AuditLog::new();
    for i in 0..CHECKPOINT_INTERVAL + 5 {
        log.append(AuditEventType::PeerDiscovered, &format!("peer_{}", i), None);
    }

    assert!(
        log.last_checkpoint_hash() != [0u8; 32],
        "checkpoint hash should be set after CHECKPOINT_INTERVAL entries"
    );
    assert!(log.verify_integrity());
}

#[test]
fn entries_chain_their_hashes() {
    let mut log = AuditLog::new();
    log.append_at(AuditEventType::NodeStartup, "a", None, 10);
    log.append_at(AuditEventType::HandshakeFailure, "b", Some(EntityId([3u8; 32])), 20);
    let entries = log.get_entries(0, 10);
    assert_eq!(entries.len(), 2);
    assert_eq!(entries[0].prev_hash, [0u8; 32]);
    assert_eq!(entries[1].prev_hash, entries[0].hash);
    assert_eq!(entries[1].timestamp_ms, 20);
    assert_eq!(log.current_hash(), entries[1].hash);
    assert_eq!(log.genesis_hash(), Some(entries[0].hash));
    assert_eq!(log.buffered_count(), 2);
    assert_eq!(log.get_entries(1, 10).len(), 1);
    assert_eq!(log.all_entries().len(), 2);
}

#[test]
fn older_proof_is_checked_against_the_checkpoint() {
    let mut log = AuditLog::new();
    log.append_at(AuditEventType::NodeStartup, "boot", None, 1);
    let proof = log.bootstrap_proof();
    log.append_at(AuditEventType::ConfigChange, "later", None, 2);
    assert!(log.verify_bootstrap(&proof));
    let mut longer = AuditLog::new();
    longer.append_at(AuditEventType::NodeStartup, "boot", None, 1);
    longer.append_at(AuditEventType::ConfigChange, "later", None, 2);
    longer.append_at(AuditEventType::ConfigChange, "more", None, 3);
    assert!(!log.verify_bootstrap(&longer.bootstrap_proof()));
}

#[test]
fn event_labels() {
    assert_eq!(AuditEventType::NodeStartup.label(), "NODE_STARTUP");
}

#[test]
fn wrapped_log_detects_a_tampered_newest_entry() {
    let mut log = AuditLog::new();
    for _ in 0..MAX_AUDIT_ENTRIES + 1 {
        log.append(AuditEventType::ConfigChange, "c", None);
    }
    assert_eq!(log.buffered_count(), MAX_AUDIT_ENTRIES);
    assert!(log.verify_integrity());
    log.set_entry_hash(MAX_AUDIT_ENTRIES - 1, [0x11u8; 32]);
    assert!(!log.verify_integrity());
}
