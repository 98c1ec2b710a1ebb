use neuron_wire::components::EntityId;
use neuron_wire::hebbian::{
    deserialize_gossip_packet, select_gossip_targets, serialize_gossip_packet,
    serialize_synapse_gossip, DEFAULT_GOSSIP_INTERVAL, MAX_GOSSIP_TARGETS,
    MAX_SYNAPSES_PER_GOSSIP,
};

fn eid(b: u8) -> EntityId {
    let mut a = [0u8; 32];
    a[31] = b;
    EntityId(a)
}

#[test]
fn test_gossip_serialize_deserialize_roundtrip() {
    let weights = [0.42f32.to_bits()];
    let grads = [0.17f32.to_bits()];
    let serialized = serialize_synapse_gossip(&eid(2), &[eid(1)], &weights, &grads).unwrap();
    assert!(!serialized.is_empty());

    let packet = serialize_gossip_packet(eid(0xFF), &[(eid(2), serialized)]).unwrap();

    let (source, entries) = deserialize_gossip_packet(&packet).unwrap();
    assert_eq!(source, eid(0xFF));
    assert_eq!(entries.len(), 1);

    let (post_id, targets, weights, grads) = &entries[0];
    assert_eq!(*post_id, eid(2));
    assert_eq!(targets[0], eid(1));
    assert!((f32::from_bits(weights[0]) - 0.42).abs() < 0.001);
    assert!((f32::from_bits(grads[0]) - 0.17).abs() < 0.001);
}

#[test]
fn test_gossip_target_selection() {
    let peers: Vec<u32> = (0..10).collect();
    let selected = select_gossip_targets(&peers, 3);
    assert!(selected.len() <= 3);
    assert!(selected.len() >= 1);

    let empty: Vec<u32> = Vec::new();
    let none = select_gossip_targets(&empty, 3);
    assert!(none.is_empty());
}

#[test]
fn selected_targets_are_distinct_members() {
    let peers: Vec<u32> = (100..110).collect();
    for _ in 0..20 {
        let s = select_gossip_targets(&peers, MAX_GOSSIP_TARGETS);
        assert_eq!(s.len(), 3);
        for p in &s {
            assert!(peers.contains(p));
        }
        assert!(s[0] != s[1] && s[1] != s[2] && s[0] != s[2]);
    }
    assert_eq!(select_gossip_targets(&peers[..2], 3).len(), 2);
    assert_eq!(select_gossip_targets(&peers, 0).len(), 0);
}

#[test]
fn synapse_update_layout_and_cap() {
    assert!(serialize_synapse_gossip(&eid(1), &[], &[], &[]).is_none());
    let targets: Vec<EntityId> = (0..25).map(eid).collect();
    let w: Vec<u32> = (0..25).collect();
    let g: Vec<u32> = (100..125).collect();
    let b = serialize_synapse_gossip(&eid(9), &targets, &w, &g).unwrap();
    assert_eq!(b.len(), 32 + 2 + 19 * 40);
    assert_eq!(&b[32..34], &[19, 0]);
    assert_eq!(&b[34 + 32..34 + 36], &0u32.to_le_bytes());
    assert_eq!(&b[34 + 36..34 + 40], &100u32.to_le_bytes());
    assert_eq!(MAX_SYNAPSES_PER_GOSSIP, 19);
    assert_eq!(DEFAULT_GOSSIP_INTERVAL, 500);
}

#[test]
fn packet_caps_updates_and_parser_stops_at_truncation() {
    assert!(serialize_gossip_packet(eid(1), &[]).is_none());
    let body = serialize_synapse_gossip(&eid(2), &[eid(3), eid(4)], &[1, 2], &[3, 4]).unwrap();
    let batch: Vec<(EntityId, Vec<u8>)> = (0..21).map(|_| (eid(2), body.clone())).collect();
    let packet = serialize_gossip_packet(eid(1), &batch).unwrap();
    assert_eq!(&packet[32..34], &[19, 0]);
    assert_eq!(packet.len(), 34 + 19 * body.len());
    let (_, entries) = deserialize_gossip_packet(&packet).unwrap();
    assert_eq!(entries.len(), 19);
    assert_eq!(entries[18].2, vec![1, 2]);
    let (_, cut) = deserialize_gossip_packet(&packet[..packet.len() - 1]).unwrap();
    assert_eq!(cut.len(), 18);
    assert!(deserialize_gossip_packet(&packet[..33]).is_none());
}
