use neuron_wire::components::EntityId;

#[test]
fn test_entity_id_roundtrip() {
    let id = EntityId([42u8; 32]);
    assert_eq!(id.0[0], 42);
    assert_eq!(id.0[31], 42);
}

#[test]
fn entity_id_short_hex() {
    let mut b = [0u8; 32];
    b[0] = 0xAB;
    b[31] = 0x01;
    let id = EntityId::new(b);
    assert_eq!(id.hex(), "ab000000\u{2026}00000001");
}
