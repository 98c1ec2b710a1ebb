use neuron_wire::dht::{
    decode_addr, deserialize_node, encode_addr, serialize_node, serialized_addr_size,
    serialized_node_size, NodeAddr, NodeId, NodeType,
};

fn nid(b: u8) -> NodeId {
    let mut a = [0u8; 32];
    a[31] = b;
    NodeId(a)
}

#[test]
fn test_xor_distance() {
    let d = nid(0x00).xor_distance(&nid(0xFF));
    assert_eq!(d[31], 0xFF);
}

#[test]
fn test_bucket_index() {
    assert_eq!(nid(0x00).bucket_index(&nid(0x01)), Some(0));
    assert_eq!(nid(0x00).bucket_index(&nid(0x80)), Some(7));
    assert_eq!(nid(0x00).bucket_index(&nid(0x00)), None);
}

#[test]
fn test_node_type_roundtrip() {
    assert_eq!(NodeType::from_u8(0), Some(NodeType::General));
    assert_eq!(NodeType::from_u8(7), Some(NodeType::Gateway));
    assert_eq!(NodeType::from_u8(99), None);
}

#[test]
fn test_serialize_roundtrip() {
    let addr = NodeAddr::V4([192, 168, 1, 1], 9000);
    let id = nid(0x42);
    let mut buf = Vec::new();
    serialize_node(&id, &addr, NodeType::Reasoning, 100, &mut buf);
    let mut off = 0;
    let (d_id, d_addr, d_type) = deserialize_node(&buf, &mut off).unwrap();
    assert_eq!(d_id, id);
    assert_eq!(d_addr, addr);
    assert_eq!(d_type, NodeType::Reasoning);
}

#[test]
fn bucket_of_highest_differing_bit() {
    let mut a = [0u8; 32];
    a[0] = 0x80;
    assert_eq!(nid(0).bucket_index(&NodeId(a)), Some(255));
    assert_eq!(NodeId::new([0u8; 32]).hex(), "00000000\u{2026}00000000");
}

#[test]
fn ipv6_node_record_roundtrip_and_sizes() {
    let addr = NodeAddr::V6([0x20, 0x01, 0x0d, 0xb8, 0, 0, 0, 0, 0, 0, 0, 0, 0, 0, 0, 1], 443);
    assert_eq!(serialized_addr_size(&addr), 19);
    assert_eq!(serialized_node_size(&addr), 56);
    let mut buf = vec![0xEE];
    serialize_node(&nid(9), &addr, NodeType::Gateway, 5, &mut buf);
    assert_eq!(buf.len(), 57);
    assert_eq!(&buf[33..36], &[6, 0x20, 0x01]);
    assert_eq!(&buf[50..52], &[0x01, 0xBB]);
    let mut off = 1;
    let (id, a, t) = deserialize_node(&buf, &mut off).unwrap();
    assert_eq!(id, nid(9));
    assert_eq!(a, addr);
    assert_eq!(t, NodeType::Gateway);
    assert_eq!(off, 57);
}

#[test]
fn address_encoding_is_family_octets_big_endian_port() {
    let mut buf = Vec::new();
    encode_addr(&NodeAddr::V4([10, 0, 0, 1], 0x1234), &mut buf);
    assert_eq!(buf, vec![4, 10, 0, 0, 1, 0x12, 0x34]);
    let mut off = 0;
    assert_eq!(decode_addr(&buf, &mut off), Some(NodeAddr::V4([10, 0, 0, 1], 0x1234)));
    assert_eq!(off, 7);
}

#[test]
fn truncated_or_unknown_addresses_are_refused() {
    let mut off = 0;
    assert_eq!(decode_addr(&[4, 1, 2, 3], &mut off), None);
    assert_eq!(off, 1);
    let mut off = 0;
    assert_eq!(decode_addr(&[5, 1, 2, 3, 4, 5, 6], &mut off), None);
    assert_eq!(off, 1);
    let mut off = 0;
    assert!(deserialize_node(&[0u8; 31], &mut off).is_none());
    assert_eq!(off, 0);
}

#[test]
fn unknown_node_type_code_reads_as_general() {
    let mut buf = Vec::new();
    serialize_node(&nid(1), &NodeAddr::V4([1, 2, 3, 4], 5), NodeType::Audio, 0, &mut buf);
    buf[39] = 200;
    let mut off = 0;
    let (_, _, t) = deserialize_node(&buf, &mut off).unwrap();
    assert_eq!(t, NodeType::General);
}
