use neuron_wire::components::EntityId;
use neuron_wire::gradient_compression::{
    decode_gradients, read_bits, serialize_quantized, serialize_raw, write_bits,
    CompressionMethod, GradientPayload,
};

fn eid(v: u8) -> EntityId {
    EntityId([v; 32])
}

#[test]
fn bits_pack_little_endian_and_mask() {
    let mut buf = vec![0xAA];
    write_bits(&mut buf, 0x0003_0201, 20);
    assert_eq!(buf, vec![0xAA, 0x01, 0x02, 0x03]);
    assert_eq!(read_bits(&buf, 1, 20), 0x0003_0201 & 0xF_FFFF);
    assert_eq!(read_bits(&buf, 1, 8), 0x01);
    assert_eq!(read_bits(&buf, 3, 16), 0x0003);
    assert_eq!(read_bits(&buf, 0, 0), 0);
    let mut w = Vec::new();
    write_bits(&mut w, u64::MAX, 64);
    assert_eq!(w.len(), 8);
    assert_eq!(read_bits(&w, 0, 64), u64::MAX);
}

#[test]
fn raw_batches_roundtrip_every_entry() {
    let grads: Vec<(EntityId, EntityId, u32)> = vec![
        (eid(1), eid(2), 0.5f32.to_bits()),
        (eid(3), eid(4), (-0.3f32).to_bits()),
    ];
    let bytes = serialize_raw(&grads);
    assert_eq!(bytes[0], 2);
    assert_eq!(bytes[1], 1);
    assert_eq!(&bytes[2..34], &[1u8; 32]);
    assert_eq!(&bytes[66..70], &0.5f32.to_le_bytes());
    assert_eq!(bytes.len(), 1 + 2 * 69);
    match decode_gradients(&bytes) {
        GradientPayload::Raw(v) => assert_eq!(v, grads),
        _ => panic!("expected raw entries"),
    }
    assert_eq!(serialize_raw(&[]), vec![0u8]);
}

#[test]
fn sixteen_raw_entries_pass_through_unchanged() {
    let many: Vec<(EntityId, EntityId, u32)> =
        (0..16).map(|i| (eid(i), eid(i + 100), (i as f32 * 0.1).to_bits())).collect();
    let b = serialize_raw(&many);
    assert_eq!(b[0], 15);
    assert_eq!(b.len(), 2 + 16 * 69);
    assert_eq!(b[1 + 15 * 69], 1);
    match decode_gradients(&b) {
        GradientPayload::Raw(v) => assert_eq!(v, many),
        _ => panic!("expected raw entries"),
    }
    let fifteen: Vec<(EntityId, EntityId, u32)> = many[..15].to_vec();
    let b15 = serialize_raw(&fifteen);
    assert_eq!(b15.len(), 1 + 15 * 69);
    match decode_gradients(&b15) {
        GradientPayload::Raw(v) => assert_eq!(v, fifteen),
        _ => panic!("expected raw entries"),
    }
    let more: Vec<(EntityId, EntityId, u32)> =
        (0..300).map(|i| (eid((i % 250) as u8), eid(7), i)).collect();
    match decode_gradients(&serialize_raw(&more)) {
        GradientPayload::Raw(v) => assert_eq!(v, more),
        _ => panic!("expected raw entries"),
    }
}

#[test]
fn quantized_batches_roundtrip() {
    let entries: Vec<(EntityId, EntityId, u64)> =
        vec![(eid(1), eid(2), 255), (eid(5), eid(6), 0), (eid(7), eid(8), 300)];
    let lo = (-0.3f32).to_bits();
    let hi = 0.8f32.to_bits();
    let bytes = serialize_quantized(&entries, 8, lo, hi);
    assert_eq!(bytes[0], 0x13);
    assert_eq!(bytes[1], 8);
    assert_eq!(&bytes[2..6], &lo.to_le_bytes());
    assert_eq!(&bytes[6..10], &hi.to_le_bytes());
    assert_eq!(bytes.len(), 10 + 3 * 65);
    match decode_gradients(&bytes) {
        GradientPayload::Quantized(bits, mn, mx, v) => {
            assert_eq!(bits, 8);
            assert_eq!(mn, lo);
            assert_eq!(mx, hi);
            assert_eq!(v, vec![(eid(1), eid(2), 255), (eid(5), eid(6), 0), (eid(7), eid(8), 300 & 0xFF)]);
        }
        _ => panic!("expected quantized entries"),
    }
}

#[test]
fn twenty_quantized_entries_roundtrip() {
    let entries: Vec<(EntityId, EntityId, u64)> = (0..20).map(|i| (eid(i), eid(i), i as u64)).collect();
    let bytes = serialize_quantized(&entries, 4, 1, 2);
    assert_eq!(bytes[0], 0x1F);
    assert_eq!(bytes[10 + 15 * 65], 0x15);
    assert_eq!(bytes.len(), 10 + 15 * 65 + 1 + 5 * 65);
    match decode_gradients(&bytes) {
        GradientPayload::Quantized(bits, mn, mx, v) => {
            assert_eq!((bits, mn, mx), (4, 1, 2));
            let expect: Vec<(EntityId, EntityId, u64)> =
                (0..20).map(|i| (eid(i), eid(i), (i as u64) & 0xF)).collect();
            assert_eq!(v, expect);
        }
        _ => panic!("expected quantized entries"),
    }
}

#[test]
fn empty_quantized_batch_decodes_to_nothing() {
    let bytes = serialize_quantized(&[], 8, 7, 9);
    assert_eq!(bytes, vec![0x10u8]);
    assert!(matches!(decode_gradients(&bytes), GradientPayload::Nothing));
}

#[test]
fn quantized_width_is_clamped() {
    let e = vec![(eid(1), eid(1), 1u64)];
    assert_eq!(serialize_quantized(&e, 0, 0, 0)[1], 1);
    assert_eq!(serialize_quantized(&e, 99, 0, 0)[1], 32);
}

#[test]
fn malformed_batches_decode_what_fits() {
    assert!(matches!(decode_gradients(&[]), GradientPayload::Nothing));
    assert!(matches!(decode_gradients(&[0x20, 1, 2]), GradientPayload::Nothing));
    assert!(matches!(decode_gradients(&[0x11, 8, 0, 0]), GradientPayload::Nothing));
    match decode_gradients(&[0x01, 1, 2]) {
        GradientPayload::Raw(v) => assert!(v.is_empty()),
        _ => panic!("expected an empty raw batch"),
    }
    // Two entries announced, the second cut inside its weight.
    let grads: Vec<(EntityId, EntityId, u32)> = vec![(eid(1), eid(2), 5), (eid(3), eid(4), 6)];
    let mut cut = serialize_raw(&grads);
    cut.truncate(1 + 69 + 66);
    match decode_gradients(&cut) {
        GradientPayload::Raw(v) => assert_eq!(v, vec![(eid(1), eid(2), 5)]),
        _ => panic!("expected raw entries"),
    }
    // A quantised entry whose value is cut short reads the missing bytes as 0.
    let q = serialize_quantized(&[(eid(1), eid(2), 0x0102)], 16, 0, 0);
    match decode_gradients(&q[..q.len() - 1]) {
        GradientPayload::Quantized(_, _, _, v) => assert_eq!(v, vec![(eid(1), eid(2), 0x02)]),
        _ => panic!("expected quantized entries"),
    }
}

#[test]
fn compression_methods() {
    let m = CompressionMethod::TopKThenQuantize(3, 8);
    assert_eq!(m, CompressionMethod::TopKThenQuantize(3, 8));
    assert_ne!(CompressionMethod::NoCompression, CompressionMethod::TopK(1));
}
