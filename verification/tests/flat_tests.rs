use neuron_wire::flat::{read_u32, read_u64, write_u32, write_u64, BodyBuilder, BodyReader};

#[test]
fn test_body_roundtrip() {
    let mut bb = BodyBuilder::new(16);
    bb.write_u32(0, 42);
    bb.write_u64(4, 0xDEAD_BEEF);
    let str_offset = bb.push_data(b"hello neuron");
    bb.write_u32(12, str_offset);

    let body = bb.finish();
    assert!(body.len() >= 16);

    let reader = BodyReader::new(&body);
    assert_eq!(reader.read_u32(0), 42);
    assert_eq!(reader.read_u64(4), 0xDEAD_BEEF);
    assert_eq!(reader.read_string(12), Some("hello neuron"));
}

#[test]
fn test_absent_field() {
    let mut bb = BodyBuilder::new(4);
    bb.write_u32(0, 0);

    let body = bb.finish();
    let reader = BodyReader::new(&body);
    assert!(reader.read_string(0).is_none());
}

#[test]
fn test_zero_copy_proof() {
    let mut bb = BodyBuilder::new(8);
    bb.write_u64(0, 0x4242);
    let body = bb.finish();

    let reader = BodyReader::new(&body);
    assert_eq!(reader.read_u64(0), 0x4242);
}

#[test]
fn data_item_layout_is_length_prefixed() {
    let mut bb = BodyBuilder::new(4);
    let off = bb.push_data(&[7, 8, 9]);
    assert_eq!(off, 4);
    bb.write_u32(0, off);
    let body = bb.finish();
    assert_eq!(body, vec![4, 0, 0, 0, 3, 0, 0, 0, 7, 8, 9]);
    let reader = BodyReader::new(&body);
    assert_eq!(reader.read_bytes(0), Some(&[7u8, 8, 9][..]));
    assert_eq!(reader.raw(), &body[..]);
}

#[test]
fn free_readers_and_writers_roundtrip() {
    let mut buf = [0u8; 12];
    write_u32(&mut buf, 0, 0x1122_3344);
    write_u64(&mut buf, 4, 0x0102_0304_0506_0708);
    assert_eq!(buf[0], 0x44);
    assert_eq!(read_u32(&buf, 0), 0x1122_3344);
    assert_eq!(read_u64(&buf, 4), 0x0102_0304_0506_0708);
}

#[test]
fn u16_fields_roundtrip() {
    let mut bb = BodyBuilder::new(2);
    bb.write_u16(0, 0xBEEF);
    let body = bb.finish();
    assert_eq!(body, vec![0xEF, 0xBE]);
    assert_eq!(BodyReader::new(&body).read_u16(0), 0xBEEF);
}
