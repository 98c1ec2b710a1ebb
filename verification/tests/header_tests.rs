use neuron_wire::header::{
    build_frame, build_ping, build_pong, parse_frame, parse_frame_checked, read_header,
    HeaderError, MessageHeader,
};
use neuron_wire::{HEADER_SIZE, MAGIC, MAX_BODY_SIZE, VERSION};

#[test]
fn test_header_new_validates_crc() {
    let h = MessageHeader::new(5, 100, 0x0001);
    assert_eq!(h.magic, MAGIC);
    assert_eq!(h.version, VERSION);
    assert_eq!(h.msg_type, 5);
    assert_eq!(h.body_len, 100);
    assert_eq!(h.flags, 0x0001);
    assert!(h.verify_crc());
}

#[test]
fn test_header_from_bytes_valid() {
    let h = MessageHeader::new(2, 64, 0);
    let bytes = h.to_bytes();
    let parsed = MessageHeader::from_bytes(&bytes).unwrap();
    assert_eq!(parsed.msg_type, 2);
    assert_eq!(parsed.body_len, 64);
}

#[test]
fn test_header_short_buffer() {
    let buf = [0u8; 4];
    let err = MessageHeader::from_bytes(&buf).unwrap_err();
    match err {
        HeaderError::ShortBuffer(n) => assert_eq!(n, 4),
        _ => panic!("expected ShortBuffer"),
    }
}

#[test]
fn test_header_bad_magic() {
    let mut h = MessageHeader::new(0, 0, 0);
    h.magic = [0; 4];
    let bytes = h.to_bytes();
    let err = MessageHeader::from_bytes(&bytes).unwrap_err();
    match err {
        HeaderError::BadMagic(m) => assert_eq!(m, [0; 4]),
        _ => panic!("expected BadMagic"),
    }
}

#[test]
fn test_header_bad_version() {
    let mut h = MessageHeader::new(0, 0, 0);
    h.version = 99;
    let bytes = h.to_bytes();
    let err = MessageHeader::from_bytes(&bytes).unwrap_err();
    match err {
        HeaderError::BadVersion(v) => assert_eq!(v, 99),
        _ => panic!("expected BadVersion"),
    }
}

#[test]
fn test_header_bad_crc() {
    let mut h = MessageHeader::new(0, 0, 0);
    h.header_crc = 0xDEADBEEF;
    let bytes = h.to_bytes();
    let err = MessageHeader::from_bytes(&bytes).unwrap_err();
    match err {
        HeaderError::BadCrc => {}
        _ => panic!("expected BadCrc"),
    }
}

#[test]
fn test_header_body_too_large() {
    let mut h = MessageHeader::new(0, 0, 0);
    h.body_len = MAX_BODY_SIZE + 1;
    h.header_crc = h.compute_crc();
    let bytes = h.to_bytes();
    let err = MessageHeader::from_bytes(&bytes).unwrap_err();
    match err {
        HeaderError::BodyTooLarge(s) => assert!(s > MAX_BODY_SIZE),
        _ => panic!("expected BodyTooLarge"),
    }
}

#[test]
fn test_build_frame_and_parse() {
    let body = vec![0xAB, 0xCD, 0xEF];
    let frame = build_frame(3, body.clone(), 0);
    let frame_len = u32::from_le_bytes(frame[0..4].try_into().unwrap()) as usize;
    assert_eq!(frame_len, frame.len());
    let (header, parsed_body) = parse_frame(&frame[4..]).unwrap();
    assert_eq!(header.msg_type, 3);
    assert_eq!(parsed_body, &body[..]);
}

#[test]
fn test_header_total_size() {
    let h = MessageHeader::new(0, 256, 0);
    assert_eq!(h.total_size(), HEADER_SIZE + 256);
}

#[test]
fn test_build_ping_pong() {
    let ping = build_ping();
    let pong = build_pong();
    assert!(ping.len() == 4 + HEADER_SIZE);
    assert!(pong.len() == 4 + HEADER_SIZE);
    let ping_h = MessageHeader::from_bytes(&ping[4..]).unwrap();
    assert_eq!(ping_h.msg_type, 0);
    let pong_h = MessageHeader::from_bytes(&pong[4..]).unwrap();
    assert_eq!(pong_h.msg_type, 1);
}

#[test]
fn test_header_error_display() {
    let e = HeaderError::ShortBuffer(4);
    let s = e.to_text();
    assert!(s.contains("4") && s.contains("16"));
    let e = HeaderError::BadMagic([0; 4]);
    assert!(e.to_text().contains("magic"));
    let e = HeaderError::BadVersion(99);
    assert!(e.to_text().contains("99"));
    let e = HeaderError::BadCrc;
    assert!(e.to_text().contains("CRC"));
}

#[test]
fn header_wire_layout_is_little_endian() {
    let h = MessageHeader::new(9, 0x0102_0304, 0xA0B0);
    let b = h.to_bytes();
    assert_eq!(&b[0..4], &MAGIC);
    assert_eq!(b[4], VERSION);
    assert_eq!(b[5], 9);
    assert_eq!(&b[6..8], &[0xB0, 0xA0]);
    assert_eq!(&b[8..12], &[0x04, 0x03, 0x02, 0x01]);
    assert_eq!(u32::from_le_bytes([b[12], b[13], b[14], b[15]]), h.header_crc);
    assert!(h.validate().is_ok());
}

#[test]
fn read_header_matches_from_bytes() {
    let h = MessageHeader::new(4, 10, 2);
    let b = h.to_bytes();
    let r = read_header(&b).unwrap();
    assert_eq!(r.msg_type, 4);
    assert_eq!(r.flags, 2);
    assert!(matches!(read_header(&b[..15]), Err(HeaderError::ShortBuffer(15))));
}

#[test]
fn parse_frame_checked_reports_missing_body() {
    let frame = build_frame(6, vec![1, 2, 3, 4, 5], 0);
    let inner = &frame[4..];
    let short = &inner[..inner.len() - 1];
    assert!(matches!(parse_frame_checked(short), Err(HeaderError::ShortBuffer(n)) if n == short.len()));
    match parse_frame_checked(inner) {
        Ok((h, body)) => {
            assert_eq!(h.body_len, 5);
            assert_eq!(body, &[1, 2, 3, 4, 5]);
        }
        _ => panic!("expected a parsed frame"),
    }
    let mut bad = inner.to_vec();
    bad[4] = 7;
    assert!(matches!(parse_frame_checked(&bad), Err(HeaderError::BadVersion(7))));
}
