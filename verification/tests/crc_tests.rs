use neuron_wire::crc::crc32;

#[test]
fn test_crc32_empty() {
    assert_eq!(crc32(&[]), 0x00000000);
}

#[test]
fn test_crc32_known_value() {
    assert_eq!(crc32(b"hello"), 0x3610A686);
}

#[test]
fn test_crc32_different_inputs() {
    assert_ne!(crc32(b"abc"), crc32(b"xyz"));
}

#[test]
fn test_crc32_deterministic() {
    let data = b"the quick brown fox jumps over the lazy dog";
    assert_eq!(crc32(data), crc32(data));
}

#[test]
fn test_crc32_nonzero_different() {
    let a = crc32(&[1, 2, 3]);
    let b = crc32(&[4, 5, 6]);
    assert_ne!(a, b, "different inputs should yield different CRCs");
}

#[test]
fn crc32_check_value() {
    assert_eq!(crc32(b"123456789"), 0xCBF43926);
}
