use neuron_wire::header::HeaderError;
use neuron_wire::io::{decode_frame_len, frame_len_prefix, io_error, IoError, StreamErrorKind};

#[test]
fn test_io_error_display() {
    let e = IoError::ConnectionClosed;
    assert_eq!(e.to_text(), "connection closed");
    let e = IoError::FrameTooLarge(999999);
    assert!(e.to_text().contains("999999"));
    let header_err = HeaderError::ShortBuffer(4);
    let e = IoError::BadHeader(header_err);
    assert!(e.to_text().contains("header:"));
}

#[test]
fn test_frame_too_large_error() {
    let e = IoError::FrameTooLarge(1_000_000_100);
    assert!(e.to_text().contains("frame too large"));
}

#[test]
fn frame_length_prefix_limits() {
    assert!(matches!(decode_frame_len(16u32.to_le_bytes()), Ok(16)));
    assert!(matches!(decode_frame_len(1_000_000_016u32.to_le_bytes()), Ok(1_000_000_016)));
    assert!(matches!(
        decode_frame_len(1_000_000_017u32.to_le_bytes()),
        Err(IoError::FrameTooLarge(1_000_000_017))
    ));
    assert_eq!(frame_len_prefix(300), [0x2C, 0x01, 0, 0]);
    assert_eq!(IoError::FrameTooLarge(5).to_text(), "frame too large: 5B");
}

#[test]
fn closed_stream_versus_other_failures() {
    assert!(matches!(io_error(StreamErrorKind::UnexpectedEof), IoError::ConnectionClosed));
    match io_error(StreamErrorKind::Other(std::io::ErrorKind::TimedOut)) {
        IoError::Read(err) => assert_eq!(err.kind(), std::io::ErrorKind::TimedOut),
        _ => panic!("expected a read error"),
    }
    let e = io_error(StreamErrorKind::Other(std::io::ErrorKind::BrokenPipe));
    assert_eq!(e.to_text(), "read: i/o error");
}
