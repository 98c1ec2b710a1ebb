use neuron_wire::error::{ErrorSeverity, NwpError, TransportError};
use neuron_wire::header::HeaderError;

#[test]
fn test_display_all_variants() {
    let cases: Vec<(NwpError, &str)> = vec![
        (NwpError::Header(HeaderError::BadCrc), "header error: CRC mismatch"),
        (
            NwpError::Transport(TransportError::PacketTooShort { actual: 8, expected: 16 }),
            "transport error: packet too short: 8 bytes (need 16)",
        ),
        (
            NwpError::AuthenticationFailed { reason: "bad sig".into() },
            "authentication failed: bad sig",
        ),
        (
            NwpError::EncryptionFailed { reason: "nonce overflow".into() },
            "encryption failed: nonce overflow",
        ),
        (
            NwpError::DecryptionFailed { reason: "tag mismatch".into() },
            "decryption failed: tag mismatch",
        ),
        (NwpError::RateLimited, "rate limited"),
        (NwpError::TrustExpired, "trust expired"),
        (NwpError::TooManyPeers { max: 500 }, "too many peers (max: 500)"),
        (
            NwpError::PerIPLimit { ip: "1.2.3.4".into(), max: 10 },
            "per-IP limit reached for 1.2.3.4 (max: 10)",
        ),
        (
            NwpError::ConnectionRefused { reason: "shutdown".into() },
            "connection refused: shutdown",
        ),
        (
            NwpError::DhtError { operation: "find_node".into(), reason: "timeout".into() },
            "DHT find_node failed: timeout",
        ),
        (
            NwpError::ConfigError { field: "max_peers".into(), reason: "must be > 0".into() },
            "config error in 'max_peers': must be > 0",
        ),
        (NwpError::Serialization("bad frame".into()), "serialization error: bad frame"),
    ];

    for (err, expected) in &cases {
        let s = err.to_text();
        assert!(s.contains(expected), "Display mismatch: got '{}' expected '{}'", s, expected);
    }
}

#[test]
fn test_severity_levels() {
    assert_eq!(NwpError::Header(HeaderError::BadCrc).severity(), ErrorSeverity::Critical);
    assert_eq!(
        NwpError::AuthenticationFailed { reason: "x".into() }.severity(),
        ErrorSeverity::Critical
    );
    assert_eq!(NwpError::RateLimited.severity(), ErrorSeverity::Warning);
    assert_eq!(NwpError::TooManyPeers { max: 1 }.severity(), ErrorSeverity::Warning);
    assert_eq!(
        NwpError::ConfigError { field: "x".into(), reason: "y".into() }.severity(),
        ErrorSeverity::Info
    );
}

#[test]
fn test_from_header_error() {
    let header_err = HeaderError::BadCrc;
    let nwp_err: NwpError = header_err.into();
    assert!(matches!(nwp_err, NwpError::Header(_)));
    assert_eq!(nwp_err.severity(), ErrorSeverity::Critical);
}

#[test]
fn test_from_io_error() {
    let io_err = std::io::Error::new(std::io::ErrorKind::BrokenPipe, "pipe");
    let nwp_err: NwpError = io_err.into();
    assert!(matches!(nwp_err, NwpError::Io(_)));
}

#[test]
fn test_from_transport_error() {
    let t_err = TransportError::PacketTooShort { actual: 4, expected: 16 };
    let nwp_err: NwpError = t_err.into();
    assert!(matches!(nwp_err, NwpError::Transport(_)));
}

#[test]
fn test_convenience_constructors() {
    let e = NwpError::connection_refused("nope");
    assert!(matches!(e, NwpError::ConnectionRefused { .. }));

    let e = NwpError::dht("ping", "timeout");
    assert!(matches!(e, NwpError::DhtError { .. }));

    let e = NwpError::config("bind_addr", "invalid");
    assert!(matches!(e, NwpError::ConfigError { .. }));

    let e = NwpError::serialization("truncated");
    assert!(matches!(e, NwpError::Serialization(_)));
}

#[test]
fn test_must_use_compile() {
    let _err = NwpError::RateLimited;
}

#[test]
fn test_error_trait_source() {
    let io_err = std::io::Error::other("test");
    let nwp_err: NwpError = io_err.into();
    assert!(nwp_err.has_source());

    let header_err = NwpError::Header(HeaderError::BadCrc);
    assert!(header_err.has_source());

    let rate = NwpError::RateLimited;
    assert!(!rate.has_source());
}

#[test]
fn transport_error_texts() {
    assert_eq!(TransportError::InvalidSequence(7).to_text(), "invalid sequence number: 7");
    let e = TransportError::Io(std::io::Error::other("boom"));
    assert!(e.to_text().starts_with("transport I/O: "));
}

#[test]
fn constructor_fields() {
    match NwpError::dht("store", "full") {
        NwpError::DhtError { operation, reason } => {
            assert_eq!(operation, "store");
            assert_eq!(reason, "full");
        }
        _ => panic!("expected DhtError"),
    }
}
