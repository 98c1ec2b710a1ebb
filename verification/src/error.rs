//! Structured error types for the Neuron Wire Protocol, with their
//! severity and their messages.

use vstd::prelude::*;

use crate::header::HeaderError;
use crate::text::{dec, push_dec};

verus! {

/// The standard library's I/O error, carried through unchanged.
#[verifier::external_type_specification]
#[verifier::external_body]
pub struct ExIoError(std::io::Error);

/// The message of an I/O error, as its `Display` renders it.
///
/// Trusted: formats `e` with `std::fmt::Display`; nothing is claimed about
/// the text, which the operating system supplies.
#[verifier::external_body]
pub(crate) fn io_error_text(e: &std::io::Error) -> String {
    format!("{}", e)
}

/// Errors specific to the UDP transport layer.
#[derive(Debug)]
pub enum TransportError {
    /// Received packet is too short to contain a transport header.
    PacketTooShort {
        /// Bytes actually available.
        actual: usize,
        /// Bytes required by the protocol.
        expected: usize,
    },
    /// Sequence number is invalid or out of window.
    InvalidSequence(u32),
    /// Socket bind or send/recv failure.
    Io(std::io::Error),
}

/// Severity level of an [`NwpError`].
#[derive(Debug, Clone, Copy, PartialEq, Eq, Hash, Structural)]
pub enum ErrorSeverity {
    /// Operation cannot proceed; peer should be disconnected.
    Critical,
    /// Unexpected but recoverable; packet dropped, peer retained.
    Warning,
    /// Informational; logged but no action needed.
    Info,
}

/// The unified error type for the Neuron Wire Protocol engine.
#[derive(Debug)]
#[must_use]
pub enum NwpError {
    /// Malformed or invalid header.
    Header(HeaderError),
    /// Transport-layer error.
    Transport(TransportError),
    /// Ed25519 signature verification failed.
    AuthenticationFailed {
        /// Human-readable reason.
        reason: String,
    },
    /// AEAD encryption failed.
    EncryptionFailed {
        /// Human-readable reason.
        reason: String,
    },
    /// AEAD decryption failed.
    DecryptionFailed {
        /// Human-readable reason.
        reason: String,
    },
    /// Peer exceeded per-peer or global rate limit.
    RateLimited,
    /// Trust score has decayed below usable threshold.
    TrustExpired,
    /// Node has reached maximum peer capacity.
    TooManyPeers {
        /// Configured maximum.
        max: usize,
    },
    /// Single IP address has exceeded its per-IP connection limit.
    PerIPLimit {
        /// The offending IP.
        ip: String,
        /// Configured per-IP maximum.
        max: usize,
    },
    /// Connection refused by the remote peer or local policy.
    ConnectionRefused {
        /// Human-readable reason.
        reason: String,
    },
    /// DHT operation failed.
    DhtError {
        /// Which DHT operation.
        operation: String,
        /// Human-readable reason.
        reason: String,
    },
    /// Configuration validation failed.
    ConfigError {
        /// The offending config field name.
        field: String,
        /// Human-readable reason.
        reason: String,
    },
    /// Standard library I/O error.
    Io(std::io::Error),
    /// Message serialization or deserialization failed.
    Serialization(String),
}

impl TransportError {
    /// The message of this error; `None` for an I/O error, whose text the
    /// operating system supplies.
    pub open spec fn spec_text(&self) -> Option<Seq<char>> {
        match self {
            TransportError::PacketTooShort { actual, expected } => Some(
                "packet too short: "@ + dec(*actual as nat) + " bytes (need "@ + dec(
                    *expected as nat,
                ) + ")"@,
            ),
            TransportError::InvalidSequence(seq) => Some(
                "invalid sequence number: "@ + dec(*seq as nat),
            ),
            TransportError::Io(_) => None,
        }
    }

    /// Render the message of this error.
    pub fn to_text(&self) -> (s: String)
        ensures
            self.spec_text() matches Some(t) ==> s@ == t,
            self is Io ==> s@.len() >= "transport I/O: "@.len() && s@.subrange(
                0,
                "transport I/O: "@.len() as int,
            ) == "transport I/O: "@,
    {
        let mut s = String::new();
        match self {
            TransportError::PacketTooShort { actual, expected } => {
                s.append("packet too short: ");
                push_dec(&mut s, *actual as u64);
                s.append(" bytes (need ");
                push_dec(&mut s, *expected as u64);
                s.append(")");
            },
            TransportError::InvalidSequence(seq) => {
                s.append("invalid sequence number: ");
                push_dec(&mut s, *seq as u64);
            },
            TransportError::Io(e) => {
                s.append("transport I/O: ");
                let t = io_error_text(e);
                s.append(t.as_str());
                assert(s@.subrange(0, "transport I/O: "@.len() as int) =~= "transport I/O: "@);
            },
        }
        assert(self.spec_text() matches Some(t) ==> s@ =~= t);
        s
    }
}

impl NwpError {
    /// The severity of each error: protocol and security failures are
    /// critical, recoverable transport and connection problems are
    /// warnings, configuration errors are informational.
    pub open spec fn spec_severity(&self) -> ErrorSeverity {
        match self {
            NwpError::Header(_) => ErrorSeverity::Critical,
            NwpError::AuthenticationFailed { .. } => ErrorSeverity::Critical,
            NwpError::EncryptionFailed { .. } => ErrorSeverity::Critical,
            NwpError::DecryptionFailed { .. } => ErrorSeverity::Critical,
            NwpError::TrustExpired => ErrorSeverity::Critical,
            NwpError::Serialization(_) => ErrorSeverity::Critical,
            NwpError::Io(_) => ErrorSeverity::Critical,
            NwpError::Transport(_) => ErrorSeverity::Warning,
            NwpError::RateLimited => ErrorSeverity::Warning,
            NwpError::TooManyPeers { .. } => ErrorSeverity::Warning,
            NwpError::PerIPLimit { .. } => ErrorSeverity::Warning,
            NwpError::ConnectionRefused { .. } => ErrorSeverity::Warning,
            NwpError::DhtError { .. } => ErrorSeverity::Warning,
            NwpError::ConfigError { .. } => ErrorSeverity::Info,
        }
    }

    /// The severity level of this error.
    pub fn severity(&self) -> (s: ErrorSeverity)
        ensures
            s == self.spec_severity(),
    {
        match self {
            NwpError::Header(_) => ErrorSeverity::Critical,
            NwpError::AuthenticationFailed { .. } => ErrorSeverity::Critical,
            NwpError::EncryptionFailed { .. } => ErrorSeverity::Critical,
            NwpError::DecryptionFailed { .. } => ErrorSeverity::Critical,
            NwpError::TrustExpired => ErrorSeverity::Critical,
            NwpError::Serialization(_) => ErrorSeverity::Critical,
            NwpError::Io(_) => ErrorSeverity::Critical,
            NwpError::Transport(_) => ErrorSeverity::Warning,
            NwpError::RateLimited => ErrorSeverity::Warning,
            NwpError::TooManyPeers { .. } => ErrorSeverity::Warning,
            NwpError::PerIPLimit { .. } => ErrorSeverity::Warning,
            NwpError::ConnectionRefused { .. } => ErrorSeverity::Warning,
            NwpError::DhtError { .. } => ErrorSeverity::Warning,
            NwpError::ConfigError { .. } => ErrorSeverity::Info,
        }
    }

    /// Whether this error wraps an underlying error (header, transport or I/O).
    pub fn has_source(&self) -> (b: bool)
        ensures
            b == (self is Header || self is Transport || self is Io),
    {
        match self {
            NwpError::Header(_) => true,
            NwpError::Transport(_) => true,
            NwpError::Io(_) => true,
            _ => false,
        }
    }

    /// The message of this error; `None` where it embeds an operating-system
    /// I/O message.
    pub open spec fn spec_text(&self) -> Option<Seq<char>> {
        match self {
            NwpError::Header(e) => Some("header error: "@ + e.spec_text()),
            NwpError::Transport(e) => match e.spec_text() {
                Some(t) => Some("transport error: "@ + t),
                None => None,
            },
            NwpError::AuthenticationFailed { reason } => Some(
                "authentication failed: "@ + reason@,
            ),
            NwpError::EncryptionFailed { reason } => Some("encryption failed: "@ + reason@),
            NwpError::DecryptionFailed { reason } => Some("decryption failed: "@ + reason@),
            NwpError::RateLimited => Some("rate limited"@),
            NwpError::TrustExpired => Some("trust expired"@),
            NwpError::TooManyPeers { max } => Some(
                "too many peers (max: "@ + dec(*max as nat) + ")"@,
            ),
            NwpError::PerIPLimit { ip, max } => Some(
                "per-IP limit reached for "@ + ip@ + " (max: "@ + dec(*max as nat) + ")"@,
            ),
            NwpError::ConnectionRefused { reason } => Some("connection refused: "@ + reason@),
            NwpError::DhtError { operation, reason } => Some(
                "DHT "@ + operation@ + " failed: "@ + reason@,
            ),
            NwpError::ConfigError { field, reason } => Some(
                "config error in '"@ + field@ + "': "@ + reason@,
            ),
            NwpError::Io(_) => None,
            NwpError::Serialization(msg) => Some("serialization error: "@ + msg@),
        }
    }

    /// Render the message of this error.
    pub fn to_text(&self) -> (s: String)
        ensures
            self.spec_text() matches Some(t) ==> s@ == t,
            self is Io ==> s@.len() >= "I/O error: "@.len() && s@.subrange(
                0,
                "I/O error: "@.len() as int,
            ) == "I/O error: "@,
    {
        let mut s = String::new();
        match self {
            NwpError::Header(e) => {
                s.append("header error: ");
                let t = e.to_text();
                s.append(t.as_str());
            },
            NwpError::Transport(e) => {
                s.append("transport error: ");
                let t = e.to_text();
                s.append(t.as_str());
            },
            NwpError::AuthenticationFailed { reason } => {
                s.append("authentication failed: ");
                s.append(reason.as_str());
            },
            NwpError::EncryptionFailed { reason } => {
                s.append("encryption failed: ");
                s.append(reason.as_str());
            },
            NwpError::DecryptionFailed { reason } => {
                s.append("decryption failed: ");
                s.append(reason.as_str());
            },
            NwpError::RateLimited => {
                s.append("rate limited");
            },
            NwpError::TrustExpired => {
                s.append("trust expired");
            },
            NwpError::TooManyPeers { max } => {
                s.append("too many peers (max: ");
                push_dec(&mut s, *max as u64);
                s.append(")");
            },
            NwpError::PerIPLimit { ip, max } => {
                s.append("per-IP limit reached for ");
                s.append(ip.as_str());
                s.append(" (max: ");
                push_dec(&mut s, *max as u64);
                s.append(")");
            },
            NwpError::ConnectionRefused { reason } => {
                s.append("connection refused: ");
                s.append(reason.as_str());
            },
            NwpError::DhtError { operation, reason } => {
                s.append("DHT ");
                s.append(operation.as_str());
                s.append(" failed: ");
                s.append(reason.as_str());
            },
            NwpError::ConfigError { field, reason } => {
                s.append("config error in '");
                s.append(field.as_str());
                s.append("': ");
                s.append(reason.as_str());
            },
            NwpError::Io(e) => {
                s.append("I/O error: ");
                let t = io_error_text(e);
                s.append(t.as_str());
                assert(s@.subrange(0, "I/O error: "@.len() as int) =~= "I/O error: "@);
            },
            NwpError::Serialization(msg) => {
                s.append("serialization error: ");
                s.append(msg.as_str());
            },
        }
        assert(self.spec_text() matches Some(t) ==> s@ =~= t);
        s
    }

    /// A [`NwpError::ConnectionRefused`] with the given reason.
    pub fn connection_refused(reason: &str) -> (e: Self)
        ensures
            e matches NwpError::ConnectionRefused { reason: r } && r@ == reason@,
    {
        NwpError::ConnectionRefused { reason: reason.to_owned() }
    }

    /// A [`NwpError::DhtError`] for the given operation and reason.
    pub fn dht(operation: &str, reason: &str) -> (e: Self)
        ensures
            e matches NwpError::DhtError { operation: o, reason: r } && o@ == operation@ && r@
                == reason@,
    {
        NwpError::DhtError { operation: operation.to_owned(), reason: reason.to_owned() }
    }

    /// A [`NwpError::ConfigError`] for the given field and reason.
    pub fn config(field: &str, reason: &str) -> (e: Self)
        ensures
            e matches NwpError::ConfigError { field: f, reason: r } && f@ == field@ && r@
                == reason@,
    {
        NwpError::ConfigError { field: field.to_owned(), reason: reason.to_owned() }
    }

    /// A [`NwpError::Serialization`] with the given message.
    pub fn serialization(msg: &str) -> (e: Self)
        ensures
            e matches NwpError::Serialization(m) && m@ == msg@,
    {
        NwpError::Serialization(msg.to_owned())
    }
}

impl From<HeaderError> for NwpError {
    fn from(e: HeaderError) -> (r: Self) {
        NwpError::Header(e)
    }
}

impl vstd::std_specs::convert::FromSpecImpl<HeaderError> for NwpError {
    open spec fn obeys_from_spec() -> bool {
        true
    }

    open spec fn from_spec(e: HeaderError) -> Self {
        NwpError::Header(e)
    }
}

impl From<TransportError> for NwpError {
    fn from(e: TransportError) -> (r: Self) {
        NwpError::Transport(e)
    }
}

impl vstd::std_specs::convert::FromSpecImpl<TransportError> for NwpError {
    open spec fn obeys_from_spec() -> bool {
        true
    }

    open spec fn from_spec(e: TransportError) -> Self {
        NwpError::Transport(e)
    }
}

impl From<std::io::Error> for NwpError {
    fn from(e: std::io::Error) -> (r: Self) {
        NwpError::Io(e)
    }
}

impl vstd::std_specs::convert::FromSpecImpl<std::io::Error> for NwpError {
    open spec fn obeys_from_spec() -> bool {
        true
    }

    open spec fn from_spec(e: std::io::Error) -> Self {
        NwpError::Io(e)
    }
}

} // verus!
