//! Framing over a byte stream: the 4-byte length prefix and its limit,
//! and the errors of reading and writing frames. The socket calls
//! themselves live with the application.

use vstd::prelude::*;

use crate::error::io_error_text;
use crate::header::HeaderError;
use crate::text::{dec, push_dec};
use crate::wire::{le32, u32_le};
use crate::{HEADER_SIZE, MAX_BODY_SIZE};

verus! {

/// Errors of reading or writing frames.
#[derive(Debug)]
pub enum IoError {
    /// Reading from the stream failed.
    Read(std::io::Error),
    /// Writing to the stream failed.
    Write(std::io::Error),
    /// The frame's header was refused.
    BadHeader(HeaderError),
    /// The announced frame length exceeds the limit.
    FrameTooLarge(usize),
    /// The peer closed the connection.
    ConnectionClosed,
}

impl IoError {
    /// The message of this error; `None` where it embeds an operating-system
    /// I/O message.
    pub open spec fn spec_text(&self) -> Option<Seq<char>> {
        match self {
            IoError::Read(_) => None,
            IoError::Write(_) => None,
            IoError::BadHeader(e) => Some("header: "@ + e.spec_text()),
            IoError::FrameTooLarge(n) => Some("frame too large: "@ + dec(*n as nat) + "B"@),
            IoError::ConnectionClosed => Some("connection closed"@),
        }
    }

    /// Render the message of this error.
    pub fn to_text(&self) -> (s: String)
        ensures
            self.spec_text() matches Some(t) ==> s@ == t,
            self is Read ==> s@.len() >= "read: "@.len() && s@.subrange(0, "read: "@.len() as int)
                == "read: "@,
            self is Write ==> s@.len() >= "write: "@.len() && s@.subrange(
                0,
                "write: "@.len() as int,
            ) == "write: "@,
    {
        let mut s = String::new();
        match self {
            IoError::Read(e) => {
                s.append("read: ");
                let t = io_error_text(e);
                s.append(t.as_str());
                assert(s@.subrange(0, "read: "@.len() as int) =~= "read: "@);
            },
            IoError::Write(e) => {
                s.append("write: ");
                let t = io_error_text(e);
                s.append(t.as_str());
                assert(s@.subrange(0, "write: "@.len() as int) =~= "write: "@);
            },
            IoError::BadHeader(e) => {
                s.append("header: ");
                let t = e.to_text();
                s.append(t.as_str());
            },
            IoError::FrameTooLarge(n) => {
                s.append("frame too large: ");
                push_dec(&mut s, *n as u64);
                s.append("B");
            },
            IoError::ConnectionClosed => {
                s.append("connection closed");
            },
        }
        assert(self.spec_text() matches Some(t) ==> s@ =~= t);
        s
    }
}

/// The standard library's classification of I/O errors, carried through.
#[verifier::external_type_specification]
#[verifier::external_body]
pub struct ExIoErrorKind(std::io::ErrorKind);

/// How a failed stream operation ended, as the framing logic reads it:
/// at an unexpected end of stream, or with some other kind of I/O error.
#[derive(Debug, Clone, Copy)]
pub enum StreamErrorKind {
    /// The stream ended before the bytes asked for arrived.
    UnexpectedEof,
    /// Any other kind of I/O error.
    Other(std::io::ErrorKind),
}

/// A fresh I/O error of the given kind with the message "i/o error".
///
/// Trusted: calls `std::io::Error::new`; the error is carried unexamined.
#[verifier::external_body]
fn error_of_kind(kind: std::io::ErrorKind) -> std::io::Error {
    std::io::Error::new(kind, "i/o error")
}

/// Classify a failed stream operation: an unexpected end of stream means
/// the peer closed the connection; any other kind is a read error made
/// from that kind.
pub fn io_error(kind: StreamErrorKind) -> (e: IoError)
    ensures
        e is ConnectionClosed <==> kind is UnexpectedEof,
        kind is Other ==> e is Read,
{
    match kind {
        StreamErrorKind::UnexpectedEof => IoError::ConnectionClosed,
        StreamErrorKind::Other(k) => IoError::Read(error_of_kind(k)),
    }
}

/// The largest frame a stream reader accepts: a maximal body plus its header.
pub open spec fn max_frame_len() -> int {
    MAX_BODY_SIZE + HEADER_SIZE
}

/// Decode the 4-byte little-endian length prefix of an incoming frame and
/// check it against the limit.
pub fn decode_frame_len(prefix: [u8; 4]) -> (r: Result<usize, IoError>)
    ensures
        ({
            let n = u32_le(prefix[0], prefix[1], prefix[2], prefix[3]);
            &&& n <= max_frame_len() ==> (r matches Ok(len) && len == n)
            &&& n > max_frame_len() ==> (r matches Err(IoError::FrameTooLarge(len)) && len == n)
        }),
{
    let n: u32 = (prefix[0] as u32) | ((prefix[1] as u32) << 8u32) | ((prefix[2] as u32) << 16u32)
        | ((prefix[3] as u32) << 24u32);
    let frame_len: usize = n as usize;
    if frame_len > MAX_BODY_SIZE as usize + HEADER_SIZE {
        return Err(IoError::FrameTooLarge(frame_len));
    }
    Ok(frame_len)
}

/// The 4-byte length prefix written before a message of `msg_len` bytes
/// (the length modulo 2^32, as `as u32` does).
pub fn frame_len_prefix(msg_len: usize) -> (b: [u8; 4])
    ensures
        b@ == le32(msg_len as u32),
{
    let n: u32 = #[verifier::truncate] (msg_len as u32);
    let b: [u8; 4] = [n as u8, (n >> 8u32) as u8, (n >> 16u32) as u8, (n >> 24u32) as u8];
    assert(b@ =~= le32(msg_len as u32));
    b
}

} // verus!
