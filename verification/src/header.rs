//! MessageHeader: 16 bytes at the start of every message.
//!
//! Binary layout (little-endian):
//! ```text
//! [0-3]   magic: [u8; 4]    = "NWP\0"
//! [4]     version: u8       = 2
//! [5]     msg_type: u8      = message type
//! [6-7]   flags: u16        = bit flags
//! [8-11]  body_len: u32     = body length in bytes
//! [12-15] header_crc: u32   = CRC32 of bytes [0..12)
//! ```

use vstd::prelude::*;

use crate::crc::{crc32, spec_crc32};
use crate::text::{dec, hex2, push_dec, push_hex2};
use crate::wire::{get_u16_le, get_u32_le, le16, le32, lemma_le16_roundtrip, lemma_le32_roundtrip, lemma_u32_le_bytes, push_bytes, push_u32_le, u16_le, u32_le};
use crate::{HEADER_SIZE, MAX_BODY_SIZE, VERSION};

verus! {

/// Payload is AEAD-encrypted with XChaCha20-Poly1305.
pub const FLAG_ENCRYPTED: u16 = 0x0001;

/// Payload includes identity auth prefix (32-byte public key + 64-byte signature).
pub const FLAG_AUTHENTICATED: u16 = 0x0002;

/// This message is part of a secure channel handshake.
pub const FLAG_HANDSHAKE: u16 = 0x0004;

/// Sender is requesting an audit proof in response.
pub const FLAG_AUDIT_REQUEST: u16 = 0x0008;

/// Message body is a bootstrap proof payload.
pub const FLAG_BOOTSTRAP: u16 = 0x0010;

/// The protocol magic as a byte sequence.
pub open spec fn magic_seq() -> Seq<u8> {
    seq![0x4Eu8, 0x57u8, 0x50u8, 0x00u8]
}

/// 16-byte message header.
#[derive(Debug, Clone, Copy)]
pub struct MessageHeader {
    /// 4-byte protocol magic (`NWP\0`).
    pub magic: [u8; 4],
    /// Wire-format version; must equal [`VERSION`].
    pub version: u8,
    /// Message-type discriminator (0 = Ping, 1 = Pong, ...).
    pub msg_type: u8,
    /// Bit-flag field.
    pub flags: u16,
    /// Length of the message body in bytes.
    pub body_len: u32,
    /// CRC32 of header bytes `[0..12)`.
    pub header_crc: u32,
}

/// Errors that can occur when parsing or validating a [`MessageHeader`].
#[derive(Debug, Clone, Copy)]
pub enum HeaderError {
    /// The input buffer (of the given length) is shorter than
    /// [`HEADER_SIZE`], or than the body its header declares.
    ShortBuffer(usize),
    /// The magic bytes do not match the protocol magic.
    BadMagic([u8; 4]),
    /// The wire-format version does not match [`VERSION`].
    BadVersion(u8),
    /// The header CRC does not match the CRC of bytes `[0..12)`.
    BadCrc,
    /// The declared body length exceeds [`MAX_BODY_SIZE`].
    BodyTooLarge(u32),
}

impl MessageHeader {
    /// The first 12 bytes of the wire form: everything the CRC covers.
    pub open spec fn spec_prefix(self) -> Seq<u8> {
        self.magic@ + seq![self.version, self.msg_type] + le16(self.flags) + le32(self.body_len)
    }

    /// The full 16-byte wire form.
    pub open spec fn spec_bytes(self) -> Seq<u8> {
        self.spec_prefix() + le32(self.header_crc)
    }

    /// Whether the stored CRC matches the CRC of the first 12 bytes.
    pub open spec fn spec_crc_ok(self) -> bool {
        self.header_crc == spec_crc32(self.spec_prefix())
    }

    /// The outcome of validation: the first failing check, in order
    /// magic, version, CRC, body size.
    pub open spec fn spec_validate(self) -> Result<(), HeaderError> {
        if self.magic@ != magic_seq() {
            Err(HeaderError::BadMagic(self.magic))
        } else if self.version != VERSION {
            Err(HeaderError::BadVersion(self.version))
        } else if !self.spec_crc_ok() {
            Err(HeaderError::BadCrc)
        } else if self.body_len > MAX_BODY_SIZE {
            Err(HeaderError::BodyTooLarge(self.body_len))
        } else {
            Ok(())
        }
    }

    /// Construct a header with the given fields; `header_crc` is computed
    /// from the other fields.
    pub fn new(msg_type: u8, body_len: u32, flags: u16) -> (h: Self)
        ensures
            h.magic@ == magic_seq(),
            h.version == VERSION,
            h.msg_type == msg_type,
            h.flags == flags,
            h.body_len == body_len,
            h.spec_crc_ok(),
    {
        let mut h = MessageHeader {
            magic: [0x4Eu8, 0x57u8, 0x50u8, 0x00u8],
            version: VERSION,
            msg_type,
            flags,
            body_len,
            header_crc: 0,
        };
        assert(h.magic@ =~= magic_seq());
        h.header_crc = h.compute_crc();
        h
    }

    /// Serialize to the 16-byte wire form.
    pub fn to_bytes(&self) -> (b: [u8; 16])
        ensures
            b@ == self.spec_bytes(),
    {
        let b: [u8; 16] = [
            self.magic[0],
            self.magic[1],
            self.magic[2],
            self.magic[3],
            self.version,
            self.msg_type,
            self.flags as u8,
            (self.flags >> 8u16) as u8,
            self.body_len as u8,
            (self.body_len >> 8u32) as u8,
            (self.body_len >> 16u32) as u8,
            (self.body_len >> 24u32) as u8,
            self.header_crc as u8,
            (self.header_crc >> 8u32) as u8,
            (self.header_crc >> 16u32) as u8,
            (self.header_crc >> 24u32) as u8,
        ];
        assert(b@ =~= self.spec_bytes());
        b
    }

    /// The CRC of the first 12 wire bytes of this header.
    pub fn compute_crc(&self) -> (c: u32)
        ensures
            c == spec_crc32(self.spec_prefix()),
    {
        let bytes = self.to_bytes();
        let prefix = vstd::slice::slice_subrange(bytes.as_slice(), 0, 12);
        assert(prefix@ =~= self.spec_prefix());
        crc32(prefix)
    }

    /// Whether the stored CRC matches the CRC of the first 12 wire bytes.
    pub fn verify_crc(&self) -> (ok: bool)
        ensures
            ok == self.spec_crc_ok(),
    {
        self.header_crc == self.compute_crc()
    }

    /// Validate the header: magic, version, CRC and body size, in that order.
    /// Returns the first failure found.
    pub fn validate(&self) -> (r: Result<(), HeaderError>)
        ensures
            r == self.spec_validate(),
    {
        if !(self.magic[0] == 0x4Eu8 && self.magic[1] == 0x57u8 && self.magic[2] == 0x50u8
            && self.magic[3] == 0x00u8) {
            assert(self.magic@ != magic_seq()) by {
                if self.magic@ == magic_seq() {
                    assert(self.magic@[0] == 0x4Eu8);
                    assert(self.magic@[1] == 0x57u8);
                    assert(self.magic@[2] == 0x50u8);
                    assert(self.magic@[3] == 0x00u8);
                }
            }
            return Err(HeaderError::BadMagic(self.magic));
        }
        assert(self.magic@ =~= magic_seq());
        if self.version != VERSION {
            return Err(HeaderError::BadVersion(self.version));
        }
        if !self.verify_crc() {
            return Err(HeaderError::BadCrc);
        }
        if self.body_len > MAX_BODY_SIZE {
            return Err(HeaderError::BodyTooLarge(self.body_len));
        }
        Ok(())
    }

    /// Total on-wire size: header size plus body length.
    pub fn total_size(&self) -> (n: usize)
        requires
            HEADER_SIZE + self.body_len <= usize::MAX,
        ensures
            n == HEADER_SIZE + self.body_len,
    {
        HEADER_SIZE + self.body_len as usize
    }
}

/// Whether the first 16 bytes of `s` form a header that validation accepts.
pub open spec fn header_accepts(s: Seq<u8>) -> bool {
    &&& s.len() >= 16
    &&& s.subrange(0, 4) == magic_seq()
    &&& s[4] == VERSION
    &&& get_u32_le(s, 12) == spec_crc32(s.subrange(0, 12))
    &&& get_u32_le(s, 8) <= MAX_BODY_SIZE
}

/// The outcome of reading a header from the bytes `s`: the first failing
/// check (length, magic, version, CRC, body size) or the decoded header.
pub open spec fn spec_read_header(s: Seq<u8>, r: Result<MessageHeader, HeaderError>) -> bool {
    if s.len() < 16 {
        r == Err::<MessageHeader, HeaderError>(HeaderError::ShortBuffer(s.len() as usize))
    } else if s.subrange(0, 4) != magic_seq() {
        r matches Err(HeaderError::BadMagic(m)) && m@ == s.subrange(0, 4)
    } else if s[4] != VERSION {
        r == Err::<MessageHeader, HeaderError>(HeaderError::BadVersion(s[4]))
    } else if get_u32_le(s, 12) != spec_crc32(s.subrange(0, 12)) {
        r == Err::<MessageHeader, HeaderError>(HeaderError::BadCrc)
    } else if get_u32_le(s, 8) > MAX_BODY_SIZE {
        r == Err::<MessageHeader, HeaderError>(HeaderError::BodyTooLarge(get_u32_le(s, 8)))
    } else {
        r matches Ok(h) && h.spec_bytes() == s.subrange(0, 16)
    }
}

/// The wire bytes of a freshly built header with the given fields.
pub open spec fn spec_new_header_bytes(msg_type: u8, body_len: u32, flags: u16) -> Seq<u8> {
    let prefix = magic_seq() + seq![VERSION, msg_type] + le16(flags) + le32(body_len);
    prefix + le32(spec_crc32(prefix))
}

/// A complete frame: 4-byte little-endian length (of the whole frame), header, body.
pub open spec fn spec_frame(msg_type: u8, body: Seq<u8>, flags: u16) -> Seq<u8> {
    le32((20 + body.len()) as u32) + spec_new_header_bytes(msg_type, body.len() as u32, flags) + body
}

/// The header decoded from 16 wire bytes agrees with the bytes field by field.
proof fn lemma_header_fields(h: MessageHeader)
    ensures
        h.spec_bytes().len() == 16,
        h.spec_bytes().subrange(0, 4) == h.magic@,
        h.spec_bytes()[4] == h.version,
        h.spec_bytes()[5] == h.msg_type,
        get_u16_le(h.spec_bytes(), 6) == h.flags,
        get_u32_le(h.spec_bytes(), 8) == h.body_len,
        get_u32_le(h.spec_bytes(), 12) == h.header_crc,
        h.spec_bytes().subrange(0, 12) == h.spec_prefix(),
{
    let s = h.spec_bytes();
    assert(s.subrange(0, 4) =~= h.magic@);
    assert(s.subrange(0, 12) =~= h.spec_prefix());
    lemma_le16_roundtrip(h.flags);
    lemma_le32_roundtrip(h.body_len);
    lemma_le32_roundtrip(h.header_crc);
}

impl MessageHeader {
    /// Read and validate a header from the first 16 bytes of `buf`.
    pub fn from_bytes(buf: &[u8]) -> (r: Result<MessageHeader, HeaderError>)
        ensures
            spec_read_header(buf@, r),
    {
        if buf.len() < HEADER_SIZE {
            return Err(HeaderError::ShortBuffer(buf.len()));
        }
        let h = MessageHeader {
            magic: [buf[0], buf[1], buf[2], buf[3]],
            version: buf[4],
            msg_type: buf[5],
            flags: (buf[6] as u16) | ((buf[7] as u16) << 8u16),
            body_len: (buf[8] as u32) | ((buf[9] as u32) << 8u32) | ((buf[10] as u32) << 16u32)
                | ((buf[11] as u32) << 24u32),
            header_crc: (buf[12] as u32) | ((buf[13] as u32) << 8u32) | ((buf[14] as u32)
                << 16u32) | ((buf[15] as u32) << 24u32),
        };
        proof {
            let s = buf@;
            assert(h.flags == u16_le(s[6], s[7]));
            assert(h.body_len == u32_le(s[8], s[9], s[10], s[11]));
            assert(h.header_crc == u32_le(s[12], s[13], s[14], s[15]));
            lemma_u32_le_bytes(s[8], s[9], s[10], s[11]);
            lemma_u32_le_bytes(s[12], s[13], s[14], s[15]);
            let b0 = s[6];
            let b1 = s[7];
            let f = h.flags;
            assert(f as u8 == b0 && (f >> 8u16) as u8 == b1) by (bit_vector)
                requires
                    f == (b0 as u16) | ((b1 as u16) << 8u16),
            ;
            assert(h.spec_bytes() =~= s.subrange(0, 16));
            lemma_header_fields(h);
            assert(s.subrange(0, 16).subrange(0, 12) =~= s.subrange(0, 12));
            assert(s.subrange(0, 16).subrange(0, 4) =~= s.subrange(0, 4));
            assert(h.magic@ == s.subrange(0, 4));
            assert(h.spec_prefix() == s.subrange(0, 12));
        }
        match h.validate() {
            Ok(()) => Ok(h),
            Err(e) => Err(e),
        }
    }
}

/// Read the header at the start of `buf`.
pub fn read_header(buf: &[u8]) -> (r: Result<MessageHeader, HeaderError>)
    ensures
        spec_read_header(buf@, r),
{
    MessageHeader::from_bytes(buf)
}

/// Whether `buf` holds the whole body that an accepted header at its start declares.
pub open spec fn frame_body_fits(s: Seq<u8>) -> bool {
    header_accepts(s) ==> 16 + get_u32_le(s, 8) <= s.len()
}

/// Parse a header+body message: returns the header and the body slice.
///
/// The caller must supply the whole body that an accepted header declares
/// (reading past the buffer is a caller error); [`parse_frame_checked`]
/// answers any buffer.
pub fn parse_frame(buf: &[u8]) -> (r: Result<(MessageHeader, &[u8]), HeaderError>)
    requires
        frame_body_fits(buf@),
    ensures
        header_accepts(buf@) <==> r is Ok,
        r matches Ok((h, body)) ==> h.spec_bytes() == buf@.subrange(0, 16) && body@
            == buf@.subrange(16, 16 + h.body_len),
        r matches Err(e) ==> spec_read_header(buf@, Err(e)),
{
    let header = MessageHeader::from_bytes(buf)?;
    proof {
        lemma_header_fields(header);
    }
    let end: usize = header.total_size();
    let body = vstd::slice::slice_subrange(buf, HEADER_SIZE, end);
    Ok((header, body))
}

/// Parse a header+body message from any buffer: a refused header gives its
/// error; an accepted header that declares more body bytes than `buf`
/// holds gives `ShortBuffer` with the buffer's length; otherwise the
/// header and the body, as [`parse_frame`] returns them.
pub fn parse_frame_checked(buf: &[u8]) -> (r: Result<(MessageHeader, &[u8]), HeaderError>)
    ensures
        r is Ok <==> header_accepts(buf@) && frame_body_fits(buf@),
        !frame_body_fits(buf@) ==> r == Err::<(MessageHeader, &[u8]), HeaderError>(
            HeaderError::ShortBuffer(buf@.len() as usize),
        ),
        r matches Ok((h, body)) ==> h.spec_bytes() == buf@.subrange(0, 16) && body@
            == buf@.subrange(16, 16 + h.body_len),
        !header_accepts(buf@) ==> (r matches Err(e) && spec_read_header(buf@, Err(e))),
{
    match MessageHeader::from_bytes(buf) {
        Ok(h) => {
            proof {
                lemma_header_fields(h);
            }
            if buf.len() - HEADER_SIZE < h.body_len as usize {
                Err(HeaderError::ShortBuffer(buf.len()))
            } else {
                parse_frame(buf)
            }
        },
        Err(e) => {
            proof {
                if header_accepts(buf@) {
                    assert(false);
                }
            }
            Err(e)
        },
    }
}

/// Build a complete wire frame: `[4-byte total length][header][body]`.
///
/// The length prefix counts the whole frame, the prefix included.
pub fn build_frame(msg_type: u8, body: Vec<u8>, flags: u16) -> (frame: Vec<u8>)
    requires
        body@.len() + 20 <= usize::MAX,
    ensures
        frame@ == spec_frame(msg_type, body@, flags),
{
    let body_len: u32 = #[verifier::truncate] (body.len() as u32);
    let header = MessageHeader::new(msg_type, body_len, flags);
    let total: usize = 4 + HEADER_SIZE + body.len();
    let mut frame: Vec<u8> = Vec::new();
    push_u32_le(&mut frame, #[verifier::truncate] (total as u32));
    let hb = header.to_bytes();
    push_bytes(&mut frame, hb.as_slice());
    push_bytes(&mut frame, body.as_slice());
    proof {
        assert(header.magic@ == magic_seq());
        assert(header.spec_prefix() =~= magic_seq() + seq![VERSION, msg_type] + le16(flags) + le32(body_len));
        assert(frame@ =~= spec_frame(msg_type, body@, flags));
    }
    frame
}

/// Build a Ping frame (msg_type 0) with an empty body.
pub fn build_ping() -> (frame: Vec<u8>)
    ensures
        frame@ == spec_frame(0, Seq::empty(), 0),
{
    let body: Vec<u8> = Vec::new();
    build_frame(0, body, 0)
}

/// Build a Pong frame (msg_type 1) with an empty body.
pub fn build_pong() -> (frame: Vec<u8>)
    ensures
        frame@ == spec_frame(1, Seq::empty(), 0),
{
    let body: Vec<u8> = Vec::new();
    build_frame(1, body, 0)
}

/// Law: a frame built with a body of at most [`MAX_BODY_SIZE`] bytes is
/// accepted after its 4-byte length prefix, and the header read back
/// carries the type, flags and body length it was built with, and the
/// body follows it unchanged.
pub proof fn lemma_build_then_parse(msg_type: u8, body: Seq<u8>, flags: u16)
    requires
        body.len() <= MAX_BODY_SIZE,
    ensures
        ({
            let s = spec_frame(msg_type, body, flags).subrange(4, 20 + body.len() as int);
            &&& header_accepts(s)
            &&& frame_body_fits(s)
            &&& s[5] == msg_type
            &&& get_u16_le(s, 6) == flags
            &&& get_u32_le(s, 8) == body.len()
            &&& s.subrange(16, 16 + get_u32_le(s, 8)) == body
        }),
{
    let f = spec_frame(msg_type, body, flags);
    let s = f.subrange(4, 20 + body.len() as int);
    let hb = spec_new_header_bytes(msg_type, body.len() as u32, flags);
    assert(s =~= hb + body);
    let prefix = magic_seq() + seq![VERSION, msg_type] + le16(flags) + le32(body.len() as u32);
    assert(s.subrange(0, 12) =~= prefix);
    assert(s.subrange(0, 4) =~= magic_seq());
    lemma_le16_roundtrip(flags);
    lemma_le32_roundtrip(body.len() as u32);
    lemma_le32_roundtrip(spec_crc32(prefix));
    assert(s.subrange(16, 16 + body.len() as int) =~= body);
}

/// `[b0, b1, b2, b3]` with each byte as two lowercase hex digits.
pub open spec fn hex_list4(m: Seq<u8>) -> Seq<char> {
    "["@ + hex2(m[0]) + ", "@ + hex2(m[1]) + ", "@ + hex2(m[2]) + ", "@ + hex2(m[3]) + "]"@
}

impl HeaderError {
    /// The human-readable message for this error.
    pub open spec fn spec_text(self) -> Seq<char> {
        match self {
            HeaderError::ShortBuffer(n) => "buffer too short: "@ + dec(n as nat) + " < 16"@,
            HeaderError::BadMagic(m) => "bad magic: "@ + hex_list4(m@),
            HeaderError::BadVersion(v) => "bad version: "@ + dec(v as nat),
            HeaderError::BadCrc => "CRC mismatch"@,
            HeaderError::BodyTooLarge(n) => "body too large: "@ + dec(n as nat),
        }
    }

    /// Render the human-readable message for this error.
    pub fn to_text(&self) -> (s: String)
        ensures
            s@ == self.spec_text(),
    {
        let mut s = String::new();
        match self {
            HeaderError::ShortBuffer(n) => {
                s.append("buffer too short: ");
                push_dec(&mut s, *n as u64);
                s.append(" < 16");
            },
            HeaderError::BadMagic(m) => {
                s.append("bad magic: ");
                s.append("[");
                push_hex2(&mut s, m[0]);
                s.append(", ");
                push_hex2(&mut s, m[1]);
                s.append(", ");
                push_hex2(&mut s, m[2]);
                s.append(", ");
                push_hex2(&mut s, m[3]);
                s.append("]");
            },
            HeaderError::BadVersion(v) => {
                s.append("bad version: ");
                push_dec(&mut s, *v as u64);
            },
            HeaderError::BadCrc => {
                s.append("CRC mismatch");
            },
            HeaderError::BodyTooLarge(n) => {
                s.append("body too large: ");
                push_dec(&mut s, *n as u64);
            },
        }
        assert(s@ =~= self.spec_text());
        s
    }
}

} // verus!
