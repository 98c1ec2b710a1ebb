//! Data message header: bulk payload transfer, 24 bytes, payload follows.
//!
//! Binary layout (little-endian):
//! ```text
//! [0-7]   sender_id: u64       = sender neuron ID
//! [8-11]  data_hash: u32       = CRC32 of the payload
//! [12-13] content_type: u16    = type of data
//! [14-15] compression: u16     = compression codec
//! [16-19] original_len: u32    = original uncompressed size
//! [20-23] payload_len: u32     = actual payload size
//! ```

use vstd::prelude::*;

use crate::crc::{crc32, spec_crc32};
use crate::flat::{read_u32, read_u64};
use crate::wire::{get_u16_le, get_u32_le, get_u64_le};
use crate::NeuronId;

verus! {

/// Data message header.
#[derive(Debug, Clone, Copy)]
pub struct DataHeader {
    /// Sender neuron ID.
    pub sender_id: NeuronId,
    /// CRC32 of the payload.
    pub data_hash: u32,
    /// Type of data.
    pub content_type: u16,
    /// Compression codec.
    pub compression: u16,
    /// Original uncompressed size.
    pub original_len: u32,
    /// Actual payload size.
    pub payload_len: u32,
}

/// Read a little-endian u16 at `offset`.
fn get_u16(buf: &[u8], offset: usize) -> (v: u16)
    requires
        offset + 2 <= buf@.len(),
    ensures
        v == get_u16_le(buf@, offset as int),
{
    (buf[offset] as u16) | ((buf[offset + 1] as u16) << 8u16)
}

impl DataHeader {
    /// Size in bytes.
    pub const SIZE: usize = 24;

    /// Build the header for `payload`: its length (modulo 2^32, as
    /// `as u32` does) and its CRC32.
    pub fn new(sender_id: NeuronId, content_type: u16, compression: u16, payload: &[u8]) -> (h: Self)
        ensures
            h.sender_id == sender_id,
            h.content_type == content_type,
            h.compression == compression,
            h.payload_len == payload@.len() as u32,
            h.original_len == payload@.len() as u32,
            h.data_hash == spec_crc32(payload@),
    {
        let payload_len: u32 = #[verifier::truncate] (payload.len() as u32);
        let data_hash: u32 = crc32(payload);
        DataHeader {
            sender_id,
            data_hash,
            content_type,
            compression,
            original_len: payload_len,
            payload_len,
        }
    }

    /// Whether `payload`'s CRC32 matches the stored hash.
    pub fn validate_payload(&self, payload: &[u8]) -> (ok: bool)
        ensures
            ok == (spec_crc32(payload@) == self.data_hash),
    {
        let computed: u32 = crc32(payload);
        computed == self.data_hash
    }

    /// Read a header from the first 24 bytes of `bytes`.
    pub fn from_bytes(bytes: &[u8]) -> (h: DataHeader)
        requires
            bytes@.len() >= 24,
        ensures
            h.sender_id == get_u64_le(bytes@, 0),
            h.data_hash == get_u32_le(bytes@, 8),
            h.content_type == get_u16_le(bytes@, 12),
            h.compression == get_u16_le(bytes@, 14),
            h.original_len == get_u32_le(bytes@, 16),
            h.payload_len == get_u32_le(bytes@, 20),
    {
        DataHeader {
            sender_id: read_u64(bytes, 0),
            data_hash: read_u32(bytes, 8),
            content_type: get_u16(bytes, 12),
            compression: get_u16(bytes, 14),
            original_len: read_u32(bytes, 16),
            payload_len: read_u32(bytes, 20),
        }
    }
}

} // verus!
