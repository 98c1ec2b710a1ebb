//! CRC-32 (ISO-HDLC / PKZIP variant) over byte slices.

use vstd::prelude::*;

verus! {

/// `n` rounds of the reflected CRC-32 shift register: each shifts the
/// register right by one and, when the bit shifted out is set, folds in
/// the reversed polynomial `0xEDB88320`.
pub open spec fn crc_rounds(c: u32, n: nat) -> u32
    decreases n,
{
    if n == 0 {
        c
    } else {
        let next = if c & 1 == 1 {
            (c >> 1u32) ^ 0xEDB8_8320u32
        } else {
            c >> 1u32
        };
        crc_rounds(next, (n - 1) as nat)
    }
}

/// The CRC-32 register after the bytes of `data`, starting from all ones;
/// each byte is xored into the low bits and shifted through eight rounds.
pub open spec fn crc_register(data: Seq<u8>) -> u32
    decreases data.len(),
{
    if data.len() == 0 {
        0xFFFF_FFFFu32
    } else {
        crc_rounds(crc_register(data.drop_last()) ^ (data.last() as u32), 8)
    }
}

/// The CRC-32/ISO-HDLC checksum of a byte sequence: the final register,
/// inverted.
pub open spec fn spec_crc32(data: Seq<u8>) -> u32 {
    crc_register(data) ^ 0xFFFF_FFFFu32
}

/// Compute the CRC-32/ISO-HDLC checksum of `data`.
///
/// Trusted: calls `crc32fast::Hasher::{new, update, finalize}`, which
/// compute the CRC-32 (IEEE) checksum that [`spec_crc32`] defines.
#[verifier::external_body]
pub fn crc32(data: &[u8]) -> (r: u32)
    ensures
        r == spec_crc32(data@),
{
    let mut h = crc32fast::Hasher::new();
    h.update(data);
    h.finalize()
}

} // verus!
