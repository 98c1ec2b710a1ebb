//! Little-endian byte encodings of fixed-width integers, with the laws that
//! tie encoding and decoding together.

use vstd::prelude::*;

verus! {

/// Little-endian encoding of a `u16`.
pub open spec fn le16(v: u16) -> Seq<u8> {
    seq![v as u8, (v >> 8u16) as u8]
}

/// Little-endian encoding of a `u32`.
pub open spec fn le32(v: u32) -> Seq<u8> {
    seq![v as u8, (v >> 8u32) as u8, (v >> 16u32) as u8, (v >> 24u32) as u8]
}

/// Little-endian encoding of a `u64`.
pub open spec fn le64(v: u64) -> Seq<u8> {
    seq![
        v as u8, (v >> 8u64) as u8, (v >> 16u64) as u8, (v >> 24u64) as u8,
        (v >> 32u64) as u8, (v >> 40u64) as u8, (v >> 48u64) as u8, (v >> 56u64) as u8,
    ]
}

/// Big-endian encoding of a `u16`.
pub open spec fn be16(v: u16) -> Seq<u8> {
    seq![(v >> 8u16) as u8, v as u8]
}

/// The `u16` whose little-endian bytes are `b0, b1`.
pub open spec fn u16_le(b0: u8, b1: u8) -> u16 {
    (b0 as u16) | ((b1 as u16) << 8u16)
}

/// The `u32` whose little-endian bytes are `b0..b3`.
pub open spec fn u32_le(b0: u8, b1: u8, b2: u8, b3: u8) -> u32 {
    (b0 as u32) | ((b1 as u32) << 8u32) | ((b2 as u32) << 16u32) | ((b3 as u32) << 24u32)
}

/// The `u64` whose little-endian bytes are `b0..b7`.
pub open spec fn u64_le(b0: u8, b1: u8, b2: u8, b3: u8, b4: u8, b5: u8, b6: u8, b7: u8) -> u64 {
    (b0 as u64) | ((b1 as u64) << 8u64) | ((b2 as u64) << 16u64) | ((b3 as u64) << 24u64)
        | ((b4 as u64) << 32u64) | ((b5 as u64) << 40u64) | ((b6 as u64) << 48u64)
        | ((b7 as u64) << 56u64)
}

/// The `u16` read little-endian from `s` at `off`.
pub open spec fn get_u16_le(s: Seq<u8>, off: int) -> u16 {
    u16_le(s[off], s[off + 1])
}

/// The `u32` read little-endian from `s` at `off`.
pub open spec fn get_u32_le(s: Seq<u8>, off: int) -> u32 {
    u32_le(s[off], s[off + 1], s[off + 2], s[off + 3])
}

/// The `u64` read little-endian from `s` at `off`.
pub open spec fn get_u64_le(s: Seq<u8>, off: int) -> u64 {
    u64_le(s[off], s[off + 1], s[off + 2], s[off + 3], s[off + 4], s[off + 5], s[off + 6], s[off + 7])
}

/// Decoding the encoding of a `u16` gives the value back.
pub proof fn lemma_le16_roundtrip(v: u16)
    ensures
        u16_le(le16(v)[0], le16(v)[1]) == v,
{
    let b0: u8 = v as u8;
    let b1: u8 = (v >> 8u16) as u8;
    assert((b0 as u16) | ((b1 as u16) << 8u16) == v) by (bit_vector)
        requires
            b0 == v as u8,
            b1 == (v >> 8u16) as u8,
    ;
}

/// Decoding the encoding of a `u32` gives the value back.
pub proof fn lemma_le32_roundtrip(v: u32)
    ensures
        u32_le(le32(v)[0], le32(v)[1], le32(v)[2], le32(v)[3]) == v,
{
    let b0: u8 = v as u8;
    let b1: u8 = (v >> 8u32) as u8;
    let b2: u8 = (v >> 16u32) as u8;
    let b3: u8 = (v >> 24u32) as u8;
    assert((b0 as u32) | ((b1 as u32) << 8u32) | ((b2 as u32) << 16u32) | ((b3 as u32) << 24u32)
        == v) by (bit_vector)
        requires
            b0 == v as u8,
            b1 == (v >> 8u32) as u8,
            b2 == (v >> 16u32) as u8,
            b3 == (v >> 24u32) as u8,
    ;
}

/// Encoding a decoded `u32` gives the bytes back.
pub proof fn lemma_u32_le_bytes(b0: u8, b1: u8, b2: u8, b3: u8)
    ensures
        le32(u32_le(b0, b1, b2, b3)) == seq![b0, b1, b2, b3],
{
    let v: u32 = u32_le(b0, b1, b2, b3);
    assert(v as u8 == b0 && (v >> 8u32) as u8 == b1 && (v >> 16u32) as u8 == b2 && (v >> 24u32)
        as u8 == b3) by (bit_vector)
        requires
            v == (b0 as u32) | ((b1 as u32) << 8u32) | ((b2 as u32) << 16u32) | ((b3 as u32)
                << 24u32),
    ;
    assert(le32(v) =~= seq![b0, b1, b2, b3]);
}

/// Decoding the encoding of a `u64` gives the value back.
pub proof fn lemma_le64_roundtrip(v: u64)
    ensures
        u64_le(le64(v)[0], le64(v)[1], le64(v)[2], le64(v)[3], le64(v)[4], le64(v)[5], le64(v)[6], le64(v)[7]) == v,
{
    let b0: u8 = v as u8;
    let b1: u8 = (v >> 8u64) as u8;
    let b2: u8 = (v >> 16u64) as u8;
    let b3: u8 = (v >> 24u64) as u8;
    let b4: u8 = (v >> 32u64) as u8;
    let b5: u8 = (v >> 40u64) as u8;
    let b6: u8 = (v >> 48u64) as u8;
    let b7: u8 = (v >> 56u64) as u8;
    assert((b0 as u64) | ((b1 as u64) << 8u64) | ((b2 as u64) << 16u64) | ((b3 as u64) << 24u64)
        | ((b4 as u64) << 32u64) | ((b5 as u64) << 40u64) | ((b6 as u64) << 48u64)
        | ((b7 as u64) << 56u64) == v) by (bit_vector)
        requires
            b0 == v as u8,
            b1 == (v >> 8u64) as u8,
            b2 == (v >> 16u64) as u8,
            b3 == (v >> 24u64) as u8,
            b4 == (v >> 32u64) as u8,
            b5 == (v >> 40u64) as u8,
            b6 == (v >> 48u64) as u8,
            b7 == (v >> 56u64) as u8,
    ;
}

/// Append the little-endian bytes of `v` to `out`.
pub fn push_u16_le(out: &mut Vec<u8>, v: u16)
    ensures
        final(out)@ == old(out)@ + le16(v),
{
    out.push(v as u8);
    out.push((v >> 8u16) as u8);
    assert(final(out)@ =~= old(out)@ + le16(v));
}

/// Append the little-endian bytes of `v` to `out`.
pub fn push_u32_le(out: &mut Vec<u8>, v: u32)
    ensures
        final(out)@ == old(out)@ + le32(v),
{
    out.push(v as u8);
    out.push((v >> 8u32) as u8);
    out.push((v >> 16u32) as u8);
    out.push((v >> 24u32) as u8);
    assert(final(out)@ =~= old(out)@ + le32(v));
}

/// Append the little-endian bytes of `v` to `out`.
pub fn push_u64_le(out: &mut Vec<u8>, v: u64)
    ensures
        final(out)@ == old(out)@ + le64(v),
{
    out.push(v as u8);
    out.push((v >> 8u64) as u8);
    out.push((v >> 16u64) as u8);
    out.push((v >> 24u64) as u8);
    out.push((v >> 32u64) as u8);
    out.push((v >> 40u64) as u8);
    out.push((v >> 48u64) as u8);
    out.push((v >> 56u64) as u8);
    assert(final(out)@ =~= old(out)@ + le64(v));
}

/// Append every byte of `bytes` to `out`.
pub fn push_bytes(out: &mut Vec<u8>, bytes: &[u8])
    ensures
        final(out)@ == old(out)@ + bytes@,
{
    let n: usize = bytes.len();
    let mut i: usize = 0;
    while i < n
        invariant
            n == bytes@.len(),
            i <= n,
            out@ == old(out)@ + bytes@.subrange(0, i as int),
        decreases n - i,
    {
        out.push(bytes[i]);
        i = i + 1;
        assert(out@ =~= old(out)@ + bytes@.subrange(0, i as int));
    }
    assert(bytes@.subrange(0, n as int) =~= bytes@);
}

/// Whether two 32-byte strings (hashes, identifiers) are equal.
pub fn bytes32_eq(a: &[u8; 32], b: &[u8; 32]) -> (r: bool)
    ensures
        r == (a@ == b@),
{
    let mut i: usize = 0;
    while i < 32
        invariant
            i <= 32,
            a@.len() == 32,
            b@.len() == 32,
            forall|j: int| 0 <= j < i ==> a@[j] == b@[j],
        decreases 32 - i,
    {
        if a[i] != b[i] {
            return false;
        }
        i = i + 1;
    }
    assert(a@ =~= b@);
    true
}

} // verus!
