//! Gradient compression: the choice of method, the packing of quantised
//! values into little-endian byte groups, and the byte layout of
//! compressed gradient batches.
//!
//! A batch starts with a header byte: the method tag in the high nibble
//! (0 = raw, 1 = quantised) and the entry count in the low nibble.
//! * Raw: per entry `[1] [32 pre] [32 post] [4 weight bits]`.
//! * Quantised: `[bits] [4 min bits] [4 max bits]`, then per entry
//!   `[32 pre] [32 post] [(bits + 7) / 8 bytes of the quantised value]`.
//!
//! A header counts at most 15 entries; a batch of more goes on in further
//! chunks, each a header byte of the same method and its entries (a
//! quantised chunk shares the width and bounds of the first).
//!
//! Weights travel as the bit patterns of their `f32` values; selecting
//! the top entries and quantising them is floating-point work that lives
//! with the application.

use vstd::prelude::*;

use crate::components::EntityId;
use crate::flat::read_u32;
use crate::wire::{get_u32_le, le32, lemma_le32_roundtrip, push_bytes, push_u32_le};

verus! {

/// Which compression strategy to apply.
#[derive(Debug, Clone, Copy, PartialEq, Eq, Structural)]
pub enum CompressionMethod {
    /// No compression.
    NoCompression,
    /// Keep only the top-`k` entries by absolute weight.
    TopK(usize),
    /// Uniform quantisation to `bits`-wide integers (1..=32).
    Quantize(u32),
    /// Top-K selection followed by quantisation.
    TopKThenQuantize(usize, u32),
}

/// The byte at `i`, or 0 past the end of `data`.
pub open spec fn byte_or_zero(data: Seq<u8>, i: int) -> u8 {
    if 0 <= i < data.len() {
        data[i]
    } else {
        0
    }
}

/// The little-endian value of the `n` bytes of `data` starting at
/// `offset` (bytes past the end count as 0).
pub open spec fn le_bytes_value(data: Seq<u8>, offset: int, n: nat) -> u64
    decreases n,
{
    if n == 0 {
        0
    } else {
        le_bytes_value(data, offset, (n - 1) as nat) | ((byte_or_zero(data, offset + n - 1) as u64)
            << (((n - 1) * 8) as u64))
    }
}

/// The mask of the low `bits` bits.
pub open spec fn low_mask(bits: nat) -> u64 {
    if bits >= 64 {
        0xFFFF_FFFF_FFFF_FFFFu64
    } else {
        ((1u64 << (bits as u64)) - 1) as u64
    }
}

/// Bytes needed for a `bits`-wide value.
pub open spec fn byte_count(bits: nat) -> nat {
    (bits + 7) / 8
}

/// The `bits`-wide value read at `offset`: the little-endian value of the
/// covering bytes, masked to `bits` bits (0 when `bits` is 0).
pub open spec fn spec_read_bits(data: Seq<u8>, offset: int, bits: nat) -> u64 {
    if bits == 0 {
        0
    } else {
        le_bytes_value(data, offset, byte_count(bits)) & low_mask(bits)
    }
}

/// The bytes that encode a `bits`-wide value: its low `byte_count(bits)`
/// bytes, least significant first.
pub open spec fn spec_bits_bytes(val: u64, bits: nat) -> Seq<u8> {
    Seq::new(byte_count(bits), |i: int| (val >> ((i * 8) as u64)) as u8)
}

/// Read a `bits`-wide little-endian value at byte `offset`; bytes past the
/// end of `data` read as 0.
pub fn read_bits(data: &[u8], offset: usize, bits: usize) -> (v: u64)
    requires
        bits <= 64,
    ensures
        v == spec_read_bits(data@, offset as int, bits as nat),
{
    if bits == 0 {
        return 0;
    }
    let count: usize = (bits + 7) / 8;
    let mut val: u64 = 0;
    let mut i: usize = 0;
    while i < count
        invariant
            count == byte_count(bits as nat),
            count <= 8,
            i <= count,
            val == le_bytes_value(data@, offset as int, i as nat),
        decreases count - i,
    {
        if offset < data.len() && i < data.len() - offset {
            val = val | ((data[offset + i] as u64) << ((i * 8) as u64));
        } else {
            assert(byte_or_zero(data@, offset + i) == 0);
            let z: u64 = 0;
            let sh: u64 = (i * 8) as u64;
            assert(val | (z << sh) == val) by (bit_vector)
                requires
                    z == 0,
            ;
        }
        i = i + 1;
    }
    if bits < 64 {
        let b: u64 = bits as u64;
        assert(1u64 << b >= 1) by (bit_vector)
            requires
                b < 64,
        ;
        let mask: u64 = (1u64 << b) - 1;
        assert(mask == low_mask(bits as nat));
        val = val & mask;
    } else {
        assert(val & 0xFFFF_FFFF_FFFF_FFFFu64 == val) by (bit_vector);
    }
    val
}

/// Append a `bits`-wide value as its low `(bits + 7) / 8` bytes, least
/// significant first.
pub fn write_bits(data: &mut Vec<u8>, val: u64, bits: usize)
    requires
        bits <= 64,
    ensures
        final(data)@ == old(data)@ + spec_bits_bytes(val, bits as nat),
{
    let count: usize = (bits + 7) / 8;
    let mut i: usize = 0;
    while i < count
        invariant
            count == byte_count(bits as nat),
            count <= 8,
            i <= count,
            data@ == old(data)@ + spec_bits_bytes(val, bits as nat).subrange(0, i as int),
        decreases count - i,
    {
        data.push(((val >> ((i * 8) as u64)) & 0xFF) as u8);
        proof {
            let sh: u64 = (i * 8) as u64;
            assert(((val >> sh) & 0xFF) as u8 == (val >> sh) as u8) by (bit_vector);
        }
        i = i + 1;
        assert(data@ =~= old(data)@ + spec_bits_bytes(val, bits as nat).subrange(0, i as int));
    }
    assert(spec_bits_bytes(val, bits as nat).subrange(0, count as int) =~= spec_bits_bytes(
        val,
        bits as nat,
    ));
}

/// The value gathered from the first `k` encoded bytes of `val` is `val`
/// masked to `8k` bits.
proof fn lemma_gather_prefix(prefix: Seq<u8>, val: u64, bits: nat, rest: Seq<u8>, k: nat)
    requires
        bits <= 64,
        k <= byte_count(bits),
    ensures
        le_bytes_value(prefix + spec_bits_bytes(val, bits) + rest, prefix.len() as int, k) == val
            & low_mask(8 * k),
    decreases k,
{
    let data = prefix + spec_bits_bytes(val, bits) + rest;
    let off = prefix.len() as int;
    if k == 0 {
        assert(val & low_mask(0) == 0) by {
            assert(val & ((1u64 << 0u64) - 1) as u64 == 0) by (bit_vector);
        }
    } else {
        lemma_gather_prefix(prefix, val, bits, rest, (k - 1) as nat);
        let j: nat = (k - 1) as nat;
        assert(byte_or_zero(data, off + j) == (val >> ((j * 8) as u64)) as u8);
        let sh: u64 = (j * 8) as u64;
        assert(j < 8);
        if j < 7 {
            assert((val & ((1u64 << sh) - 1) as u64) | ((((val >> sh) as u8) as u64) << sh) == val
                & ((1u64 << ((sh + 8) as u64)) - 1) as u64) by (bit_vector)
                requires
                    sh < 56,
            ;
        } else {
            assert(sh == 56);
            assert((val & ((1u64 << sh) - 1) as u64) | ((((val >> sh) as u8) as u64) << sh) == val
                & 0xFFFF_FFFF_FFFF_FFFFu64) by (bit_vector)
                requires
                    sh == 56,
            ;
        }
    }
}

/// Law: a value packed with `write_bits` reads back with `read_bits` at
/// the position it was written, masked to `bits` bits.
pub proof fn lemma_bits_roundtrip(prefix: Seq<u8>, val: u64, bits: nat, rest: Seq<u8>)
    requires
        1 <= bits <= 64,
    ensures
        spec_read_bits(prefix + spec_bits_bytes(val, bits) + rest, prefix.len() as int, bits)
            == val & low_mask(bits),
{
    lemma_gather_prefix(prefix, val, bits, rest, byte_count(bits));
    let data = prefix + spec_bits_bytes(val, bits) + rest;
    let n = byte_count(bits);
    let gathered = le_bytes_value(data, prefix.len() as int, n);
    assert(gathered == val & low_mask(8 * n));
    assert(spec_read_bits(data, prefix.len() as int, bits) == gathered & low_mask(bits));
    assert(8 * n >= bits);
    if bits < 64 {
        let b: u64 = bits as u64;
        let mb: u64 = ((1u64 << b) - 1) as u64;
        assert(low_mask(bits) == mb);
        if 8 * n >= 64 {
            assert(low_mask(8 * n) == 0xFFFF_FFFF_FFFF_FFFFu64);
            assert((val & 0xFFFF_FFFF_FFFF_FFFFu64) & mb == val & mb) by (bit_vector);
        } else {
            let c: u64 = (8 * n) as u64;
            let mc: u64 = ((1u64 << c) - 1) as u64;
            assert(low_mask(8 * n) == mc);
            assert((val & mc) & mb == val & mb) by (bit_vector)
                requires
                    b <= c,
                    c < 64,
                    mb == ((1u64 << b) - 1) as u64,
                    mc == ((1u64 << c) - 1) as u64,
            ;
        }
    } else {
        assert(n == 8);
        assert(low_mask(8 * n) == 0xFFFF_FFFF_FFFF_FFFFu64);
        assert(low_mask(bits) == 0xFFFF_FFFF_FFFF_FFFFu64);
        assert((val & 0xFFFF_FFFF_FFFF_FFFFu64) & 0xFFFF_FFFF_FFFF_FFFFu64 == val
            & 0xFFFF_FFFF_FFFF_FFFFu64) by (bit_vector);
    }
}

/// One raw entry as plain values: pre id, post id, weight bits.
pub type RawEntryView = (Seq<u8>, Seq<u8>, u32);

/// One quantised entry as plain values: pre id, post id, quantised value.
pub type QuantEntryView = (Seq<u8>, Seq<u8>, u64);

/// The bytes of one raw entry.
pub open spec fn raw_entry_bytes(e: RawEntryView) -> Seq<u8> {
    seq![1u8] + e.0 + e.1 + le32(e.2)
}

/// The bytes of the first `n` raw entries.
pub open spec fn raw_entries_bytes(es: Seq<RawEntryView>, n: nat) -> Seq<u8>
    decreases n,
{
    if n == 0 {
        Seq::empty()
    } else {
        raw_entries_bytes(es, (n - 1) as nat) + raw_entry_bytes(es[n - 1])
    }
}

/// The clamped width of quantised values: `b` limited to `1..=32`.
pub open spec fn clamp_bits(b: u32) -> u32 {
    if b < 1 {
        1
    } else if b > 32 {
        32
    } else {
        b
    }
}

/// The bytes of the first `n` quantised entries.
pub open spec fn quant_entries_bytes(es: Seq<QuantEntryView>, bits: nat, n: nat) -> Seq<u8>
    decreases n,
{
    if n == 0 {
        Seq::empty()
    } else {
        let e = es[n - 1];
        quant_entries_bytes(es, bits, (n - 1) as nat) + e.0 + e.1 + spec_bits_bytes(e.2, bits)
    }
}

/// The most entries one chunk of a batch counts: the low nibble of its
/// header byte.
pub const CHUNK_ENTRIES: usize = 15;

/// Raw chunks of `es`: a header byte holding the chunk's entry count (at
/// most 15, the method tag 0 in the high nibble), then its entries; after
/// a full chunk the batch goes on with the next one.
pub open spec fn raw_chunks(es: Seq<RawEntryView>) -> Seq<u8>
    decreases es.len(),
{
    if es.len() <= 15 {
        seq![es.len() as u8] + raw_entries_bytes(es, es.len())
    } else {
        seq![15u8] + raw_entries_bytes(es, 15) + raw_chunks(es.skip(15))
    }
}

/// A raw batch: every entry, in chunks of at most 15 (a single chunk, as
/// the count byte of the format has it, for up to 15 entries).
pub open spec fn spec_serialize_raw(es: Seq<RawEntryView>) -> Seq<u8> {
    raw_chunks(es)
}

/// The header byte of a quantised chunk of `c` entries: tag 1 in the high
/// nibble, `c` (below 16) in the low one.
pub open spec fn quant_header(c: nat) -> u8 {
    (16 + c) as u8
}

/// Quantised chunks after the first: a header byte, then the chunk's
/// entries; after a full chunk the batch goes on with the next one.
pub open spec fn quant_chunks(es: Seq<QuantEntryView>, bits: nat) -> Seq<u8>
    decreases es.len(),
{
    if es.len() <= 15 {
        seq![quant_header(es.len())] + quant_entries_bytes(es, bits, es.len())
    } else {
        seq![quant_header(15)] + quant_entries_bytes(es, bits, 15) + quant_chunks(es.skip(15), bits)
    }
}

/// The entries of the first chunk of a batch: all of them, up to 15.
pub open spec fn first_chunk_len(n: nat) -> nat {
    if n <= 15 {
        n
    } else {
        15
    }
}

/// A quantised batch: the lone header byte `0x10` for no entries;
/// otherwise the header byte of the first chunk, the clamped width, the
/// range bounds and the first chunk's entries, then further chunks for
/// entries past the 15th.
pub open spec fn spec_serialize_quantized(
    es: Seq<QuantEntryView>,
    bits: u32,
    min_bits: u32,
    max_bits: u32,
) -> Seq<u8> {
    let b = clamp_bits(bits);
    let c = first_chunk_len(es.len());
    if es.len() == 0 {
        seq![0x10u8]
    } else {
        seq![quant_header(c), b as u8] + le32(min_bits) + le32(max_bits) + quant_entries_bytes(
            es,
            b as nat,
            c,
        ) + if es.len() > 15 {
            quant_chunks(es.skip(15), b as nat)
        } else {
            Seq::<u8>::empty()
        }
    }
}

/// The ids of an entry as plain values.
pub open spec fn raw_view(e: (EntityId, EntityId, u32)) -> RawEntryView {
    (e.0.0@, e.1.0@, e.2)
}

/// The ids of an entry as plain values.
pub open spec fn quant_view(e: (EntityId, EntityId, u64)) -> QuantEntryView {
    (e.0.0@, e.1.0@, e.2)
}

/// Append the `count` raw entries of `entries` from `start` on.
fn push_raw_entries(
    buf: &mut Vec<u8>,
    entries: &[(EntityId, EntityId, u32)],
    start: usize,
    count: usize,
)
    requires
        start + count <= entries@.len(),
    ensures
        final(buf)@ == old(buf)@ + raw_entries_bytes(
            entries@.map_values(|e: (EntityId, EntityId, u32)| raw_view(e)).skip(start as int),
            count as nat,
        ),
{
    let ghost es = entries@.map_values(|e: (EntityId, EntityId, u32)| raw_view(e)).skip(start as int);
    let ghost head = buf@;
    let n: usize = entries.len();
    let mut i: usize = 0;
    while i < count
        invariant
            n == entries@.len(),
            start + count <= entries@.len(),
            i <= count,
            es == entries@.map_values(|e: (EntityId, EntityId, u32)| raw_view(e)).skip(start as int),
            buf@ == head + raw_entries_bytes(es, i as nat),
        decreases count - i,
    {
        let e: &(EntityId, EntityId, u32) = &entries[start + i];
        assert(es[i as int] == raw_view(*e));
        buf.push(1u8);
        push_bytes(buf, e.0.0.as_slice());
        push_bytes(buf, e.1.0.as_slice());
        push_u32_le(buf, e.2);
        i = i + 1;
        assert(buf@ =~= head + raw_entries_bytes(es, i as nat));
    }
}

/// Append the `count` quantised entries of `entries` from `start` on,
/// values `bits` wide.
fn push_quant_entries(
    buf: &mut Vec<u8>,
    entries: &[(EntityId, EntityId, u64)],
    start: usize,
    count: usize,
    bits: u32,
)
    requires
        start + count <= entries@.len(),
        1 <= bits <= 32,
    ensures
        final(buf)@ == old(buf)@ + quant_entries_bytes(
            entries@.map_values(|e: (EntityId, EntityId, u64)| quant_view(e)).skip(start as int),
            bits as nat,
            count as nat,
        ),
{
    let ghost es = entries@.map_values(|e: (EntityId, EntityId, u64)| quant_view(e)).skip(
        start as int,
    );
    let ghost head = buf@;
    let n: usize = entries.len();
    let mut i: usize = 0;
    while i < count
        invariant
            n == entries@.len(),
            start + count <= entries@.len(),
            1 <= bits <= 32,
            i <= count,
            es == entries@.map_values(|e: (EntityId, EntityId, u64)| quant_view(e)).skip(
                start as int,
            ),
            buf@ == head + quant_entries_bytes(es, bits as nat, i as nat),
        decreases count - i,
    {
        let e: &(EntityId, EntityId, u64) = &entries[start + i];
        assert(es[i as int] == quant_view(*e));
        push_bytes(buf, e.0.0.as_slice());
        push_bytes(buf, e.1.0.as_slice());
        write_bits(buf, e.2, bits as usize);
        i = i + 1;
        assert(buf@ =~= head + quant_entries_bytes(es, bits as nat, i as nat));
    }
}

/// Serialize entries without compression: every entry, in order.
pub fn serialize_raw(entries: &[(EntityId, EntityId, u32)]) -> (buf: Vec<u8>)
    ensures
        buf@ == spec_serialize_raw(entries@.map_values(|e: (EntityId, EntityId, u32)| raw_view(e))),
{
    let ghost es = entries@.map_values(|e: (EntityId, EntityId, u32)| raw_view(e));
    let n: usize = entries.len();
    let mut buf: Vec<u8> = Vec::new();
    let mut start: usize = 0;
    proof {
        assert(es.skip(0) =~= es);
    }
    while n - start > CHUNK_ENTRIES
        invariant
            n == entries@.len(),
            start <= n,
            es == entries@.map_values(|e: (EntityId, EntityId, u32)| raw_view(e)),
            buf@ + raw_chunks(es.skip(start as int)) == raw_chunks(es),
        decreases n - start,
    {
        let ghost pre = buf@;
        let ghost rest = es.skip(start as int);
        proof {
            assert(rest.skip(15) =~= es.skip(start + 15));
        }
        buf.push(15u8);
        push_raw_entries(&mut buf, entries, start, CHUNK_ENTRIES);
        start = start + CHUNK_ENTRIES;
        proof {
            assert(buf@ + raw_chunks(es.skip(start as int)) =~= pre + raw_chunks(rest));
        }
    }
    let ghost pre = buf@;
    let c: usize = n - start;
    buf.push(c as u8);
    push_raw_entries(&mut buf, entries, start, c);
    proof {
        assert(buf@ =~= pre + raw_chunks(es.skip(start as int)));
    }
    buf
}

/// Serialize quantised entries: values are written `clamp_bits(bits)`
/// wide, after the range bounds (the bit patterns of the `f32` minimum
/// and maximum) they were quantised against.
pub fn serialize_quantized(
    entries: &[(EntityId, EntityId, u64)],
    bits: u32,
    min_bits: u32,
    max_bits: u32,
) -> (buf: Vec<u8>)
    ensures
        buf@ == spec_serialize_quantized(
            entries@.map_values(|e: (EntityId, EntityId, u64)| quant_view(e)),
            bits,
            min_bits,
            max_bits,
        ),
{
    let ghost es = entries@.map_values(|e: (EntityId, EntityId, u64)| quant_view(e));
    let b: u32 = if bits < 1 {
        1
    } else if bits > 32 {
        32
    } else {
        bits
    };
    let n: usize = entries.len();
    let mut buf: Vec<u8> = Vec::new();
    if n == 0 {
        buf.push(0x10u8);
        assert(buf@ =~= seq![0x10u8]);
        return buf;
    }
    let c: usize = if n <= CHUNK_ENTRIES {
        n
    } else {
        CHUNK_ENTRIES
    };
    buf.push(16u8 + c as u8);
    buf.push(b as u8);
    push_u32_le(&mut buf, min_bits);
    push_u32_le(&mut buf, max_bits);
    push_quant_entries(&mut buf, entries, 0, c, b);
    proof {
        assert(es.skip(0) =~= es);
    }
    let ghost first = buf@;
    assert(first =~= seq![quant_header(c as nat), b as u8] + le32(min_bits) + le32(max_bits)
        + quant_entries_bytes(es, b as nat, c as nat));
    if n <= CHUNK_ENTRIES {
        assert(buf@ =~= first + Seq::<u8>::empty());
        return buf;
    }
    let mut start: usize = CHUNK_ENTRIES;
    while n - start > CHUNK_ENTRIES
        invariant
            n == entries@.len(),
            CHUNK_ENTRIES <= start <= n,
            1 <= b <= 32,
            es == entries@.map_values(|e: (EntityId, EntityId, u64)| quant_view(e)),
            buf@ + quant_chunks(es.skip(start as int), b as nat) == first + quant_chunks(
                es.skip(15),
                b as nat,
            ),
        decreases n - start,
    {
        let ghost pre = buf@;
        let ghost rest = es.skip(start as int);
        proof {
            assert(rest.skip(15) =~= es.skip(start + 15));
        }
        buf.push(31u8);
        push_quant_entries(&mut buf, entries, start, CHUNK_ENTRIES, b);
        start = start + CHUNK_ENTRIES;
        proof {
            assert(buf@ + quant_chunks(es.skip(start as int), b as nat) =~= pre + quant_chunks(
                rest,
                b as nat,
            ));
        }
    }
    let ghost pre = buf@;
    let k: usize = n - start;
    buf.push(16u8 + k as u8);
    push_quant_entries(&mut buf, entries, start, k, b);
    proof {
        assert(buf@ =~= pre + quant_chunks(es.skip(start as int), b as nat));
    }
    buf
}

/// The raw entries read from `pos` on, `remaining` of them left in the
/// current chunk: an entry is read when all its 69 bytes are present, and
/// reading stops at the first that is not. Once a full chunk (`full`) is
/// read, a raw header byte that follows opens the next chunk.
pub open spec fn raw_from(data: Seq<u8>, pos: int, remaining: nat, full: bool) -> Seq<RawEntryView>
    decreases data.len() - pos,
{
    if pos < 0 {
        Seq::empty()
    } else if remaining == 0 {
        if full && pos < data.len() && data[pos] >> 4u8 == 0 {
            raw_from(data, pos + 1, (data[pos] & 0x0Fu8) as nat, data[pos] & 0x0Fu8 == 15)
        } else {
            Seq::empty()
        }
    } else if pos + 69 > data.len() {
        Seq::empty()
    } else {
        seq![
            (
                data.subrange(pos + 1, pos + 33),
                data.subrange(pos + 33, pos + 65),
                get_u32_le(data, pos + 65),
            ),
        ] + raw_from(data, pos + 69, (remaining - 1) as nat, full)
    }
}

/// Where the quantised entry at `pos` ends: after its ids and value
/// bytes, or at the end of `data` when its value is cut short.
pub open spec fn quant_next(data: Seq<u8>, pos: int, bits: nat) -> int {
    if pos + 64 + byte_count(bits) <= data.len() {
        pos + 64 + byte_count(bits)
    } else {
        data.len() as int
    }
}

/// The quantised entries read from `pos` on, `remaining` of them left in
/// the current chunk: an entry is read when its two ids are present (a
/// value cut short reads its missing bytes as 0), and reading stops at
/// the first whose ids are not. Once a full chunk (`full`) is read, a
/// quantised header byte that follows opens the next chunk.
pub open spec fn quant_from(data: Seq<u8>, pos: int, bits: nat, remaining: nat, full: bool) -> Seq<
    QuantEntryView,
>
    decreases data.len() - pos,
{
    if pos < 0 {
        Seq::empty()
    } else if remaining == 0 {
        if full && pos < data.len() && data[pos] >> 4u8 == 1 {
            quant_from(data, pos + 1, bits, (data[pos] & 0x0Fu8) as nat, data[pos] & 0x0Fu8 == 15)
        } else {
            Seq::empty()
        }
    } else if pos + 64 > data.len() {
        Seq::empty()
    } else {
        seq![
            (
                data.subrange(pos, pos + 32),
                data.subrange(pos + 32, pos + 64),
                spec_read_bits(data, pos + 64, bits),
            ),
        ] + quant_from(data, quant_next(data, pos, bits), bits, (remaining - 1) as nat, full)
    }
}

/// A decoded gradient batch.
pub enum GradientPayload {
    /// Nothing to decode: empty input, unknown method, or a quantised batch
    /// without its range bounds.
    Nothing,
    /// Raw entries with weight bit patterns.
    Raw(Vec<(EntityId, EntityId, u32)>),
    /// Quantised entries: value width, range bounds (bit patterns of the
    /// `f32` minimum and maximum) and the entries' quantised values.
    Quantized(u32, u32, u32, Vec<(EntityId, EntityId, u64)>),
}

/// A decoded gradient batch as plain values.
pub enum PayloadView {
    /// Nothing to decode.
    Nothing,
    /// Raw entries.
    Raw(Seq<RawEntryView>),
    /// Quantised entries with width and range bounds.
    Quantized(u32, u32, u32, Seq<QuantEntryView>),
}

/// A decoded batch as plain values.
pub open spec fn payload_view(p: GradientPayload) -> PayloadView {
    match p {
        GradientPayload::Nothing => PayloadView::Nothing,
        GradientPayload::Raw(v) => PayloadView::Raw(
            v@.map_values(|e: (EntityId, EntityId, u32)| raw_view(e)),
        ),
        GradientPayload::Quantized(b, lo, hi, v) => PayloadView::Quantized(
            b,
            lo,
            hi,
            v@.map_values(|e: (EntityId, EntityId, u64)| quant_view(e)),
        ),
    }
}

/// What a batch decodes to, for any bytes: the method tag in the high
/// nibble of the first byte selects raw or quantised entries, and the low
/// nibble counts the entries of the first chunk; the entries are read as
/// far as they are present (see [`raw_from`] and [`quant_from`]). A
/// quantised batch without its width and range bounds, and an unknown
/// method, decode to nothing.
pub open spec fn spec_decode(data: Seq<u8>) -> PayloadView {
    if data.len() == 0 {
        PayloadView::Nothing
    } else {
        let tag = data[0] >> 4u8;
        let c = data[0] & 0x0Fu8;
        if tag == 0 {
            PayloadView::Raw(raw_from(data, 1, c as nat, c == 15))
        } else if tag == 1 {
            if data.len() < 10 {
                PayloadView::Nothing
            } else {
                let b = clamp_bits(data[1] as u32);
                PayloadView::Quantized(
                    b,
                    get_u32_le(data, 2),
                    get_u32_le(data, 6),
                    quant_from(data, 10, b as nat, c as nat, c == 15),
                )
            }
        } else {
            PayloadView::Nothing
        }
    }
}

/// The 32 bytes at `off` as an identifier.
fn id_at(data: &[u8], off: usize) -> (e: EntityId)
    requires
        off + 32 <= data@.len(),
    ensures
        e.0@ == data@.subrange(off as int, off + 32),
{
    let len: usize = data.len();
    let mut a: [u8; 32] = [0u8; 32];
    let mut i: usize = 0;
    while i < 32
        invariant
            len == data@.len(),
            off + 32 <= data@.len(),
            i <= 32,
            a@.len() == 32,
            forall|j: int| 0 <= j < i ==> a@[j] == data@[off + j],
        decreases 32 - i,
    {
        a[i] = data[off + i];
        i = i + 1;
    }
    assert(a@ =~= data@.subrange(off as int, off + 32));
    EntityId(a)
}

/// Decode any bytes as a gradient batch (see [`spec_decode`]); batches
/// made by [`serialize_raw`] and [`serialize_quantized`] decode to their
/// entries.
pub fn decode_gradients(bytes: &[u8]) -> (r: GradientPayload)
    ensures
        payload_view(r) == spec_decode(bytes@),
{
    let len: usize = bytes.len();
    if len == 0 {
        return GradientPayload::Nothing;
    }
    let header: u8 = bytes[0];
    let tag: u8 = header >> 4u8;
    let count: u8 = header & 0x0Fu8;
    if tag == 0 {
        let ghost total = raw_from(bytes@, 1, count as nat, count == 15);
        let mut result: Vec<(EntityId, EntityId, u32)> = Vec::new();
        let mut pos: usize = 1;
        let mut remaining: u8 = count;
        let mut full: bool = count == 15;
        loop
            invariant
                len == bytes@.len(),
                1 <= pos <= len,
                total == raw_from(bytes@, 1, count as nat, count == 15),
                result@.map_values(|e: (EntityId, EntityId, u32)| raw_view(e)) + raw_from(
                    bytes@,
                    pos as int,
                    remaining as nat,
                    full,
                ) == total,
            ensures
                result@.map_values(|e: (EntityId, EntityId, u32)| raw_view(e)) == total,
            decreases len - pos,
        {
            let ghost done = result@.map_values(|e: (EntityId, EntityId, u32)| raw_view(e));
            let ghost rest = raw_from(bytes@, pos as int, remaining as nat, full);
            if remaining == 0 {
                if full && pos < len && bytes[pos] >> 4u8 == 0 {
                    let h: u8 = bytes[pos];
                    remaining = h & 0x0Fu8;
                    full = remaining == 15;
                    pos = pos + 1;
                } else {
                    assert(rest =~= Seq::<RawEntryView>::empty());
                    assert(done + rest =~= done);
                    break;
                }
            } else {
                if len - pos < 69 {
                    assert(rest =~= Seq::<RawEntryView>::empty());
                    assert(done + rest =~= done);
                    break;
                }
                let pre = id_at(bytes, pos + 1);
                let post = id_at(bytes, pos + 33);
                let val: u32 = read_u32(bytes, pos + 65);
                let e = (pre, post, val);
                result.push(e);
                assert(result@.map_values(|e: (EntityId, EntityId, u32)| raw_view(e)) =~= done.push(
                    raw_view(e),
                ));
                pos = pos + 69;
                remaining = remaining - 1;
                assert(rest =~= seq![raw_view(e)] + raw_from(
                    bytes@,
                    pos as int,
                    remaining as nat,
                    full,
                ));
                assert(result@.map_values(|e: (EntityId, EntityId, u32)| raw_view(e)) + raw_from(
                    bytes@,
                    pos as int,
                    remaining as nat,
                    full,
                ) =~= done + rest);
            }
        }
        return GradientPayload::Raw(result);
    } else if tag == 1 {
        if len < 10 {
            return GradientPayload::Nothing;
        }
        let b0: u32 = bytes[1] as u32;
        let bits: u32 = if b0 < 1 {
            1
        } else if b0 > 32 {
            32
        } else {
            b0
        };
        let min_bits: u32 = read_u32(bytes, 2);
        let max_bits: u32 = read_u32(bytes, 6);
        let width: usize = bits as usize;
        let step: usize = (width + 7) / 8;
        let ghost total = quant_from(bytes@, 10, bits as nat, count as nat, count == 15);
        let mut result: Vec<(EntityId, EntityId, u64)> = Vec::new();
        let mut pos: usize = 10;
        let mut remaining: u8 = count;
        let mut full: bool = count == 15;
        loop
            invariant
                len == bytes@.len(),
                10 <= pos <= len,
                width == bits,
                1 <= bits <= 32,
                step == byte_count(bits as nat),
                total == quant_from(bytes@, 10, bits as nat, count as nat, count == 15),
                result@.map_values(|e: (EntityId, EntityId, u64)| quant_view(e)) + quant_from(
                    bytes@,
                    pos as int,
                    bits as nat,
                    remaining as nat,
                    full,
                ) == total,
            ensures
                result@.map_values(|e: (EntityId, EntityId, u64)| quant_view(e)) == total,
            decreases len - pos,
        {
            let ghost done = result@.map_values(|e: (EntityId, EntityId, u64)| quant_view(e));
            let ghost rest = quant_from(bytes@, pos as int, bits as nat, remaining as nat, full);
            if remaining == 0 {
                if full && pos < len && bytes[pos] >> 4u8 == 1 {
                    let h: u8 = bytes[pos];
                    remaining = h & 0x0Fu8;
                    full = remaining == 15;
                    pos = pos + 1;
                } else {
                    assert(rest =~= Seq::<QuantEntryView>::empty());
                    assert(done + rest =~= done);
                    break;
                }
            } else {
                if len - pos < 64 {
                    assert(rest =~= Seq::<QuantEntryView>::empty());
                    assert(done + rest =~= done);
                    break;
                }
                let pre = id_at(bytes, pos);
                let post = id_at(bytes, pos + 32);
                let quant: u64 = read_bits(bytes, pos + 64, width);
                let e = (pre, post, quant);
                result.push(e);
                assert(result@.map_values(|e: (EntityId, EntityId, u64)| quant_view(e))
                    =~= done.push(quant_view(e)));
                let ghost old_pos = pos as int;
                if len - pos - 64 < step {
                    pos = len;
                } else {
                    pos = pos + 64 + step;
                }
                assert(pos == quant_next(bytes@, old_pos, bits as nat));
                remaining = remaining - 1;
                assert(rest =~= seq![quant_view(e)] + quant_from(
                    bytes@,
                    pos as int,
                    bits as nat,
                    remaining as nat,
                    full,
                ));
                assert(result@.map_values(|e: (EntityId, EntityId, u64)| quant_view(e))
                    + quant_from(bytes@, pos as int, bits as nat, remaining as nat, full)
                    =~= done + rest);
            }
        }
        return GradientPayload::Quantized(bits, min_bits, max_bits, result);
    }
    GradientPayload::Nothing
}

/// Raw entries whose ids are 32 bytes long.
pub open spec fn raw_entries_ok(es: Seq<RawEntryView>) -> bool {
    forall|i: int| 0 <= i < es.len() ==> (#[trigger] es[i]).0.len() == 32 && es[i].1.len() == 32
}

/// Quantised entries whose ids are 32 bytes long.
pub open spec fn quant_entries_ok(es: Seq<QuantEntryView>) -> bool {
    forall|i: int| 0 <= i < es.len() ==> (#[trigger] es[i]).0.len() == 32 && es[i].1.len() == 32
}

proof fn lemma_raw_layout(es: Seq<RawEntryView>, c: nat)
    requires
        c <= es.len(),
        raw_entries_ok(es),
    ensures
        raw_entries_bytes(es, c).len() == 69 * c,
        forall|m: int|
            0 <= m < c ==> (#[trigger] raw_entries_bytes(es, c).subrange(69 * m, 69 * m + 69))
                == raw_entry_bytes(es[m]),
    decreases c,
{
    if c > 0 {
        let prev = raw_entries_bytes(es, (c - 1) as nat);
        lemma_raw_layout(es, (c - 1) as nat);
        let all = raw_entries_bytes(es, c);
        assert(es[c - 1].0.len() == 32 && es[c - 1].1.len() == 32);
        assert(all == prev + raw_entry_bytes(es[c - 1]));
        assert forall|m: int| 0 <= m < c implies #[trigger] all.subrange(69 * m, 69 * m + 69)
            == raw_entry_bytes(es[m]) by {
            if m < c - 1 {
                assert(all.subrange(69 * m, 69 * m + 69) =~= prev.subrange(69 * m, 69 * m + 69));
            } else {
                assert(all.subrange(69 * m, 69 * m + 69) =~= raw_entry_bytes(es[m]));
            }
        }
    }
}

/// The bytes of one quantised entry: two ids and the value's bytes.
pub open spec fn quant_entry_len(bits: nat) -> int {
    (64 + byte_count(bits)) as int
}

proof fn lemma_quant_layout(es: Seq<QuantEntryView>, bits: nat, c: nat)
    requires
        c <= es.len(),
        quant_entries_ok(es),
    ensures
        quant_entries_bytes(es, bits, c).len() == quant_entry_len(bits) * c,
        forall|m: int|
            0 <= m < c ==> (#[trigger] quant_entries_bytes(es, bits, c).subrange(
                quant_entry_len(bits) * m,
                quant_entry_len(bits) * m + quant_entry_len(bits),
            )) == es[m].0 + es[m].1 + spec_bits_bytes(es[m].2, bits),
    decreases c,
{
    let w = quant_entry_len(bits);
    if c > 0 {
        let prev = quant_entries_bytes(es, bits, (c - 1) as nat);
        lemma_quant_layout(es, bits, (c - 1) as nat);
        let all = quant_entries_bytes(es, bits, c);
        let last = es[c - 1];
        assert(last.0.len() == 32 && last.1.len() == 32);
        assert(all == prev + last.0 + last.1 + spec_bits_bytes(last.2, bits));
        assert(prev.len() == w * (c - 1));
        assert(w * (c - 1) + w == w * c) by (nonlinear_arith);
        assert forall|m: int| 0 <= m < c implies #[trigger] all.subrange(w * m, w * m + w)
            == es[m].0 + es[m].1 + spec_bits_bytes(es[m].2, bits) by {
            if m < c - 1 {
                assert(w * m + w <= w * (c - 1)) by (nonlinear_arith)
                    requires
                        m < c - 1,
                        w >= 0,
                ;
                assert(all.subrange(w * m, w * m + w) =~= prev.subrange(w * m, w * m + w));
            } else {
                assert(all.subrange(w * m, w * m + w) =~= es[m].0 + es[m].1 + spec_bits_bytes(
                    es[m].2,
                    bits,
                ));
            }
        }
    }
}

/// A sequence split after its first `x.len()` bytes from `q` on.
proof fn lemma_split_at(data: Seq<u8>, q: int, x: Seq<u8>, y: Seq<u8>)
    requires
        0 <= q <= data.len(),
        data.subrange(q, data.len() as int) == x + y,
    ensures
        q + x.len() <= data.len(),
        data.subrange(q, q + x.len()) == x,
        data.subrange(q + x.len(), data.len() as int) == y,
{
    let t = data.subrange(q, data.len() as int);
    assert(t.len() == x.len() + y.len());
    assert(data.subrange(q, q + x.len()) =~= x) by {
        assert forall|k: int| 0 <= k < x.len() implies data.subrange(q, q + x.len())[k] == x[k] by {
            assert(t[k] == (x + y)[k]);
        }
    }
    assert(data.subrange(q + x.len(), data.len() as int) =~= y) by {
        assert forall|k: int| 0 <= k < y.len() implies data.subrange(
            q + x.len(),
            data.len() as int,
        )[k] == y[k] by {
            assert(t[x.len() + k] == (x + y)[x.len() + k]);
        }
    }
}

/// A chunk header byte (below 16, or 16 plus a count below 16) holds its
/// tag and count in its two nibbles.
proof fn lemma_header_nibbles(c: u8)
    requires
        c < 16,
    ensures
        c >> 4u8 == 0,
        c & 0x0Fu8 == c,
        ((16 + c) as u8) >> 4u8 == 1,
        ((16 + c) as u8) & 0x0Fu8 == c,
{
    let h: u8 = (16 + c) as u8;
    assert(c >> 4u8 == 0 && c & 0x0Fu8 == c) by (bit_vector)
        requires
            c < 16,
    ;
    assert(h >> 4u8 == 1 && h & 0x0Fu8 == c) by (bit_vector)
        requires
            c < 16,
            h == 16 + c,
    ;
}

/// Reading `c - m` raw entries laid out from `p + 69 m` on gives those
/// entries, then whatever follows them.
proof fn lemma_raw_entries_from(
    data: Seq<u8>,
    es: Seq<RawEntryView>,
    c: int,
    p: int,
    m: int,
    full: bool,
)
    requires
        0 <= m <= c <= es.len(),
        raw_entries_ok(es),
        0 <= p,
        p + 69 * c <= data.len(),
        data.subrange(p, p + 69 * c) == raw_entries_bytes(es, c as nat),
    ensures
        raw_from(data, p + 69 * m, (c - m) as nat, full) == es.subrange(m, c) + raw_from(
            data,
            p + 69 * c,
            0,
            full,
        ),
    decreases c - m,
{
    if m < c {
        lemma_raw_layout(es, c as nat);
        lemma_raw_entries_from(data, es, c, p, m + 1, full);
        let q = p + 69 * m;
        let e = es[m];
        let eb = raw_entry_bytes(e);
        let all = raw_entries_bytes(es, c as nat);
        assert(e.0.len() == 32 && e.1.len() == 32);
        assert(all.subrange(69 * m, 69 * m + 69) == eb);
        assert forall|k: int| 0 <= k < 69 implies #[trigger] data[q + k] == eb[k] by {
            assert(data.subrange(p, p + 69 * c)[69 * m + k] == data[p + (69 * m + k)]);
            assert(all.subrange(69 * m, 69 * m + 69)[k] == all[69 * m + k]);
        }
        assert(data.subrange(q + 1, q + 33) =~= e.0) by {
            assert forall|k: int| 0 <= k < 32 implies data.subrange(q + 1, q + 33)[k] == e.0[k] by {
                assert(data[q + (1 + k)] == eb[1 + k]);
            }
        }
        assert(data.subrange(q + 33, q + 65) =~= e.1) by {
            assert forall|k: int| 0 <= k < 32 implies data.subrange(q + 33, q + 65)[k] == e.1[k] by {
                assert(data[q + (33 + k)] == eb[33 + k]);
            }
        }
        lemma_le32_roundtrip(e.2);
        assert(data[q + 65] == eb[65] && data[q + 66] == eb[66] && data[q + 67] == eb[67] && data[q
            + 68] == eb[68]);
        assert(get_u32_le(data, q + 65) == e.2);
        assert(q + 69 == p + 69 * (m + 1));
        assert(es.subrange(m, c) =~= seq![e] + es.subrange(m + 1, c));
    } else {
        assert(es.subrange(m, c) =~= Seq::<RawEntryView>::empty());
    }
}

/// Raw entries after a chunk header at `q - 1`: their first chunk, then
/// the further chunks, read back to the entries.
proof fn lemma_raw_chunks_read(data: Seq<u8>, es: Seq<RawEntryView>, q: int)
    requires
        raw_entries_ok(es),
        1 <= q <= data.len(),
        data.subrange(q, data.len() as int) == raw_entries_bytes(es, first_chunk_len(es.len()))
            + if es.len() > 15 {
            raw_chunks(es.skip(15))
        } else {
            Seq::<u8>::empty()
        },
    ensures
        raw_from(data, q, first_chunk_len(es.len()), first_chunk_len(es.len()) == 15) == es,
    decreases es.len(),
{
    let c = first_chunk_len(es.len());
    let full = c == 15;
    lemma_raw_layout(es, c);
    let tail = if es.len() > 15 {
        raw_chunks(es.skip(15))
    } else {
        Seq::<u8>::empty()
    };
    lemma_split_at(data, q, raw_entries_bytes(es, c), tail);
    lemma_raw_entries_from(data, es, c as int, q, 0, full);
    let n = q + 69 * c;
    if es.len() <= 15 {
        assert(n == data.len());
        assert(es.subrange(0, c as int) =~= es);
        assert(es.subrange(0, c as int) + Seq::<RawEntryView>::empty() =~= es);
    } else {
        let es2 = es.skip(15);
        let c2 = first_chunk_len(es2.len());
        let tail2 = if es2.len() > 15 {
            raw_chunks(es2.skip(15))
        } else {
            Seq::<u8>::empty()
        };
        assert(raw_entries_ok(es2)) by {
            assert forall|i: int| 0 <= i < es2.len() implies (#[trigger] es2[i]).0.len() == 32
                && es2[i].1.len() == 32 by {
                assert(es2[i] == es[i + 15]);
            }
        }
        assert(tail =~= seq![c2 as u8] + (raw_entries_bytes(es2, c2) + tail2));
        lemma_split_at(data, n, seq![c2 as u8], raw_entries_bytes(es2, c2) + tail2);
        assert(data[n] == c2 as u8) by {
            assert(data.subrange(n, n + 1)[0] == data[n]);
        }
        lemma_header_nibbles(c2 as u8);
        lemma_raw_chunks_read(data, es2, n + 1);
        assert(es =~= es.subrange(0, c as int) + es2);
    }
}

/// Law: a raw batch decodes to exactly the entries it was serialized
/// from, in order.
pub proof fn lemma_raw_roundtrip(es: Seq<RawEntryView>)
    requires
        raw_entries_ok(es),
    ensures
        spec_decode(spec_serialize_raw(es)) == PayloadView::Raw(es),
{
    let data = spec_serialize_raw(es);
    let c = first_chunk_len(es.len());
    let tail = if es.len() > 15 {
        raw_chunks(es.skip(15))
    } else {
        Seq::<u8>::empty()
    };
    assert(data =~= seq![c as u8] + (raw_entries_bytes(es, c) + tail));
    assert(data.subrange(1, data.len() as int) =~= raw_entries_bytes(es, c) + tail);
    lemma_header_nibbles(c as u8);
    lemma_raw_chunks_read(data, es, 1);
}

/// The entries with their values masked to `bits` bits.
pub open spec fn masked(es: Seq<QuantEntryView>, bits: nat) -> Seq<QuantEntryView> {
    es.map_values(|e: QuantEntryView| (e.0, e.1, e.2 & low_mask(bits)))
}

/// Reading `c - m` quantised entries laid out from `p + w m` on gives
/// those entries, values masked, then whatever follows them.
proof fn lemma_quant_entries_from(
    data: Seq<u8>,
    es: Seq<QuantEntryView>,
    bits: nat,
    c: int,
    p: int,
    m: int,
    full: bool,
)
    requires
        1 <= bits <= 64,
        0 <= m <= c <= es.len(),
        quant_entries_ok(es),
        0 <= p,
        p + quant_entry_len(bits) * c <= data.len(),
        data.subrange(p, p + quant_entry_len(bits) * c) == quant_entries_bytes(es, bits, c as nat),
    ensures
        quant_from(data, p + quant_entry_len(bits) * m, bits, (c - m) as nat, full) == masked(
            es.subrange(m, c),
            bits,
        ) + quant_from(data, p + quant_entry_len(bits) * c, bits, 0, full),
    decreases c - m,
{
    let w: int = quant_entry_len(bits);
    let f = |e: QuantEntryView| (e.0, e.1, e.2 & low_mask(bits));
    if m < c {
        lemma_quant_layout(es, bits, c as nat);
        lemma_quant_entries_from(data, es, bits, c, p, m + 1, full);
        let q = p + w * m;
        let e = es[m];
        let sb = spec_bits_bytes(e.2, bits);
        let eb = e.0 + e.1 + sb;
        let all = quant_entries_bytes(es, bits, c as nat);
        assert(e.0.len() == 32 && e.1.len() == 32);
        assert(w * m + w <= w * c) by (nonlinear_arith)
            requires
                m < c,
                w >= 0,
        ;
        assert(w * m >= 0) by (nonlinear_arith)
            requires
                m >= 0,
                w >= 0,
        ;
        assert(all.subrange(w * m, w * m + w) == eb);
        assert forall|k: int| 0 <= k < w implies #[trigger] data[q + k] == eb[k] by {
            assert(data.subrange(p, p + w * c)[w * m + k] == data[p + (w * m + k)]);
            assert(all.subrange(w * m, w * m + w)[k] == all[w * m + k]);
        }
        assert(data.subrange(q, q + 32) =~= e.0) by {
            assert forall|k: int| 0 <= k < 32 implies data.subrange(q, q + 32)[k] == e.0[k] by {
                assert(data[q + k] == eb[k]);
            }
        }
        assert(data.subrange(q + 32, q + 64) =~= e.1) by {
            assert forall|k: int| 0 <= k < 32 implies data.subrange(q + 32, q + 64)[k] == e.1[k] by {
                assert(data[q + (32 + k)] == eb[32 + k]);
            }
        }
        let pre = data.subrange(0, q + 64);
        let rest = data.subrange(q + w, data.len() as int);
        assert(data =~= pre + sb + rest) by {
            assert forall|k: int| 0 <= k < sb.len() implies data[q + 64 + k] == sb[k] by {
                assert(data[q + (64 + k)] == eb[64 + k]);
            }
        }
        lemma_bits_roundtrip(pre, e.2, bits, rest);
        assert(w * m + w == w * (m + 1)) by (nonlinear_arith);
        assert(quant_next(data, q, bits) == p + w * (m + 1));
        assert(es.subrange(m, c).map_values(f) =~= seq![f(e)] + es.subrange(m + 1, c).map_values(f));
    } else {
        assert(es.subrange(m, c).map_values(f) =~= Seq::<QuantEntryView>::empty());
    }
}

/// Quantised entries after a chunk header (or after the width and bounds
/// of the first): their first chunk, then the further chunks, read back to
/// the entries, values masked.
proof fn lemma_quant_chunks_read(data: Seq<u8>, es: Seq<QuantEntryView>, bits: nat, q: int)
    requires
        1 <= bits <= 64,
        quant_entries_ok(es),
        1 <= q <= data.len(),
        data.subrange(q, data.len() as int) == quant_entries_bytes(
            es,
            bits,
            first_chunk_len(es.len()),
        ) + if es.len() > 15 {
            quant_chunks(es.skip(15), bits)
        } else {
            Seq::<u8>::empty()
        },
    ensures
        quant_from(data, q, bits, first_chunk_len(es.len()), first_chunk_len(es.len()) == 15)
            == masked(es, bits),
    decreases es.len(),
{
    let w = quant_entry_len(bits);
    let c = first_chunk_len(es.len());
    let full = c == 15;
    lemma_quant_layout(es, bits, c);
    let tail = if es.len() > 15 {
        quant_chunks(es.skip(15), bits)
    } else {
        Seq::<u8>::empty()
    };
    lemma_split_at(data, q, quant_entries_bytes(es, bits, c), tail);
    assert(w * 0 == 0);
    lemma_quant_entries_from(data, es, bits, c as int, q, 0, full);
    let n = q + w * c;
    if es.len() <= 15 {
        assert(n == data.len());
        assert(es.subrange(0, c as int) =~= es);
        assert(masked(es.subrange(0, c as int), bits) + Seq::<QuantEntryView>::empty() =~= masked(
            es,
            bits,
        ));
    } else {
        let es2 = es.skip(15);
        let c2 = first_chunk_len(es2.len());
        let tail2 = if es2.len() > 15 {
            quant_chunks(es2.skip(15), bits)
        } else {
            Seq::<u8>::empty()
        };
        assert(quant_entries_ok(es2)) by {
            assert forall|i: int| 0 <= i < es2.len() implies (#[trigger] es2[i]).0.len() == 32
                && es2[i].1.len() == 32 by {
                assert(es2[i] == es[i + 15]);
            }
        }
        assert(tail =~= seq![quant_header(c2)] + (quant_entries_bytes(es2, bits, c2) + tail2));
        lemma_split_at(data, n, seq![quant_header(c2)], quant_entries_bytes(es2, bits, c2) + tail2);
        assert(data[n] == quant_header(c2)) by {
            assert(data.subrange(n, n + 1)[0] == data[n]);
        }
        lemma_header_nibbles(c2 as u8);
        assert(quant_header(c2) == (16 + c2 as u8) as u8);
        lemma_quant_chunks_read(data, es2, bits, n + 1);
        assert(es =~= es.subrange(0, c as int) + es2);
        assert(masked(es, bits) =~= masked(es.subrange(0, c as int), bits) + masked(es2, bits));
    }
}

/// Law: a quantised batch decodes to the clamped width, the range bounds
/// and every entry with its value masked to that width; a batch of no
/// entries decodes to nothing.
pub proof fn lemma_quantized_roundtrip(
    es: Seq<QuantEntryView>,
    bits: u32,
    min_bits: u32,
    max_bits: u32,
)
    requires
        quant_entries_ok(es),
    ensures
        spec_decode(spec_serialize_quantized(es, bits, min_bits, max_bits)) == if es.len() == 0 {
            PayloadView::Nothing
        } else {
            PayloadView::Quantized(clamp_bits(bits), min_bits, max_bits, masked(es, clamp_bits(bits) as nat))
        },
{
    let data = spec_serialize_quantized(es, bits, min_bits, max_bits);
    if es.len() == 0 {
        assert(data =~= seq![0x10u8]);
        lemma_header_nibbles(0);
        assert((0x10u8) >> 4u8 == 1) by (bit_vector);
        return;
    }
    let b = clamp_bits(bits);
    let c = first_chunk_len(es.len());
    let tail = if es.len() > 15 {
        quant_chunks(es.skip(15), b as nat)
    } else {
        Seq::<u8>::empty()
    };
    let body = quant_entries_bytes(es, b as nat, c) + tail;
    assert(data =~= seq![quant_header(c), b as u8] + le32(min_bits) + le32(max_bits) + body);
    lemma_header_nibbles(c as u8);
    assert(quant_header(c) == (16 + c as u8) as u8);
    lemma_quant_layout(es, b as nat, c);
    assert(data.len() >= 10);
    assert(data[1] == b as u8);
    assert(clamp_bits(data[1] as u32) == b);
    lemma_le32_roundtrip(min_bits);
    lemma_le32_roundtrip(max_bits);
    assert(get_u32_le(data, 2) == min_bits);
    assert(get_u32_le(data, 6) == max_bits);
    assert(data.subrange(10, data.len() as int) =~= body);
    lemma_quant_chunks_read(data, es, b as nat, 10);
}

} // verus!
