//! Adversarial testing: the attack modes, the malformed frames the
//! adversary sends, and its choice of target. The frames built here are
//! the protocol frames that follow the transport header in a datagram;
//! sockets, timing and the transport header are the simulator's part.

use vstd::prelude::*;

pub mod replay;

use crate::crc::spec_crc32;
use crate::header::{
    build_frame, frame_body_fits, header_accepts, magic_seq, spec_frame, spec_new_header_bytes,
    spec_read_header, HeaderError, MessageHeader,
};
use crate::text::str_eq;
use crate::wire::{get_u32_le, le16, le32, lemma_le32_roundtrip, push_bytes, push_u32_le, u32_le};
use crate::{HEADER_SIZE, VERSION};

verus! {

/// Supported adversarial attack modes.
#[derive(Debug, Clone, Copy, PartialEq, Eq, Structural)]
pub enum AdversaryMode {
    /// No adversarial behaviour (clean run)
    NoAttack,
    /// Send packets with corrupted headers, garbage bodies, invalid lengths
    BadPackets,
    /// Inject fake routing entries / corrupt node state
    CorruptedState,
    /// Spoof source identity
    SpoofedIdentity,
    /// Capture valid packets and replay them later
    ReplayAttack,
    /// Run all available attack vectors simultaneously
    All,
}

impl AdversaryMode {
    /// The mode each spelling names; anything unrecognised is `None`.
    pub open spec fn spec_from_str(s: Seq<char>) -> AdversaryMode {
        if s == "bad-packets"@ || s == "badpackets"@ || s == "corrupt"@ {
            AdversaryMode::BadPackets
        } else if s == "corrupted-state"@ || s == "corrupt-state"@ || s == "state"@ {
            AdversaryMode::CorruptedState
        } else if s == "spoofed-identity"@ || s == "spoof"@ || s == "identity"@ {
            AdversaryMode::SpoofedIdentity
        } else if s == "replay-attack"@ || s == "replay"@ {
            AdversaryMode::ReplayAttack
        } else if s == "all"@ || s == "everything"@ {
            AdversaryMode::All
        } else {
            AdversaryMode::NoAttack
        }
    }

    /// Parse a mode name (several spellings each); unrecognised names mean `None`.
    pub fn from_str(s: &str) -> (m: Self)
        ensures
            m == AdversaryMode::spec_from_str(s@),
    {
        if str_eq(s, "bad-packets") || str_eq(s, "badpackets") || str_eq(s, "corrupt") {
            AdversaryMode::BadPackets
        } else if str_eq(s, "corrupted-state") || str_eq(s, "corrupt-state") || str_eq(s, "state") {
            AdversaryMode::CorruptedState
        } else if str_eq(s, "spoofed-identity") || str_eq(s, "spoof") || str_eq(s, "identity") {
            AdversaryMode::SpoofedIdentity
        } else if str_eq(s, "replay-attack") || str_eq(s, "replay") {
            AdversaryMode::ReplayAttack
        } else if str_eq(s, "all") || str_eq(s, "everything") {
            AdversaryMode::All
        } else {
            AdversaryMode::NoAttack
        }
    }

    /// The canonical name of each mode.
    pub open spec fn spec_name(self) -> Seq<char> {
        match self {
            AdversaryMode::NoAttack => "none"@,
            AdversaryMode::BadPackets => "bad-packets"@,
            AdversaryMode::CorruptedState => "corrupted-state"@,
            AdversaryMode::SpoofedIdentity => "spoofed-identity"@,
            AdversaryMode::ReplayAttack => "replay-attack"@,
            AdversaryMode::All => "all"@,
        }
    }

    /// The canonical name of this mode.
    pub fn name(&self) -> (s: &'static str)
        ensures
            s@ == self.spec_name(),
    {
        match self {
            AdversaryMode::NoAttack => "none",
            AdversaryMode::BadPackets => "bad-packets",
            AdversaryMode::CorruptedState => "corrupted-state",
            AdversaryMode::SpoofedIdentity => "spoofed-identity",
            AdversaryMode::ReplayAttack => "replay-attack",
            AdversaryMode::All => "all",
        }
    }
}

/// How many corrupt packets the adversary sends per tick.
pub const MAX_BURST_PER_TICK: usize = 10;

/// Pick the index of the target node: the configured target when it names
/// an existing node, otherwise the node selected by the seed.
pub fn pick_target_index(target_node_index: Option<u32>, node_count: usize, rng_seed: u64) -> (i:
    usize)
    requires
        node_count > 0,
    ensures
        i < node_count,
        i == match target_node_index {
            Some(t) if (t as usize) < node_count => t as usize,
            _ => ((rng_seed as usize) % node_count) as usize,
        },
{
    if let Some(t) = target_node_index {
        let ti: usize = t as usize;
        if ti < node_count {
            return ti;
        }
    }
    (rng_seed as usize) % node_count
}

/// The frame of a ping with an 8-byte zero body.
pub open spec fn base_frame() -> Seq<u8> {
    spec_frame(7, Seq::new(8, |i: int| 0u8), 0)
}

/// A ping frame whose magic bytes are replaced by `FF 00 00 FF`.
pub fn build_corrupt_magic() -> (f: Vec<u8>)
    ensures
        f@ == base_frame().update(4, 0xFFu8).update(5, 0u8).update(6, 0u8).update(7, 0xFFu8),
{
    let body: Vec<u8> = vec![0u8; 8];
    assert(body@ =~= Seq::new(8, |i: int| 0u8));
    let mut frame = build_frame(7, body, 0);
    frame.set(4, 0xFF);
    frame.set(5, 0x00);
    frame.set(6, 0x00);
    frame.set(7, 0xFF);
    frame
}

/// A ping frame whose version byte is `0xFF`.
pub fn build_corrupt_version() -> (f: Vec<u8>)
    ensures
        f@ == base_frame().update(8, 0xFFu8),
{
    let body: Vec<u8> = vec![0u8; 8];
    assert(body@ =~= Seq::new(8, |i: int| 0u8));
    let mut frame = build_frame(7, body, 0);
    frame.set(8, 0xFF);
    frame
}

/// A ping frame with the lowest bit of its stored CRC flipped.
pub fn build_corrupt_crc() -> (f: Vec<u8>)
    ensures
        f@ == base_frame().update(16, base_frame()[16] ^ 1u8),
{
    let body: Vec<u8> = vec![0u8; 8];
    assert(body@ =~= Seq::new(8, |i: int| 0u8));
    let mut frame = build_frame(7, body, 0);
    let b: u8 = frame[16];
    frame.set(16, b ^ 0x01);
    frame
}

/// A ping frame with a 32-byte zero body whose length prefix reads 0.
pub fn build_invalid_frame_len() -> (f: Vec<u8>)
    ensures
        f@ == spec_frame(7, Seq::new(32, |i: int| 0u8), 0).update(0, 0u8).update(1, 0u8).update(
            2,
            0u8,
        ).update(3, 0u8),
{
    let body: Vec<u8> = vec![0u8; 32];
    assert(body@ =~= Seq::new(32, |i: int| 0u8));
    let mut frame = build_frame(7, body, 0);
    frame.set(0, 0x00);
    frame.set(1, 0x00);
    frame.set(2, 0x00);
    frame.set(3, 0x00);
    frame
}

/// A frame whose header declares a 1000-byte body while only 50 bytes
/// (`0, 1, ..., 49`) follow; the length prefix counts what is there.
pub fn build_truncated_body() -> (f: Vec<u8>)
    ensures
        f@ == le32(70) + spec_new_header_bytes(7, 1000, 0) + Seq::new(50, |i: int| i as u8),
{
    let mut body: Vec<u8> = Vec::new();
    let mut i: usize = 0;
    while i < 50
        invariant
            i <= 50,
            body@ == Seq::new(i as nat, |k: int| k as u8),
        decreases 50 - i,
    {
        body.push((i & 0xFF) as u8);
        proof {
            assert((i & 0xFF) == i) by (bit_vector)
                requires
                    i < 50,
            ;
        }
        i = i + 1;
        assert(body@ =~= Seq::new(i as nat, |k: int| k as u8));
    }
    let total: usize = 4 + HEADER_SIZE + 50;
    let mut frame: Vec<u8> = Vec::new();
    push_u32_le(&mut frame, total as u32);
    let header = MessageHeader::new(7, 1000, 0);
    let hb = header.to_bytes();
    push_bytes(&mut frame, hb.as_slice());
    push_bytes(&mut frame, body.as_slice());
    proof {
        assert(header.magic@ == magic_seq());
        assert(header.spec_prefix() =~= magic_seq() + seq![VERSION, 7u8] + le16(0) + le32(1000));
        assert(frame@ =~= le32(70) + spec_new_header_bytes(7, 1000, 0) + Seq::new(
            50,
            |k: int| k as u8,
        ));
    }
    frame
}

/// A frame whose header declares a body of 1 000 000 001 bytes (above the
/// limit), followed by 8 zero bytes.
pub fn build_oversized_body() -> (f: Vec<u8>)
    ensures
        f@ == le32(28) + spec_new_header_bytes(7, 1_000_000_001, 0) + Seq::new(8, |i: int| 0u8),
{
    let total: usize = 4 + HEADER_SIZE + 8;
    let mut frame: Vec<u8> = Vec::new();
    push_u32_le(&mut frame, total as u32);
    let header = MessageHeader::new(7, 1_000_000_001, 0);
    let hb = header.to_bytes();
    push_bytes(&mut frame, hb.as_slice());
    let zeros: [u8; 8] = [0u8; 8];
    push_bytes(&mut frame, zeros.as_slice());
    proof {
        assert(header.magic@ == magic_seq());
        assert(header.spec_prefix() =~= magic_seq() + seq![VERSION, 7u8] + le16(0) + le32(
            1_000_000_001,
        ));
        assert(zeros@ =~= Seq::new(8, |i: int| 0u8));
        assert(frame@ =~= le32(28) + spec_new_header_bytes(7, 1_000_000_001, 0) + Seq::new(
            8,
            |i: int| 0u8,
        ));
    }
    frame
}

/// A 64-byte datagram with no structure: byte `i` is `(37 i) mod 256`.
pub fn build_garbage_payload() -> (d: Vec<u8>)
    ensures
        d@ == Seq::new(64, |i: int| ((37 * i) % 256) as u8),
{
    let mut d: Vec<u8> = Vec::new();
    let mut i: usize = 0;
    while i < 64
        invariant
            i <= 64,
            d@ == Seq::new(i as nat, |k: int| ((37 * k) % 256) as u8),
        decreases 64 - i,
    {
        let v: usize = (i * 37) & 0xFF;
        proof {
            assert(((37 * i) as usize & 0xFFusize) == (37 * i) % 256) by (bit_vector)
                requires
                    i < 64,
            ;
        }
        d.push(v as u8);
        i = i + 1;
        assert(d@ =~= Seq::new(i as nat, |k: int| ((37 * k) % 256) as u8));
    }
    d
}

/// The malformed frame of a bad-packets variant: corrupt magic, version
/// or CRC, a zero length prefix, a truncated or an oversized body, or
/// unstructured bytes (variants 0 to 6).
pub open spec fn spec_bad_frame(variant: u64) -> Seq<u8> {
    if variant == 0 {
        base_frame().update(4, 0xFFu8).update(5, 0u8).update(6, 0u8).update(7, 0xFFu8)
    } else if variant == 1 {
        base_frame().update(8, 0xFFu8)
    } else if variant == 2 {
        base_frame().update(16, base_frame()[16] ^ 1u8)
    } else if variant == 3 {
        spec_frame(7, Seq::new(32, |i: int| 0u8), 0).update(0, 0u8).update(1, 0u8).update(
            2,
            0u8,
        ).update(3, 0u8)
    } else if variant == 4 {
        le32(70) + spec_new_header_bytes(7, 1000, 0) + Seq::new(50, |i: int| i as u8)
    } else if variant == 5 {
        le32(28) + spec_new_header_bytes(7, 1_000_000_001, 0) + Seq::new(8, |i: int| 0u8)
    } else {
        Seq::new(64, |i: int| ((37 * i) % 256) as u8)
    }
}

/// The malformed frame of variant `variant` (see [`spec_bad_frame`]).
pub fn bad_frame(variant: u64) -> (f: Vec<u8>)
    requires
        variant < 7,
    ensures
        f@ == spec_bad_frame(variant),
{
    if variant == 0 {
        build_corrupt_magic()
    } else if variant == 1 {
        build_corrupt_version()
    } else if variant == 2 {
        build_corrupt_crc()
    } else if variant == 3 {
        build_invalid_frame_len()
    } else if variant == 4 {
        build_truncated_body()
    } else if variant == 5 {
        build_oversized_body()
    } else {
        build_garbage_payload()
    }
}

/// The seed of packet `k` of a burst started with `seed`.
pub open spec fn burst_seed(seed: u64, k: int) -> u64 {
    vstd::wrapping::u64_specs::wrapping_add(seed, k as u64)
}

/// One tick of the bad-packets attack on `node_count` nodes: for each of
/// [`MAX_BURST_PER_TICK`] packets, the target node (see
/// [`pick_target_index`]) and the malformed frame of variant `seed % 7`,
/// the seed stepping by one (wrapping) per packet. Returns the packets and
/// the seed after the burst.
pub fn bad_packet_burst(target_node_index: Option<u32>, node_count: usize, seed: u64) -> (r: (
    Vec<(usize, Vec<u8>)>,
    u64,
))
    requires
        node_count > 0,
    ensures
        r.0@.len() == MAX_BURST_PER_TICK,
        r.1 == burst_seed(seed, MAX_BURST_PER_TICK as int),
        forall|k: int|
            0 <= k < MAX_BURST_PER_TICK ==> {
                let sk = burst_seed(seed, k);
                &&& (#[trigger] r.0@[k]).0 == match target_node_index {
                    Some(t) if (t as usize) < node_count => t as usize,
                    _ => ((sk as usize) % node_count) as usize,
                }
                &&& r.0@[k].1@ == spec_bad_frame(sk % 7)
            },
{
    let mut out: Vec<(usize, Vec<u8>)> = Vec::new();
    let mut s: u64 = seed;
    let mut k: usize = 0;
    while k < MAX_BURST_PER_TICK
        invariant
            node_count > 0,
            k <= MAX_BURST_PER_TICK,
            out@.len() == k,
            s == burst_seed(seed, k as int),
            forall|q: int|
                0 <= q < k ==> {
                    let sq = burst_seed(seed, q);
                    &&& (#[trigger] out@[q]).0 == match target_node_index {
                        Some(t) if (t as usize) < node_count => t as usize,
                        _ => ((sq as usize) % node_count) as usize,
                    }
                    &&& out@[q].1@ == spec_bad_frame(sq % 7)
                },
        decreases MAX_BURST_PER_TICK - k,
    {
        let target: usize = pick_target_index(target_node_index, node_count, s);
        let frame = bad_frame(s % 7);
        out.push((target, frame));
        proof {
            assert(burst_seed(seed, k + 1) == vstd::wrapping::u64_specs::wrapping_add(s, 1)) by {
                assert(vstd::wrapping::u64_specs::wrapping_add(
                    vstd::wrapping::u64_specs::wrapping_add(seed, k as u64),
                    1u64,
                ) == vstd::wrapping::u64_specs::wrapping_add(seed, (k + 1) as u64)) by (bit_vector);
            }
        }
        s = s.wrapping_add(1);
        k = k + 1;
    }
    (out, s)
}

/// How many nodes a corrupted-state blip takes down among `count`: a fifth
/// of them, at least 2 and at most 5.
pub open spec fn blip_count(count: int) -> int {
    let f = count / 5;
    if f < 2 {
        2
    } else if f > 5 {
        5
    } else {
        f
    }
}

/// The nodes a corrupted-state tick shuts down among `count` (at least
/// 2): when `seed % 3 == 0`, the nodes `(i + seed) % count` for `i` below
/// [`blip_count`] (and `count`), the attacker excepted, in that order;
/// otherwise none.
pub open spec fn spec_blip_targets(count: int, attacker: u32, seed: u64) -> Seq<usize> {
    if seed % 3 != 0 {
        Seq::empty()
    } else {
        let m = if blip_count(count) < count { blip_count(count) } else { count };
        blip_candidates(count, seed, m).filter(not_attacker(attacker))
    }
}

/// The candidates `(i + seed) % count` for `i` below `m`.
pub open spec fn blip_candidates(count: int, seed: u64, m: int) -> Seq<usize> {
    Seq::new(m as nat, |i: int| ((i + (seed as usize)) % count) as usize)
}

/// Every node but the attacker.
pub open spec fn not_attacker(attacker: u32) -> spec_fn(usize) -> bool {
    |idx: usize| idx != attacker
}

/// The nodes a corrupted-state tick shuts down (see
/// [`spec_blip_targets`]).
pub fn blip_targets(count: usize, attacker: u32, seed: u64) -> (v: Vec<usize>)
    requires
        count >= 2,
        (seed as usize) + 5 <= usize::MAX,
    ensures
        v@ == spec_blip_targets(count as int, attacker, seed),
{
    let mut v: Vec<usize> = Vec::new();
    if seed % 3 != 0 {
        return v;
    }
    let f: usize = count / 5;
    let to_blip: usize = if f < 2 {
        2
    } else if f > 5 {
        5
    } else {
        f
    };
    let m: usize = if to_blip < count { to_blip } else { count };
    let ghost all = blip_candidates(count as int, seed, m as int);
    let ghost keep = not_attacker(attacker);
    let mut i: usize = 0;
    while i < m
        invariant
            m <= count,
            m <= 5,
            count >= 2,
            (seed as usize) + 5 <= usize::MAX,
            i <= m,
            all == blip_candidates(count as int, seed, m as int),
            keep == not_attacker(attacker),
            v@ == all.take(i as int).filter(keep),
        decreases m - i,
    {
        let idx: usize = (i + seed as usize) % count;
        proof {
            reveal(Seq::filter);
            assert(all.take(i + 1).drop_last() =~= all.take(i as int));
            assert(all.take(i + 1).last() == all[i as int]);
            assert(all[i as int] == idx);
        }
        if idx as u64 != attacker as u64 {
            v.push(idx);
        }
        i = i + 1;
    }
    proof {
        assert(all.take(m as int) =~= all);
        assert(m as int == if blip_count(count as int) < count { blip_count(count as int) } else {
            count as int
        });
    }
    v
}

/// The body of a ping claiming a false identity: byte `i` is
/// `(17 i) mod 256`.
pub open spec fn spoofed_id_bytes() -> Seq<u8> {
    Seq::new(32, |i: int| ((17 * i) % 256) as u8)
}

/// A ping frame whose body claims the identity [`spoofed_id_bytes`].
pub fn build_spoofed_ping() -> (f: Vec<u8>)
    ensures
        f@ == spec_frame(7, spoofed_id_bytes(), 0),
{
    let mut body: Vec<u8> = Vec::new();
    let mut i: u8 = 0;
    while i < 32
        invariant
            i <= 32,
            body@ == Seq::new(i as nat, |k: int| ((17 * k) % 256) as u8),
        decreases 32 - i,
    {
        body.push(i.wrapping_mul(17));
        proof {
            assert(i.wrapping_mul(17) == ((17 * i) % 256) as u8) by (bit_vector)
                requires
                    i < 32,
            ;
        }
        i = i + 1;
        assert(body@ =~= Seq::new(i as nat, |k: int| ((17 * k) % 256) as u8));
    }
    build_frame(7, body, 0)
}

/// Law: behind its length prefix, the corrupt-magic frame is refused for
/// its magic, the corrupt-version frame for its version, and the
/// corrupt-CRC frame for its CRC.
pub proof fn lemma_corrupt_headers_refused()
    ensures
        ({
            let s = base_frame().update(4, 0xFFu8).update(5, 0u8).update(6, 0u8).update(7, 0xFFu8);
            let t = s.subrange(4, s.len() as int);
            !header_accepts(t) && spec_read_header(t, Err(HeaderError::BadMagic([0xFFu8, 0u8, 0u8, 0xFFu8])))
        }),
        ({
            let s = base_frame().update(8, 0xFFu8);
            let t = s.subrange(4, s.len() as int);
            !header_accepts(t) && spec_read_header(t, Err(HeaderError::BadVersion(0xFF)))
        }),
        ({
            let s = base_frame().update(16, base_frame()[16] ^ 1u8);
            let t = s.subrange(4, s.len() as int);
            !header_accepts(t) && spec_read_header(t, Err(HeaderError::BadCrc))
        }),
{
    let f = base_frame();
    let body = Seq::new(8, |i: int| 0u8);
    let hb = spec_new_header_bytes(7, 8, 0);
    let prefix = magic_seq() + seq![VERSION, 7u8] + le16(0) + le32(8);
    assert(f == le32(28) + hb + body);
    assert(hb == prefix + le32(spec_crc32(prefix)));
    assert(f.len() == 28);
    assert(f.subrange(4, 20) =~= hb);
    // corrupt magic
    let s1 = f.update(4, 0xFFu8).update(5, 0u8).update(6, 0u8).update(7, 0xFFu8);
    let t1 = s1.subrange(4, s1.len() as int);
    assert(t1.subrange(0, 4) =~= seq![0xFFu8, 0u8, 0u8, 0xFFu8]);
    assert(magic_seq()[0] == 0x4Eu8);
    assert(t1.subrange(0, 4) != magic_seq());
    let m: [u8; 4] = [0xFFu8, 0u8, 0u8, 0xFFu8];
    assert(m@ =~= t1.subrange(0, 4));
    // corrupt version
    let s2 = f.update(8, 0xFFu8);
    let t2 = s2.subrange(4, s2.len() as int);
    assert(t2.subrange(0, 4) =~= magic_seq());
    assert(t2[4] == 0xFFu8);
    // corrupt crc
    let s3 = f.update(16, f[16] ^ 1u8);
    let t3 = s3.subrange(4, s3.len() as int);
    assert(t3.subrange(0, 4) =~= magic_seq());
    assert(t3[4] == VERSION);
    assert(t3.subrange(0, 12) =~= prefix);
    let c = spec_crc32(prefix);
    lemma_le32_roundtrip(c);
    let b0 = le32(c)[0];
    let b1 = le32(c)[1];
    let b2 = le32(c)[2];
    let b3 = le32(c)[3];
    assert(t3[12] == b0 ^ 1u8 && t3[13] == b1 && t3[14] == b2 && t3[15] == b3);
    assert(u32_le(b0 ^ 1u8, b1, b2, b3) != u32_le(b0, b1, b2, b3)) by (bit_vector);
    assert(get_u32_le(t3, 12) != spec_crc32(t3.subrange(0, 12)));
}

/// Law: behind its length prefix, the truncated-body frame's header is
/// accepted but the body it declares is not all there, and the
/// oversized-body frame is refused for its declared length.
pub proof fn lemma_bad_lengths_refused()
    ensures
        ({
            let s = le32(70) + spec_new_header_bytes(7, 1000, 0) + Seq::new(50, |i: int| i as u8);
            let t = s.subrange(4, s.len() as int);
            header_accepts(t) && !frame_body_fits(t)
        }),
        ({
            let s = le32(28) + spec_new_header_bytes(7, 1_000_000_001, 0) + Seq::new(
                8,
                |i: int| 0u8,
            );
            let t = s.subrange(4, s.len() as int);
            !header_accepts(t) && spec_read_header(t, Err(HeaderError::BodyTooLarge(1_000_000_001)))
        }),
{
    let p1 = magic_seq() + seq![VERSION, 7u8] + le16(0) + le32(1000);
    let h1 = spec_new_header_bytes(7, 1000, 0);
    let s1 = le32(70) + h1 + Seq::new(50, |i: int| i as u8);
    let t1 = s1.subrange(4, s1.len() as int);
    assert(t1.subrange(0, 16) =~= h1);
    assert(t1.subrange(0, 12) =~= p1);
    assert(t1.subrange(0, 4) =~= magic_seq());
    lemma_le32_roundtrip(1000);
    lemma_le32_roundtrip(spec_crc32(p1));
    assert(get_u32_le(t1, 8) == 1000);
    assert(t1.len() == 66);
    let p2 = magic_seq() + seq![VERSION, 7u8] + le16(0) + le32(1_000_000_001);
    let h2 = spec_new_header_bytes(7, 1_000_000_001, 0);
    let s2 = le32(28) + h2 + Seq::new(8, |i: int| 0u8);
    let t2 = s2.subrange(4, s2.len() as int);
    assert(t2.subrange(0, 12) =~= p2);
    assert(t2.subrange(0, 4) =~= magic_seq());
    lemma_le32_roundtrip(1_000_000_001);
    lemma_le32_roundtrip(spec_crc32(p2));
    assert(get_u32_le(t2, 8) == 1_000_000_001);
}

} // verus!

