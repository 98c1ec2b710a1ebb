//! DHT identifiers: 256-bit node IDs, XOR distance and k-bucket placement,
//! node types, the wire form of node records, and the ordering of nodes
//! by distance to a target.

use vstd::prelude::*;
use vstd::std_specs::bits::u8_leading_zeros;

use crate::text::{short_hex, spec_short_hex};
use crate::wire::{be16, push_bytes};

pub mod dht_fields;
pub mod dht_msg_type;
pub mod messages;
pub mod routing;

pub use routing::NodeEntry;

verus! {

/// A 256-bit DHT node identifier.
#[derive(Debug, Clone, Copy, PartialEq, Eq, Hash)]
pub struct NodeId(pub [u8; 32]);

/// Position of the highest set bit of a nonzero byte (0 = least significant).
pub open spec fn msb(b: u8) -> int {
    7 - u8_leading_zeros(b)
}

/// Bucket of the XOR distance `d` scanning from byte `i`: the first nonzero
/// byte at index `j` with highest set bit `m` gives `(31 - j) * 8 + m`.
pub open spec fn spec_bucket_from(d: Seq<u8>, i: int) -> Option<u8>
    decreases 32 - i,
{
    if i >= 32 || i < 0 {
        None
    } else if d[i] != 0 {
        Some(((31 - i) * 8 + msb(d[i])) as u8)
    } else {
        spec_bucket_from(d, i + 1)
    }
}

/// Byte-wise XOR of two 32-byte identifiers.
pub open spec fn spec_xor(a: Seq<u8>, b: Seq<u8>) -> Seq<u8> {
    Seq::new(32, |i: int| a[i] ^ b[i])
}

impl NodeId {
    /// Wrap 32 bytes as a node identifier.
    pub fn new(bytes: [u8; 32]) -> (id: Self)
        ensures
            id.0 == bytes,
    {
        NodeId(bytes)
    }

    /// XOR distance: the byte-wise XOR of the two identifiers.
    pub fn xor_distance(&self, other: &NodeId) -> (d: [u8; 32])
        ensures
            d@ == spec_xor(self.0@, other.0@),
    {
        let mut d = [0u8; 32];
        let mut i: usize = 0;
        while i < 32
            invariant
                i <= 32,
                d@.len() == 32,
                forall|j: int| 0 <= j < i ==> d@[j] == self.0@[j] ^ other.0@[j],
            decreases 32 - i,
        {
            d[i] = self.0[i] ^ other.0[i];
            i = i + 1;
        }
        assert(d@ =~= spec_xor(self.0@, other.0@));
        d
    }

    /// Bucket index of `other` relative to `self`: the position of the
    /// highest bit in which the identifiers differ (255 when they differ in
    /// the top bit, the furthest; 0 when only in the lowest bit, the
    /// nearest); `None` if the identifiers are equal.
    pub fn bucket_index(&self, other: &NodeId) -> (r: Option<u8>)
        ensures
            r == spec_bucket_from(spec_xor(self.0@, other.0@), 0),
    {
        let dist = self.xor_distance(other);
        let mut i: usize = 0;
        while i < 32
            invariant
                i <= 32,
                dist@ == spec_xor(self.0@, other.0@),
                spec_bucket_from(dist@, 0) == spec_bucket_from(dist@, i as int),
            decreases 32 - i,
        {
            let byte: u8 = dist[i];
            if byte != 0 {
                let lz: u32 = byte.leading_zeros();
                proof {
                    vstd::std_specs::bits::axiom_u8_leading_zeros(byte);
                }
                let msb_within: u8 = 7 - lz as u8;
                return Some((31 - i as u8) * 8 + msb_within);
            }
            i = i + 1;
        }
        None
    }

    /// Abbreviated hex: first four bytes, an ellipsis, last four bytes.
    pub fn hex(&self) -> (s: String)
        ensures
            s@ == spec_short_hex(self.0@),
    {
        short_hex(&self.0)
    }
}

/// Law: a node's bucket for another is `None` exactly when the two
/// identifiers are equal, and otherwise lies in 0..=255 and is the same
/// from either side.
pub proof fn lemma_bucket_symmetric(a: NodeId, b: NodeId)
    ensures
        spec_bucket_from(spec_xor(a.0@, b.0@), 0) == spec_bucket_from(spec_xor(b.0@, a.0@), 0),
        spec_bucket_from(spec_xor(a.0@, b.0@), 0) is None <==> a.0@ == b.0@,
{
    assert forall|i: int| 0 <= i < 32 implies #[trigger] spec_xor(a.0@, b.0@)[i] == spec_xor(
        b.0@,
        a.0@,
    )[i] by {
        let x = a.0@[i];
        let y = b.0@[i];
        assert(x ^ y == y ^ x) by (bit_vector);
    }
    assert(spec_xor(a.0@, b.0@) =~= spec_xor(b.0@, a.0@));
    lemma_bucket_none_iff_zero(spec_xor(a.0@, b.0@), 0);
    if a.0@ == b.0@ {
        assert forall|i: int| 0 <= i < 32 implies #[trigger] spec_xor(a.0@, b.0@)[i] == 0 by {
            let x = a.0@[i];
            assert(x ^ x == 0) by (bit_vector);
        }
    } else {
        let k = choose|k: int| 0 <= k < 32 && a.0@[k] != b.0@[k];
        assert(a.0@.len() == 32 && b.0@.len() == 32);
        if forall|k: int| 0 <= k < 32 ==> a.0@[k] == b.0@[k] {
            assert(a.0@ =~= b.0@);
        }
        let k = choose|k: int| 0 <= k < 32 && a.0@[k] != b.0@[k];
        let x = a.0@[k];
        let y = b.0@[k];
        assert(x != y ==> x ^ y != 0) by (bit_vector);
        assert(spec_xor(a.0@, b.0@)[k] != 0);
    }
}

/// The scan finds a bucket exactly when some byte from `i` on is nonzero.
proof fn lemma_bucket_none_iff_zero(d: Seq<u8>, i: int)
    requires
        0 <= i <= 32,
        d.len() == 32,
    ensures
        spec_bucket_from(d, i) is None <==> (forall|j: int| i <= j < 32 ==> d[j] == 0),
    decreases 32 - i,
{
    if i < 32 {
        lemma_bucket_none_iff_zero(d, i + 1);
    }
}

/// The kind of service a node provides.
#[derive(Debug, Clone, Copy, PartialEq, Eq, Structural)]
pub enum NodeType {
    /// General purpose (0)
    General,
    /// Language (1)
    Language,
    /// Reasoning (2)
    Reasoning,
    /// Memory (3)
    Memory,
    /// Vision (4)
    Vision,
    /// Audio (5)
    Audio,
    /// Consensus (6)
    Consensus,
    /// Gateway (7)
    Gateway,
}

impl NodeType {
    /// The wire code of each node type.
    pub open spec fn spec_code(self) -> u8 {
        match self {
            NodeType::General => 0,
            NodeType::Language => 1,
            NodeType::Reasoning => 2,
            NodeType::Memory => 3,
            NodeType::Vision => 4,
            NodeType::Audio => 5,
            NodeType::Consensus => 6,
            NodeType::Gateway => 7,
        }
    }

    /// The wire code of this node type.
    pub fn code(&self) -> (c: u8)
        ensures
            c == self.spec_code(),
    {
        match self {
            NodeType::General => 0,
            NodeType::Language => 1,
            NodeType::Reasoning => 2,
            NodeType::Memory => 3,
            NodeType::Vision => 4,
            NodeType::Audio => 5,
            NodeType::Consensus => 6,
            NodeType::Gateway => 7,
        }
    }

    /// Decode a wire code: 0..=7 name a type, every other code is `None`.
    pub fn from_u8(v: u8) -> (r: Option<Self>)
        ensures
            v <= 7 <==> r is Some,
            r matches Some(t) ==> t.spec_code() == v,
    {
        match v {
            0 => Some(NodeType::General),
            1 => Some(NodeType::Language),
            2 => Some(NodeType::Reasoning),
            3 => Some(NodeType::Memory),
            4 => Some(NodeType::Vision),
            5 => Some(NodeType::Audio),
            6 => Some(NodeType::Consensus),
            7 => Some(NodeType::Gateway),
            _ => None,
        }
    }
}

/// Law: decoding the code of a node type gives it back.
pub proof fn lemma_node_type_roundtrip(t: NodeType)
    ensures
        t.spec_code() <= 7,
        forall|u: NodeType| u.spec_code() == t.spec_code() ==> u == t,
{
}

/// A node's socket address as plain values: IPv4 or IPv6 octets and port.
#[derive(Debug, Clone, Copy, PartialEq, Eq)]
pub enum NodeAddr {
    /// IPv4 address and port.
    V4([u8; 4], u16),
    /// IPv6 address and port.
    V6([u8; 16], u16),
}

/// An address as plain values: whether it is IPv6, its octets, its port.
pub type AddrView = (bool, Seq<u8>, u16);

/// The plain values of an address.
pub open spec fn addr_view(a: NodeAddr) -> AddrView {
    match a {
        NodeAddr::V4(ip, port) => (false, ip@, port),
        NodeAddr::V6(ip, port) => (true, ip@, port),
    }
}

/// The wire form of an address: family byte (4 or 6), octets, big-endian
/// port.
pub open spec fn addr_bytes(a: NodeAddr) -> Seq<u8> {
    match a {
        NodeAddr::V4(ip, port) => seq![4u8] + ip@ + be16(port),
        NodeAddr::V6(ip, port) => seq![6u8] + ip@ + be16(port),
    }
}

/// The big-endian `u16` at `off`.
pub open spec fn get_u16_be(s: Seq<u8>, off: int) -> u16 {
    (((s[off] as u16) << 8u16) | (s[off + 1] as u16)) as u16
}

/// Append the wire form of an address.
pub fn encode_addr(addr: &NodeAddr, buf: &mut Vec<u8>)
    ensures
        final(buf)@ == old(buf)@ + addr_bytes(*addr),
{
    match addr {
        NodeAddr::V4(ip, port) => {
            buf.push(4u8);
            push_bytes(buf, ip.as_slice());
            buf.push((*port >> 8u16) as u8);
            buf.push(*port as u8);
        },
        NodeAddr::V6(ip, port) => {
            buf.push(6u8);
            push_bytes(buf, ip.as_slice());
            buf.push((*port >> 8u16) as u8);
            buf.push(*port as u8);
        },
    }
    assert(final(buf)@ =~= old(buf)@ + addr_bytes(*addr));
}

/// The length of an address's wire form: 7 for IPv4, 19 for IPv6.
pub fn serialized_addr_size(addr: &NodeAddr) -> (n: usize)
    ensures
        n == addr_bytes(*addr).len(),
{
    match addr {
        NodeAddr::V4(..) => 1 + 4 + 2,
        NodeAddr::V6(..) => 1 + 16 + 2,
    }
}

/// Reading an address at `off`: the address (if its family is known and
/// its bytes are present) and the offset reached, which moves past the
/// family byte even when reading fails after it.
pub open spec fn spec_decode_addr(data: Seq<u8>, off: int) -> (Option<AddrView>, int) {
    if off >= data.len() {
        (None, off)
    } else {
        let af = data[off];
        let o = off + 1;
        if af == 4 {
            if o + 6 > data.len() {
                (None, o)
            } else {
                (Some((false, data.subrange(o, o + 4), get_u16_be(data, o + 4))), o + 6)
            }
        } else if af == 6 {
            if o + 18 > data.len() {
                (None, o)
            } else {
                (Some((true, data.subrange(o, o + 16), get_u16_be(data, o + 16))), o + 18)
            }
        } else {
            (None, o)
        }
    }
}

/// Read an address at `*offset`, advancing the offset (see
/// [`spec_decode_addr`]).
pub fn decode_addr(data: &[u8], offset: &mut usize) -> (r: Option<NodeAddr>)
    requires
        *old(offset) <= data@.len(),
    ensures
        r matches Some(a) ==> spec_decode_addr(data@, *old(offset) as int).0 == Some(addr_view(a)),
        r is None ==> spec_decode_addr(data@, *old(offset) as int).0 is None,
        *final(offset) == spec_decode_addr(data@, *old(offset) as int).1,
{
    let len: usize = data.len();
    if *offset >= len {
        return None;
    }
    let af: u8 = data[*offset];
    *offset = *offset + 1;
    let o: usize = *offset;
    if af == 4 {
        if len - o < 6 {
            return None;
        }
        let ip: [u8; 4] = [data[o], data[o + 1], data[o + 2], data[o + 3]];
        let port: u16 = ((data[o + 4] as u16) << 8u16) | (data[o + 5] as u16);
        *offset = o + 6;
        assert(ip@ =~= data@.subrange(o as int, o + 4));
        Some(NodeAddr::V4(ip, port))
    } else if af == 6 {
        if len - o < 18 {
            return None;
        }
        let mut ip: [u8; 16] = [0u8; 16];
        let mut i: usize = 0;
        while i < 16
            invariant
                len == data@.len(),
                o + 18 <= len,
                i <= 16,
                ip@.len() == 16,
                forall|j: int| 0 <= j < i ==> ip@[j] == data@[o + j],
            decreases 16 - i,
        {
            ip[i] = data[o + i];
            i = i + 1;
        }
        let port: u16 = ((data[o + 16] as u16) << 8u16) | (data[o + 17] as u16);
        *offset = o + 18;
        assert(ip@ =~= data@.subrange(o as int, o + 16));
        Some(NodeAddr::V6(ip, port))
    } else {
        None
    }
}

/// The wire form of a node record: id, address, type code, latency in
/// whole milliseconds (little-endian).
pub open spec fn node_bytes(id: Seq<u8>, addr: NodeAddr, node_type: NodeType, latency_ms: u32) -> Seq<
    u8,
> {
    id + addr_bytes(addr) + seq![node_type.spec_code()] + crate::wire::le32(latency_ms)
}

/// Append a node record (for NODES responses).
pub fn serialize_node(
    id: &NodeId,
    addr: &NodeAddr,
    node_type: NodeType,
    latency_ms: u32,
    buf: &mut Vec<u8>,
)
    ensures
        final(buf)@ == old(buf)@ + node_bytes(id.0@, *addr, node_type, latency_ms),
{
    push_bytes(buf, id.0.as_slice());
    encode_addr(addr, buf);
    buf.push(node_type.code());
    crate::wire::push_u32_le(buf, latency_ms);
    assert(final(buf)@ =~= old(buf)@ + node_bytes(id.0@, *addr, node_type, latency_ms));
}

/// The length of a node record.
pub fn serialized_node_size(addr: &NodeAddr) -> (n: usize)
    ensures
        n == 32 + addr_bytes(*addr).len() + 5,
{
    32 + serialized_addr_size(addr) + 1 + 4
}

/// The node type of a wire code, General for unknown codes.
pub open spec fn type_of_code(b: u8) -> NodeType {
    if b == 0 {
        NodeType::General
    } else if b == 1 {
        NodeType::Language
    } else if b == 2 {
        NodeType::Reasoning
    } else if b == 3 {
        NodeType::Memory
    } else if b == 4 {
        NodeType::Vision
    } else if b == 5 {
        NodeType::Audio
    } else if b == 6 {
        NodeType::Consensus
    } else if b == 7 {
        NodeType::Gateway
    } else {
        NodeType::General
    }
}

/// Reading a node record at `off`: id, address and type (the latency field
/// is read past but not kept), and the offset reached.
pub open spec fn spec_deserialize_node(data: Seq<u8>, off: int) -> (
    Option<(Seq<u8>, AddrView, NodeType)>,
    int,
) {
    if off + 32 > data.len() {
        (None, off)
    } else {
        let (a, o2) = spec_decode_addr(data, off + 32);
        match a {
            None => (None, o2),
            Some(av) => if o2 + 1 > data.len() {
                (None, o2)
            } else if o2 + 5 > data.len() {
                (None, o2 + 1)
            } else {
                (Some((data.subrange(off, off + 32), av, type_of_code(data[o2]))), o2 + 5)
            },
        }
    }
}

/// Read a node record at `*offset`, advancing the offset (see
/// [`spec_deserialize_node`]).
pub fn deserialize_node(data: &[u8], offset: &mut usize) -> (r: Option<(NodeId, NodeAddr, NodeType)>)
    requires
        *old(offset) <= data@.len(),
    ensures
        r matches Some((id, a, t)) ==> spec_deserialize_node(data@, *old(offset) as int).0 == Some(
            (id.0@, addr_view(a), t),
        ),
        r is None ==> spec_deserialize_node(data@, *old(offset) as int).0 is None,
        *final(offset) == spec_deserialize_node(data@, *old(offset) as int).1,
{
    let len: usize = data.len();
    if len - *offset < 32 {
        return None;
    }
    let o: usize = *offset;
    let mut id: [u8; 32] = [0u8; 32];
    let mut i: usize = 0;
    while i < 32
        invariant
            len == data@.len(),
            o + 32 <= len,
            i <= 32,
            id@.len() == 32,
            forall|j: int| 0 <= j < i ==> id@[j] == data@[o + j],
        decreases 32 - i,
    {
        id[i] = data[o + i];
        i = i + 1;
    }
    assert(id@ =~= data@.subrange(o as int, o + 32));
    *offset = o + 32;
    let addr = match decode_addr(data, offset) {
        Some(a) => a,
        None => {
            return None;
        },
    };
    if *offset >= len {
        return None;
    }
    let code: u8 = data[*offset];
    let nt: NodeType = match NodeType::from_u8(code) {
        Some(t) => t,
        None => NodeType::General,
    };
    assert(nt == type_of_code(code));
    *offset = *offset + 1;
    if len - *offset < 4 {
        return None;
    }
    *offset = *offset + 4;
    Some((NodeId(id), addr, nt))
}

/// Law: a node record reads back, from where it was written, as the id,
/// address and type it was written with, and reading ends right after it.
pub proof fn lemma_node_roundtrip(
    prefix: Seq<u8>,
    id: Seq<u8>,
    addr: NodeAddr,
    node_type: NodeType,
    latency_ms: u32,
    rest: Seq<u8>,
)
    requires
        id.len() == 32,
    ensures
        ({
            let data = prefix + node_bytes(id, addr, node_type, latency_ms) + rest;
            spec_deserialize_node(data, prefix.len() as int) == (
                Some((id, addr_view(addr), node_type)),
                (prefix.len() + node_bytes(id, addr, node_type, latency_ms).len()) as int,
            )
        }),
{
    let nb = node_bytes(id, addr, node_type, latency_ms);
    let data = prefix + nb + rest;
    let p = prefix.len() as int;
    let ab = addr_bytes(addr);
    assert(nb == id + ab + seq![node_type.spec_code()] + crate::wire::le32(latency_ms));
    assert(data.subrange(p, p + 32) =~= id);
    match addr {
        NodeAddr::V4(ip, port) => {
            let o = p + 33;
            assert(data[p + 32] == 4u8);
            assert(data.subrange(o, o + 4) =~= ip@);
            let b0: u8 = (port >> 8u16) as u8;
            let b1: u8 = port as u8;
            assert(data[o + 4] == b0 && data[o + 5] == b1);
            assert((((b0 as u16) << 8u16) | (b1 as u16)) == port) by (bit_vector)
                requires
                    b0 == (port >> 8u16) as u8,
                    b1 == port as u8,
            ;
            assert(data[o + 6] == node_type.spec_code());
        },
        NodeAddr::V6(ip, port) => {
            let o = p + 33;
            assert(data[p + 32] == 6u8);
            assert(data.subrange(o, o + 16) =~= ip@);
            let b0: u8 = (port >> 8u16) as u8;
            let b1: u8 = port as u8;
            assert(data[o + 16] == b0 && data[o + 17] == b1);
            assert((((b0 as u16) << 8u16) | (b1 as u16)) == port) by (bit_vector)
                requires
                    b0 == (port >> 8u16) as u8,
                    b1 == port as u8,
            ;
            assert(data[o + 18] == node_type.spec_code());
        },
    }
    assert(type_of_code(node_type.spec_code()) == node_type);
}

} // verus!

