//! DHT messages: reading an incoming frame (header and body) into a
//! message, building the outgoing frames, and keeping track of the pings
//! that await their pong.

use std::collections::HashMap;
use vstd::prelude::*;

use crate::dht::dht_fields::{FIND_BODY_SIZE, NODE_TYPE, PING_BODY_SIZE, PING_SEQ, PONG_BODY_SIZE,
    SENDER_ID, TARGET_ID};
use crate::dht::dht_msg_type::{FIND_NODE, NODES, PING, PONG};
use crate::dht::{
    addr_bytes, addr_view, deserialize_node, encode_addr, node_bytes, serialize_node,
    spec_deserialize_node, type_of_code, AddrView, NodeAddr, NodeId, NodeType,
};
use crate::flat::read_u32;
use crate::header::{build_frame, spec_frame};
use crate::wire::{get_u32_le, le32, push_bytes, push_u32_le};
use crate::HEADER_SIZE;

verus! {

broadcast use vstd::std_specs::hash::group_hash_axioms;

/// A node record as plain values: identifier bytes, address, type.
pub type NodeRecordView = (Seq<u8>, AddrView, NodeType);

/// The plain values of a decoded node record.
pub open spec fn record_view(r: (NodeId, NodeAddr, NodeType)) -> NodeRecordView {
    (r.0.0@, addr_view(r.1), r.2)
}

/// The node records read one after another from `off`, up to the end of
/// the data or the first record that does not read.
pub open spec fn spec_node_run(data: Seq<u8>, off: int) -> Seq<NodeRecordView>
    decreases data.len() - off,
{
    if off < 0 || off >= data.len() {
        Seq::empty()
    } else {
        let (r, next) = spec_deserialize_node(data, off);
        match r {
            None => Seq::empty(),
            Some(x) => if next <= off || next > data.len() {
                Seq::empty()
            } else {
                seq![x] + spec_node_run(data, next)
            },
        }
    }
}

/// Read the node records from `start` on (see [`spec_node_run`]).
pub fn parse_node_run(data: &[u8], start: usize) -> (v: Vec<(NodeId, NodeAddr, NodeType)>)
    requires
        start <= data@.len(),
    ensures
        v@.map_values(|r: (NodeId, NodeAddr, NodeType)| record_view(r)) == spec_node_run(
            data@,
            start as int,
        ),
{
    let mut v: Vec<(NodeId, NodeAddr, NodeType)> = Vec::new();
    let mut offset: usize = start;
    while offset < data.len()
        invariant
            offset <= data@.len(),
            v@.map_values(|r: (NodeId, NodeAddr, NodeType)| record_view(r)) + spec_node_run(
                data@,
                offset as int,
            ) == spec_node_run(data@, start as int),
        decreases data@.len() - offset,
    {
        let before: usize = offset;
        match deserialize_node(data, &mut offset) {
            Some(rec) => {
                proof {
                    assert(offset > before && offset <= data@.len());
                    let old_v = v@.map_values(|r: (NodeId, NodeAddr, NodeType)| record_view(r));
                    assert(spec_node_run(data@, before as int) == seq![record_view(rec)]
                        + spec_node_run(data@, offset as int));
                    assert(v@.push(rec).map_values(|r: (NodeId, NodeAddr, NodeType)| record_view(r))
                        =~= old_v.push(record_view(rec)));
                    assert(old_v + (seq![record_view(rec)] + spec_node_run(data@, offset as int))
                        =~= old_v.push(record_view(rec)) + spec_node_run(data@, offset as int));
                }
                v.push(rec);
            },
            None => {
                proof {
                    assert(spec_node_run(data@, before as int) =~= Seq::<NodeRecordView>::empty());
                    assert(v@.map_values(|r: (NodeId, NodeAddr, NodeType)| record_view(r))
                        + Seq::<NodeRecordView>::empty() =~= v@.map_values(
                        |r: (NodeId, NodeAddr, NodeType)| record_view(r),
                    ));
                }
                return v;
            },
        }
    }
    proof {
        assert(v@.map_values(|r: (NodeId, NodeAddr, NodeType)| record_view(r))
            + Seq::<NodeRecordView>::empty() =~= v@.map_values(
            |r: (NodeId, NodeAddr, NodeType)| record_view(r),
        ));
    }
    v
}

/// An incoming DHT message, read from its frame.
#[derive(Debug, Clone)]
pub enum DhtMessage {
    /// Too short, of another type, or too short for its type.
    Ignored,
    /// A ping from `sender`, of type `node_type`, numbered `seq`.
    Ping { sender: NodeId, node_type: NodeType, seq: u32 },
    /// A pong from `sender` for ping `seq`.
    Pong { sender: NodeId, seq: u32 },
    /// A request for the nodes nearest to `target`.
    FindNode { target: NodeId },
    /// Node records offered by the sender.
    Nodes { nodes: Vec<(NodeId, NodeAddr, NodeType)> },
}

/// Whether a frame can be read without running past its end: pings and
/// pongs of 52 bytes or more need the 68 bytes up to the sequence number,
/// find-node requests of 32 bytes or more need the 48 bytes up to the end
/// of the target.
pub open spec fn dht_readable(p: Seq<u8>) -> bool {
    p.len() >= HEADER_SIZE + 1 ==> {
        let t = p[5];
        &&& (t == PING || t == PONG) && p.len() >= PING_BODY_SIZE ==> p.len() >= PING_SEQ + 4
        &&& t == FIND_NODE && p.len() >= FIND_BODY_SIZE ==> p.len() >= TARGET_ID + 32
    }
}

/// Whether [`parse_dht_message`] can read `payload` (see [`dht_readable`]).
pub fn is_dht_readable(payload: &[u8]) -> (ok: bool)
    ensures
        ok == dht_readable(payload@),
{
    let len: usize = payload.len();
    if len < HEADER_SIZE + 1 {
        return true;
    }
    let t: u8 = payload[5];
    if (t == PING || t == PONG) && len >= PING_BODY_SIZE && len < PING_SEQ + 4 {
        return false;
    }
    if t == FIND_NODE && len >= FIND_BODY_SIZE && len < TARGET_ID + 32 {
        return false;
    }
    true
}

/// The identifier stored at `off`.
fn read_id(data: &[u8], off: usize) -> (id: NodeId)
    requires
        off + 32 <= data@.len(),
    ensures
        id.0@ == data@.subrange(off as int, off + 32),
{
    let len: usize = data.len();
    let mut b: [u8; 32] = [0u8; 32];
    let mut i: usize = 0;
    while i < 32
        invariant
            len == data@.len(),
            off + 32 <= data@.len(),
            i <= 32,
            b@.len() == 32,
            forall|j: int| 0 <= j < i ==> b@[j] == data@[off + j],
        decreases 32 - i,
    {
        b[i] = data[off + i];
        i = i + 1;
    }
    assert(b@ =~= data@.subrange(off as int, off + 32));
    NodeId(b)
}

/// Read an incoming frame (header and body): the type byte of the header
/// picks the message; pings, pongs and find-node requests shorter than
/// their minimum are ignored, as are frames of other types.
pub fn parse_dht_message(payload: &[u8]) -> (m: DhtMessage)
    requires
        dht_readable(payload@),
    ensures
        payload@.len() < HEADER_SIZE + 1 ==> m is Ignored,
        payload@.len() >= HEADER_SIZE + 1 ==> match m {
            DhtMessage::Ignored => {
                let t = payload@[5];
                &&& !(t == PING && payload@.len() >= PING_BODY_SIZE)
                &&& !(t == PONG && payload@.len() >= PONG_BODY_SIZE)
                &&& !(t == FIND_NODE && payload@.len() >= FIND_BODY_SIZE)
                &&& t != NODES
            },
            DhtMessage::Ping { sender, node_type, seq } => {
                &&& payload@[5] == PING
                &&& payload@.len() >= PING_SEQ + 4
                &&& sender.0@ == payload@.subrange(SENDER_ID as int, SENDER_ID + 32)
                &&& node_type == type_of_code(payload@[NODE_TYPE as int])
                &&& seq == get_u32_le(payload@, PING_SEQ as int)
            },
            DhtMessage::Pong { sender, seq } => {
                &&& payload@[5] == PONG
                &&& payload@.len() >= PING_SEQ + 4
                &&& sender.0@ == payload@.subrange(SENDER_ID as int, SENDER_ID + 32)
                &&& seq == get_u32_le(payload@, PING_SEQ as int)
            },
            DhtMessage::FindNode { target } => {
                &&& payload@[5] == FIND_NODE
                &&& payload@.len() >= TARGET_ID + 32
                &&& target.0@ == payload@.subrange(TARGET_ID as int, TARGET_ID + 32)
            },
            DhtMessage::Nodes { nodes } => {
                &&& payload@[5] == NODES
                &&& nodes@.map_values(|r: (NodeId, NodeAddr, NodeType)| record_view(r))
                    == spec_node_run(payload@, HEADER_SIZE as int)
            },
        },
{
    if payload.len() < HEADER_SIZE + 1 {
        return DhtMessage::Ignored;
    }
    let t: u8 = payload[5];
    if t == PING {
        if payload.len() < PING_BODY_SIZE {
            return DhtMessage::Ignored;
        }
        let sender = read_id(payload, SENDER_ID);
        let code: u8 = payload[NODE_TYPE];
        let node_type = match NodeType::from_u8(code) {
            Some(nt) => nt,
            None => NodeType::General,
        };
        let seq: u32 = read_u32(payload, PING_SEQ);
        DhtMessage::Ping { sender, node_type, seq }
    } else if t == PONG {
        if payload.len() < PONG_BODY_SIZE {
            return DhtMessage::Ignored;
        }
        let sender = read_id(payload, SENDER_ID);
        let seq: u32 = read_u32(payload, PING_SEQ);
        DhtMessage::Pong { sender, seq }
    } else if t == FIND_NODE {
        if payload.len() < FIND_BODY_SIZE {
            return DhtMessage::Ignored;
        }
        let target = read_id(payload, TARGET_ID);
        DhtMessage::FindNode { target }
    } else if t == NODES {
        let nodes = parse_node_run(payload, HEADER_SIZE);
        DhtMessage::Nodes { nodes }
    } else {
        DhtMessage::Ignored
    }
}

/// The body of a ping or pong: the sender's identifier, address and type,
/// a zero latency field, and the sequence number.
pub open spec fn spec_hello_body(id: NodeId, addr: NodeAddr, node_type: NodeType, seq: u32) -> Seq<
    u8,
> {
    id.0@ + addr_bytes(addr) + seq![node_type.spec_code()] + le32(0) + le32(seq)
}

/// Build the body of a ping or pong.
fn hello_body(id: &NodeId, addr: &NodeAddr, node_type: NodeType, seq: u32) -> (body: Vec<u8>)
    ensures
        body@ == spec_hello_body(*id, *addr, node_type, seq),
        body@.len() <= 60,
{
    let mut body: Vec<u8> = Vec::new();
    push_bytes(&mut body, id.0.as_slice());
    encode_addr(addr, &mut body);
    body.push(node_type.code());
    push_u32_le(&mut body, 0);
    push_u32_le(&mut body, seq);
    proof {
        assert(body@ =~= spec_hello_body(*id, *addr, node_type, seq));
    }
    body
}

/// The ping frame a node sends: its own record and sequence number `seq`.
pub fn ping_frame(local_id: &NodeId, local_addr: &NodeAddr, local_type: NodeType, seq: u32) -> (frame:
    Vec<u8>)
    ensures
        frame@ == spec_frame(PING, spec_hello_body(*local_id, *local_addr, local_type, seq), 0),
{
    let body = hello_body(local_id, local_addr, local_type, seq);
    build_frame(PING, body, 0)
}

/// The pong frame answering ping `seq`.
pub fn pong_frame(local_id: &NodeId, local_addr: &NodeAddr, local_type: NodeType, seq: u32) -> (frame:
    Vec<u8>)
    ensures
        frame@ == spec_frame(PONG, spec_hello_body(*local_id, *local_addr, local_type, seq), 0),
{
    let body = hello_body(local_id, local_addr, local_type, seq);
    build_frame(PONG, body, 0)
}

/// The find-node frame for `target`.
pub fn find_node_frame(target: &NodeId) -> (frame: Vec<u8>)
    ensures
        frame@ == spec_frame(FIND_NODE, target.0@, 0),
{
    let mut body: Vec<u8> = Vec::new();
    push_bytes(&mut body, target.0.as_slice());
    build_frame(FIND_NODE, body, 0)
}

/// The records of a node list, one after another (latencies in whole
/// milliseconds).
pub open spec fn spec_nodes_body(nodes: Seq<(NodeId, NodeAddr, NodeType, u32)>) -> Seq<u8>
    decreases nodes.len(),
{
    if nodes.len() == 0 {
        Seq::empty()
    } else {
        let n = nodes.last();
        spec_nodes_body(nodes.drop_last()) + node_bytes(n.0.0@, n.1, n.2, n.3)
    }
}

/// The nodes frame answering a find-node request for `target`: the target,
/// then a record per node.
pub fn nodes_frame(target: &NodeId, nodes: &[(NodeId, NodeAddr, NodeType, u32)]) -> (frame: Vec<u8>)
    requires
        nodes@.len() * 56 + 52 <= usize::MAX,
    ensures
        frame@ == spec_frame(NODES, target.0@ + spec_nodes_body(nodes@), 0),
{
    let mut body: Vec<u8> = Vec::new();
    push_bytes(&mut body, target.0.as_slice());
    let mut i: usize = 0;
    while i < nodes.len()
        invariant
            i <= nodes@.len(),
            nodes@.len() * 56 + 52 <= usize::MAX,
            body@ == target.0@ + spec_nodes_body(nodes@.take(i as int)),
            body@.len() <= 32 + i * 56,
        decreases nodes@.len() - i,
    {
        let (id, addr, nt, lat) = nodes[i];
        serialize_node(&id, &addr, nt, lat, &mut body);
        proof {
            assert(nodes@.take(i + 1).drop_last() =~= nodes@.take(i as int));
            assert(nodes@.take(i + 1).last() == nodes@[i as int]);
            assert(addr_bytes(addr).len() <= 19);
        }
        i = i + 1;
    }
    proof {
        assert(nodes@.take(nodes@.len() as int) =~= nodes@);
    }
    build_frame(NODES, body, 0)
}

/// One step of reading a run of records.
proof fn lemma_run_step(data: Seq<u8>, off: int, x: NodeRecordView, next: int)
    requires
        0 <= off < next <= data.len(),
        spec_deserialize_node(data, off) == (Some(x), next),
    ensures
        spec_node_run(data, off) == seq![x] + spec_node_run(data, next),
{
}

/// The first record of a written node list reads back, and reading goes
/// on right after it.
proof fn lemma_run_head(prefix: Seq<u8>, nodes: Seq<(NodeId, NodeAddr, NodeType, u32)>)
    requires
        nodes.len() > 0,
    ensures
        ({
            let first = nodes[0];
            let fb = node_bytes(first.0.0@, first.1, first.2, first.3);
            spec_node_run(prefix + spec_nodes_body(nodes), prefix.len() as int) == seq![
                (first.0.0@, addr_view(first.1), first.2),
            ] + spec_node_run((prefix + fb) + spec_nodes_body(nodes.drop_first()), (prefix
                + fb).len() as int)
        }),
{
    let first = nodes[0];
    let fb = node_bytes(first.0.0@, first.1, first.2, first.3);
    let rb = spec_nodes_body(nodes.drop_first());
    let data = prefix + spec_nodes_body(nodes);
    let p = prefix.len() as int;
    lemma_nodes_body_first(nodes);
    assert(data =~= prefix + fb + rb);
    assert((prefix + fb) + rb =~= prefix + fb + rb);
    assert(first.0.0@.len() == 32);
    crate::dht::lemma_node_roundtrip(prefix, first.0.0@, first.1, first.2, first.3, rb);
    lemma_run_step(data, p, (first.0.0@, addr_view(first.1), first.2), p + fb.len());
}

/// Law: node records written one after another read back, in order, as
/// their identifiers, addresses and types.
pub proof fn lemma_node_run_roundtrip(prefix: Seq<u8>, nodes: Seq<(NodeId, NodeAddr, NodeType, u32)>)
    ensures
        spec_node_run(prefix + spec_nodes_body(nodes), prefix.len() as int) == nodes.map_values(
            |n: (NodeId, NodeAddr, NodeType, u32)| (n.0.0@, addr_view(n.1), n.2),
        ),
    decreases nodes.len(),
{
    let f = |n: (NodeId, NodeAddr, NodeType, u32)| (n.0.0@, addr_view(n.1), n.2);
    if nodes.len() == 0 {
        assert(prefix + spec_nodes_body(nodes) =~= prefix);
        assert(nodes.map_values(f) =~= Seq::<NodeRecordView>::empty());
    } else {
        let first = nodes[0];
        let fb = node_bytes(first.0.0@, first.1, first.2, first.3);
        lemma_run_head(prefix, nodes);
        lemma_node_run_roundtrip(prefix + fb, nodes.drop_first());
        assert(nodes.map_values(f) =~= seq![f(first)] + nodes.drop_first().map_values(f));
    }
}

/// The records of a non-empty node list start with the first node's.
proof fn lemma_nodes_body_first(nodes: Seq<(NodeId, NodeAddr, NodeType, u32)>)
    requires
        nodes.len() > 0,
    ensures
        spec_nodes_body(nodes) == node_bytes(nodes[0].0.0@, nodes[0].1, nodes[0].2, nodes[0].3)
            + spec_nodes_body(nodes.drop_first()),
    decreases nodes.len(),
{
    let f = nodes[0];
    let fb = node_bytes(f.0.0@, f.1, f.2, f.3);
    if nodes.len() == 1 {
        assert(nodes.drop_last() =~= Seq::<(NodeId, NodeAddr, NodeType, u32)>::empty());
        assert(nodes.drop_first() =~= Seq::<(NodeId, NodeAddr, NodeType, u32)>::empty());
        assert(nodes.last() == f);
        assert(spec_nodes_body(nodes.drop_last()) == Seq::<u8>::empty());
        assert(spec_nodes_body(nodes) =~= Seq::<u8>::empty() + fb);
        assert(spec_nodes_body(nodes.drop_first()) =~= Seq::<u8>::empty());
        assert(fb + Seq::<u8>::empty() =~= fb);
    } else {
        lemma_nodes_body_first(nodes.drop_last());
        assert(nodes.drop_last()[0] == f);
        assert(nodes.drop_last().drop_first() =~= nodes.drop_first().drop_last());
        assert(nodes.drop_first().last() == nodes.last());
        let l = nodes.last();
        let lb = node_bytes(l.0.0@, l.1, l.2, l.3);
        assert(spec_nodes_body(nodes) == spec_nodes_body(nodes.drop_last()) + lb);
        assert(spec_nodes_body(nodes.drop_first()) == spec_nodes_body(nodes.drop_first().drop_last())
            + lb);
        assert(spec_nodes_body(nodes) =~= fb + spec_nodes_body(nodes.drop_first()));
    }
}

/// Whether a ping sent at `sent_ms` has waited longer than `timeout_ms`
/// at `now_ms`.
pub open spec fn ping_expired(sent_ms: u64, now_ms: u64, timeout_ms: u64) -> bool {
    now_ms > sent_ms && now_ms - sent_ms > timeout_ms
}

/// The pings of `pending` (sequence number to send time) that have
/// waited longer than `timeout_ms` at `now_ms`.
pub open spec fn expired_pings(pending: Map<u32, u64>, now_ms: u64, timeout_ms: u64) -> Set<u32> {
    pending.dom().filter(|k: u32| ping_expired(pending[k], now_ms, timeout_ms))
}

/// Once a run of keys covering `dom` has been read to its end, the keys
/// kept along the way are those of `dom` that pass `keep`.
proof fn lemma_prefix_cover(s: Seq<u32>, dom: Set<u32>, v: Seq<u32>, keep: spec_fn(u32) -> bool, n: int)
    requires
        s.to_set() == dom,
        forall|x: u32| v.contains(x) <==> exists|i: int| 0 <= i < n && s[i] == x && keep(x),
    ensures
        n == s.len() ==> forall|x: u32| v.contains(x) <==> dom.filter(keep).contains(x),
{
    if n == s.len() {
        assert forall|x: u32| v.contains(x) <==> dom.filter(keep).contains(x) by {
            if dom.filter(keep).contains(x) {
                assert(s.to_set().contains(x));
                let i = choose|i: int| 0 <= i < s.len() && s[i] == x;
                assert(0 <= i < n && s[i] == x && keep(x));
            }
            if v.contains(x) {
                let i = choose|i: int| 0 <= i < n && s[i] == x && keep(x);
                assert(s.contains(x));
            }
        }
    }
}

/// Pings sent and not yet answered: sequence number to send time (ms),
/// and the number the next ping gets.
pub struct PendingPings {
    pending: HashMap<u32, u64>,
    next_seq: u32,
}

impl PendingPings {
    /// Sequence numbers awaiting their pong, with their send times.
    pub closed spec fn spec_pending(&self) -> Map<u32, u64> {
        self.pending@
    }

    /// The number the next ping gets.
    pub closed spec fn spec_next_seq(&self) -> u32 {
        self.next_seq
    }

    /// No ping outstanding; numbering starts at 1.
    pub fn new() -> (p: Self)
        ensures
            p.spec_pending() == Map::<u32, u64>::empty(),
            p.spec_next_seq() == 1,
    {
        PendingPings { pending: HashMap::new(), next_seq: 1 }
    }

    /// Number a ping sent at `now_ms` and record it; numbers wrap around.
    pub fn start(&mut self, now_ms: u64) -> (seq: u32)
        ensures
            seq == old(self).spec_next_seq(),
            final(self).spec_next_seq() == (if old(self).spec_next_seq() == u32::MAX {
                0
            } else {
                old(self).spec_next_seq() + 1
            }),
            final(self).spec_pending() == old(self).spec_pending().insert(seq, now_ms),
    {
        let seq: u32 = self.next_seq;
        self.next_seq = self.next_seq.wrapping_add(1);
        self.pending.insert(seq, now_ms);
        seq
    }

    /// Settle ping `seq` on its pong at `now_ms`: the round trip in
    /// milliseconds (zero if the clock went back), or `None` for a number
    /// that is not outstanding.
    pub fn finish(&mut self, seq: u32, now_ms: u64) -> (rtt: Option<u64>)
        ensures
            final(self).spec_pending() == old(self).spec_pending().remove(seq),
            final(self).spec_next_seq() == old(self).spec_next_seq(),
            match rtt {
                Some(d) => old(self).spec_pending().contains_key(seq) && d == (if now_ms
                    >= old(self).spec_pending()[seq] {
                    now_ms - old(self).spec_pending()[seq]
                } else {
                    0
                }),
                None => !old(self).spec_pending().contains_key(seq),
            },
    {
        match self.pending.remove(&seq) {
            Some(sent) => Some(now_ms.saturating_sub(sent)),
            None => None,
        }
    }

    /// The sequence numbers of the pings that have waited longer than
    /// `timeout_ms` at `now_ms`, each once.
    fn expired_seqs(&self, now_ms: u64, timeout_ms: u64) -> (v: Vec<u32>)
        ensures
            v@.no_duplicates(),
            v@.to_set() == expired_pings(self.spec_pending(), now_ms, timeout_ms),
    {
        let ghost m = self.pending@;
        let ghost exp = |k: u32| ping_expired(m[k], now_ms, timeout_ms);
        let mut v: Vec<u32> = Vec::new();
        for k in it: self.pending.keys()
            invariant
                m == self.pending@,
                forall|x: u32| #[trigger] exp(x) == ping_expired(m[x], now_ms, timeout_ms),
                v@.no_duplicates(),
                it.seq().no_duplicates(),
                it.seq().unref().to_set() == m.dom(),
                forall|x: u32| v@.contains(x) <==> exists|i: int|
                    0 <= i < it.index() && it.seq().unref()[i] == x && exp(x),
                it.index() == it.seq().len() ==> forall|x: u32|
                    v@.contains(x) <==> m.dom().filter(exp).contains(x),
        {
            let ghost i0 = it.index();
            let ghost v0 = v@;
            proof {
                assert(it.seq().unref()[i0] == *k);
                assert(it.seq().unref().to_set().contains(*k));
            }
            let sent: u64 = *self.pending.get(k).unwrap();
            if now_ms > sent && now_ms - sent > timeout_ms {
                proof {
                    assert(!v@.contains(*k)) by {
                        if v@.contains(*k) {
                            let i = choose|i: int| 0 <= i < i0 && it.seq().unref()[i] == *k && exp(*k);
                            assert(it.seq()[i] == it.seq()[i0]);
                        }
                    }
                }
                v.push(*k);
                proof {
                    assert forall|x: u32| x != *k implies (v@.contains(x) <==> v0.contains(x)) by {
                        if v@.contains(x) {
                            let i = choose|i: int| 0 <= i < v@.len() && v@[i] == x;
                            assert(i < v0.len() && v0[i] == x);
                        }
                        if v0.contains(x) {
                            let i = choose|i: int| 0 <= i < v0.len() && v0[i] == x;
                            assert(v@[i] == x);
                        }
                    }
                    assert(v@[v0.len() as int] == *k);
                }
            }
            proof {
                assert(m.contains_key(*k));
                assert(m[*k] == sent);
                assert(exp(*k) == ping_expired(m[*k], now_ms, timeout_ms));
                assert(exp(*k) == (now_ms > sent && now_ms - sent > timeout_ms));
                assert forall|x: u32| v@.contains(x) <==> exists|i: int|
                    0 <= i < i0 + 1 && it.seq().unref()[i] == x && exp(x) by {
                    if x != *k {
                        assert(v@.contains(x) <==> v0.contains(x));
                        if exists|i: int| 0 <= i < i0 + 1 && it.seq().unref()[i] == x && exp(x) {
                            let i = choose|i: int|
                                0 <= i < i0 + 1 && it.seq().unref()[i] == x && exp(x);
                            assert(i != i0);
                            assert(exists|j: int| 0 <= j < i0 && it.seq().unref()[j] == x && exp(x));
                        }
                    } else if exp(x) {
                        assert(v@.contains(x));
                        assert(0 <= i0 < i0 + 1 && it.seq().unref()[i0] == x && exp(x));
                    }
                }
                lemma_prefix_cover(it.seq().unref(), m.dom(), v@, exp, i0 + 1);
            }
        }
        proof {
            assert(v@.to_set() =~= m.dom().filter(exp));
            assert(exp =~= (|k: u32| ping_expired(m[k], now_ms, timeout_ms)));
        }
        v
    }

    /// Drop the pings that have waited longer than `timeout_ms` at `now_ms`
    /// (see [`expired_pings`]); returns how many were dropped.
    pub fn expire(&mut self, now_ms: u64, timeout_ms: u64) -> (n: usize)
        ensures
            final(self).spec_next_seq() == old(self).spec_next_seq(),
            final(self).spec_pending() == old(self).spec_pending().remove_keys(
                expired_pings(old(self).spec_pending(), now_ms, timeout_ms),
            ),
            n == expired_pings(old(self).spec_pending(), now_ms, timeout_ms).len(),
            n <= old(self).spec_pending().len(),
    {
        let ghost m = self.pending@;
        proof {
            assert(m.dom().finite());
            vstd::set_lib::lemma_len_subset(expired_pings(m, now_ms, timeout_ms), m.dom());
        }
        let v = self.expired_seqs(now_ms, timeout_ms);
        let mut i: usize = 0;
        while i < v.len()
            invariant
                i <= v@.len(),
                self.pending@ == m.remove_keys(v@.take(i as int).to_set()),
                self.next_seq == old(self).next_seq,
            decreases v@.len() - i,
        {
            let seq: u32 = v[i];
            self.pending.remove(&seq);
            proof {
                assert(v@.take(i + 1).to_set() =~= v@.take(i as int).to_set().insert(seq)) by {
                    assert(v@.take(i + 1) =~= v@.take(i as int).push(seq));
                    v@.take(i as int).lemma_push_to_set_commute(seq);
                }
                assert(self.pending@ =~= m.remove_keys(v@.take(i + 1).to_set()));
            }
            i = i + 1;
        }
        proof {
            assert(v@.take(v@.len() as int) =~= v@);
            v@.unique_seq_to_set();
        }
        v.len()
    }

    /// Number of pings awaiting their pong.
    pub fn len(&self) -> (n: usize)
        ensures
            n == self.spec_pending().len(),
    {
        self.pending.len()
    }
}

} // verus!
