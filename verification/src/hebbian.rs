//! Gossip of Hebbian weight updates: the byte layout of one synapse's
//! update, of a packet of such updates, the parser for received packets,
//! and the choice of peers a packet goes to.
//!
//! Weights and gradients travel as the 32-bit patterns of their `f32`
//! values; the plasticity arithmetic itself runs in floating point and
//! lives with the application.
//!
//! One synapse update:
//! ```text
//! [32 bytes] post_id
//! [2 bytes]  u16 target count (LE, at most 19)
//! per target: [32 bytes] target id, [4 bytes] weight, [4 bytes] gradient
//! ```
//! A packet: `[32 bytes] source id, [2 bytes] u16 update count, updates...`.

use rand::Rng;
use vstd::prelude::*;

use crate::components::EntityId;
use crate::flat::read_u32;
use crate::wire::{
    get_u16_le, get_u32_le, le16, le32, lemma_le16_roundtrip, lemma_le32_roundtrip, push_bytes,
    push_u16_le, push_u32_le,
};

verus! {

/// Gossip batch interval in ticks.
pub const DEFAULT_GOSSIP_INTERVAL: u64 = 500;

/// Maximum gossip targets per tick.
pub const MAX_GOSSIP_TARGETS: usize = 3;

/// Maximum synapse updates per gossip packet, and maximum targets per
/// synapse update.
pub const MAX_SYNAPSES_PER_GOSSIP: usize = 19;

/// The number of items that fit in one gossip unit: `n` capped at 19.
pub open spec fn gossip_count(n: nat) -> nat {
    if n < 19 {
        n
    } else {
        19
    }
}

/// The bytes of the identifiers, in order.
pub open spec fn ids_view(ids: Seq<EntityId>) -> Seq<Seq<u8>> {
    ids.map_values(|e: EntityId| e.0@)
}

/// The records of the first `n` targets: id, weight bits, gradient bits.
pub open spec fn spec_targets_bytes(
    targets: Seq<Seq<u8>>,
    weights: Seq<u32>,
    grads: Seq<u32>,
    n: nat,
) -> Seq<u8>
    decreases n,
{
    if n == 0 {
        Seq::empty()
    } else {
        let j = n - 1;
        spec_targets_bytes(targets, weights, grads, j as nat) + targets[j] + le32(weights[j]) + le32(
            grads[j],
        )
    }
}

/// The update of one synapse: its post-synaptic id, the target count and
/// the records of the first (at most 19) targets.
pub open spec fn spec_synapse_gossip(
    post: Seq<u8>,
    targets: Seq<Seq<u8>>,
    weights: Seq<u32>,
    grads: Seq<u32>,
) -> Seq<u8> {
    let c = gossip_count(targets.len());
    post + le16(c as u16) + spec_targets_bytes(targets, weights, grads, c)
}

/// The first `n` serialized updates, one after another.
pub open spec fn spec_bodies(bodies: Seq<Seq<u8>>, n: nat) -> Seq<u8>
    decreases n,
{
    if n == 0 {
        Seq::empty()
    } else {
        spec_bodies(bodies, (n - 1) as nat) + bodies[n - 1]
    }
}

/// A gossip packet: the source id, the update count and the first (at
/// most 19) updates.
pub open spec fn spec_gossip_packet(source: Seq<u8>, bodies: Seq<Seq<u8>>) -> Seq<u8> {
    let c = gossip_count(bodies.len());
    source + le16(c as u16) + spec_bodies(bodies, c)
}

/// The serialized updates of a batch.
pub open spec fn batch_bodies(batch: Seq<(EntityId, Vec<u8>)>) -> Seq<Seq<u8>> {
    batch.map_values(|e: (EntityId, Vec<u8>)| e.1@)
}

/// Serialize one synapse's update for gossip; `None` for a synapse with no
/// targets. `weights[i]` and `grads[i]` are the bit patterns of target
/// `i`'s weight and accumulated gradient.
pub fn serialize_synapse_gossip(
    post_id: &EntityId,
    targets: &[EntityId],
    weights: &[u32],
    grads: &[u32],
) -> (r: Option<Vec<u8>>)
    requires
        gossip_count(targets@.len()) <= weights@.len(),
        gossip_count(targets@.len()) <= grads@.len(),
    ensures
        targets@.len() == 0 ==> r is None,
        targets@.len() > 0 ==> (r matches Some(b) && b@ == spec_synapse_gossip(
            post_id.0@,
            ids_view(targets@),
            weights@,
            grads@,
        )),
{
    if targets.len() == 0 {
        return None;
    }
    let count: usize = if targets.len() < MAX_SYNAPSES_PER_GOSSIP {
        targets.len()
    } else {
        MAX_SYNAPSES_PER_GOSSIP
    };
    let ghost tv = ids_view(targets@);
    let mut buf: Vec<u8> = Vec::new();
    push_bytes(&mut buf, post_id.0.as_slice());
    push_u16_le(&mut buf, count as u16);
    let mut i: usize = 0;
    while i < count
        invariant
            count == gossip_count(targets@.len()),
            count <= targets@.len(),
            count <= weights@.len(),
            count <= grads@.len(),
            tv == ids_view(targets@),
            i <= count,
            buf@ == post_id.0@ + le16(count as u16) + spec_targets_bytes(
                tv,
                weights@,
                grads@,
                i as nat,
            ),
        decreases count - i,
    {
        let t: &EntityId = &targets[i];
        assert(tv[i as int] == t.0@);
        push_bytes(&mut buf, t.0.as_slice());
        push_u32_le(&mut buf, weights[i]);
        push_u32_le(&mut buf, grads[i]);
        i = i + 1;
        assert(buf@ =~= post_id.0@ + le16(count as u16) + spec_targets_bytes(
            tv,
            weights@,
            grads@,
            i as nat,
        ));
    }
    Some(buf)
}

/// Serialize a gossip packet: the source id, then the first (at most 19)
/// serialized updates of `batch`; `None` for an empty batch.
pub fn serialize_gossip_packet(local_id: EntityId, batch: &[(EntityId, Vec<u8>)]) -> (r: Option<
    Vec<u8>,
>)
    ensures
        batch@.len() == 0 ==> r is None,
        batch@.len() > 0 ==> (r matches Some(b) && b@ == spec_gossip_packet(
            local_id.0@,
            batch_bodies(batch@),
        )),
{
    if batch.len() == 0 {
        return None;
    }
    let count: usize = if batch.len() < MAX_SYNAPSES_PER_GOSSIP {
        batch.len()
    } else {
        MAX_SYNAPSES_PER_GOSSIP
    };
    let ghost bodies = batch_bodies(batch@);
    let mut buf: Vec<u8> = Vec::new();
    push_bytes(&mut buf, local_id.0.as_slice());
    push_u16_le(&mut buf, count as u16);
    let mut i: usize = 0;
    while i < count
        invariant
            count == gossip_count(batch@.len()),
            count <= batch@.len(),
            bodies == batch_bodies(batch@),
            i <= count,
            buf@ == local_id.0@ + le16(count as u16) + spec_bodies(bodies, i as nat),
        decreases count - i,
    {
        let body: &Vec<u8> = &batch[i].1;
        assert(bodies[i as int] == body@);
        push_bytes(&mut buf, body.as_slice());
        i = i + 1;
        assert(buf@ =~= local_id.0@ + le16(count as u16) + spec_bodies(bodies, i as nat));
    }
    Some(buf)
}

/// One parsed synapse update, as plain values: post-synaptic id, target
/// ids, weight bits and gradient bits.
pub type GossipEntryView = (Seq<u8>, Seq<Seq<u8>>, Seq<u32>, Seq<u32>);

/// The bytes an update at `off` occupies: its 34-byte head and 40 bytes
/// per announced target.
pub open spec fn spec_entry_len(data: Seq<u8>, off: int) -> int {
    34 + 40 * get_u16_le(data, off + 32)
}

/// The update whose head starts at `off`.
pub open spec fn spec_entry_at(data: Seq<u8>, off: int) -> GossipEntryView {
    let nt = get_u16_le(data, off + 32) as nat;
    let base = off + 34;
    (
        data.subrange(off, off + 32),
        Seq::new(nt, |j: int| data.subrange(base + 40 * j, base + 40 * j + 32)),
        Seq::new(nt, |j: int| get_u32_le(data, base + 40 * j + 32)),
        Seq::new(nt, |j: int| get_u32_le(data, base + 40 * j + 36)),
    )
}

/// Up to `remaining` updates read from `off` on; reading stops at the first
/// update whose head or targets run past the end of `data`.
pub open spec fn spec_parse_entries(data: Seq<u8>, off: int, remaining: nat) -> Seq<
    GossipEntryView,
>
    decreases remaining,
{
    if remaining == 0 || off < 0 || off + 34 > data.len() || off + spec_entry_len(data, off)
        > data.len() {
        Seq::empty()
    } else {
        seq![spec_entry_at(data, off)] + spec_parse_entries(
            data,
            off + spec_entry_len(data, off),
            (remaining - 1) as nat,
        )
    }
}

/// A received gossip packet: `None` when shorter than its 34-byte head,
/// else the source id and the updates that can be read whole.
pub open spec fn spec_deserialize_gossip(data: Seq<u8>) -> Option<(Seq<u8>, Seq<GossipEntryView>)> {
    if data.len() < 34 {
        None
    } else {
        Some((data.subrange(0, 32), spec_parse_entries(data, 34, get_u16_le(data, 32) as nat)))
    }
}

/// A parsed update as plain values.
pub open spec fn entry_view(e: (EntityId, Vec<EntityId>, Vec<u32>, Vec<u32>)) -> GossipEntryView {
    (e.0.0@, ids_view(e.1@), e.2@, e.3@)
}

/// The parsed updates as plain values.
pub open spec fn entries_view(es: Seq<(EntityId, Vec<EntityId>, Vec<u32>, Vec<u32>)>) -> Seq<
    GossipEntryView,
> {
    es.map_values(|e: (EntityId, Vec<EntityId>, Vec<u32>, Vec<u32>)| entry_view(e))
}

/// The 32 bytes at `off` as an identifier.
fn entity_id_at(data: &[u8], off: usize) -> (e: EntityId)
    requires
        off + 32 <= data@.len(),
    ensures
        e.0@ == data@.subrange(off as int, off + 32),
{
    let len: usize = data.len();
    let mut a: [u8; 32] = [0u8; 32];
    let mut i: usize = 0;
    while i < 32
        invariant
            len == data@.len(),
            off + 32 <= data@.len(),
            i <= 32,
            a@.len() == 32,
            forall|j: int| 0 <= j < i ==> a@[j] == data@[off + j],
        decreases 32 - i,
    {
        a[i] = data[off + i];
        i = i + 1;
    }
    assert(a@ =~= data@.subrange(off as int, off + 32));
    EntityId(a)
}

/// Parse the update whose head is at `off`, given that it fits.
fn read_entry(data: &[u8], off: usize) -> (e: (EntityId, Vec<EntityId>, Vec<u32>, Vec<u32>))
    requires
        off + 34 <= data@.len(),
        off + spec_entry_len(data@, off as int) <= data@.len(),
    ensures
        entry_view(e) == spec_entry_at(data@, off as int),
{
    let len: usize = data.len();
    let post_id = entity_id_at(data, off);
    let num_targets: usize = (data[off + 32] as u16 | ((data[off + 33] as u16) << 8u16)) as usize;
    assert(num_targets == get_u16_le(data@, off + 32));
    let base: usize = off + 34;
    let mut targets: Vec<EntityId> = Vec::new();
    let mut weights: Vec<u32> = Vec::new();
    let mut grads: Vec<u32> = Vec::new();
    let mut j: usize = 0;
    while j < num_targets
        invariant
            num_targets == get_u16_le(data@, off + 32),
            len == data@.len(),
            base == off + 34,
            base + 40 * num_targets <= data@.len(),
            j <= num_targets,
            targets@.len() == j,
            ids_view(targets@) == Seq::new(
                j as nat,
                |k: int| data@.subrange(base + 40 * k, base + 40 * k + 32),
            ),
            weights@ == Seq::new(j as nat, |k: int| get_u32_le(data@, base + 40 * k + 32)),
            grads@ == Seq::new(j as nat, |k: int| get_u32_le(data@, base + 40 * k + 36)),
        decreases num_targets - j,
    {
        let pos: usize = base + 40 * j;
        let tid = entity_id_at(data, pos);
        let w: u32 = read_u32(data, pos + 32);
        let g: u32 = read_u32(data, pos + 36);
        let ghost old_targets = targets@;
        targets.push(tid);
        weights.push(w);
        grads.push(g);
        j = j + 1;
        assert(forall|k: int| 0 <= k < j - 1 ==> #[trigger] ids_view(targets@)[k] == ids_view(old_targets)[k]);
        assert(ids_view(targets@)[j - 1] == tid.0@);
        assert(ids_view(targets@) =~= Seq::new(
            j as nat,
            |k: int| data@.subrange(base + 40 * k, base + 40 * k + 32),
        ));
        assert(weights@ =~= Seq::new(j as nat, |k: int| get_u32_le(data@, base + 40 * k + 32)));
        assert(grads@ =~= Seq::new(j as nat, |k: int| get_u32_le(data@, base + 40 * k + 36)));
    }
    (post_id, targets, weights, grads)
}

/// Parse a gossip packet received from the network: `None` when it is
/// shorter than its head; otherwise the source id and every announced
/// update that can be read whole, up to the first that cannot.
pub fn deserialize_gossip_packet(data: &[u8]) -> (r: Option<
    (EntityId, Vec<(EntityId, Vec<EntityId>, Vec<u32>, Vec<u32>)>),
>)
    ensures
        match spec_deserialize_gossip(data@) {
            None => r is None,
            Some((src, es)) => r matches Some((s, v)) && s.0@ == src && entries_view(v@) == es,
        },
{
    if data.len() < 34 {
        return None;
    }
    let source = entity_id_at(data, 0);
    let num_synapses: usize = (data[32] as u16 | ((data[33] as u16) << 8u16)) as usize;
    assert(num_synapses == get_u16_le(data@, 32));
    let ghost total = spec_parse_entries(data@, 34, num_synapses as nat);
    let mut entries: Vec<(EntityId, Vec<EntityId>, Vec<u32>, Vec<u32>)> = Vec::new();
    let mut offset: usize = 34;
    let mut k: usize = 0;
    while k < num_synapses
        invariant
            34 <= offset <= data@.len(),
            k <= num_synapses,
            total == spec_parse_entries(data@, 34, num_synapses as nat),
            entries_view(entries@) + spec_parse_entries(
                data@,
                offset as int,
                (num_synapses - k) as nat,
            ) == total,
        ensures
            entries_view(entries@) == total,
        decreases num_synapses - k,
    {
        let ghost rest = spec_parse_entries(data@, offset as int, (num_synapses - k) as nat);
        if data.len() - offset < 34 {
            assert(rest =~= Seq::<GossipEntryView>::empty());
            assert(entries_view(entries@) + rest =~= entries_view(entries@));
            break;
        }
        let nt: usize = (data[offset + 32] as u16 | ((data[offset + 33] as u16) << 8u16)) as usize;
        assert(nt == get_u16_le(data@, offset + 32));
        if data.len() - offset - 34 < 40 * nt {
            assert(rest =~= Seq::<GossipEntryView>::empty());
            assert(entries_view(entries@) + rest =~= entries_view(entries@));
            break;
        }
        let e = read_entry(data, offset);
        let ghost old_entries = entries@;
        entries.push(e);
        assert(entries_view(entries@) =~= entries_view(old_entries) + seq![entry_view(e)]);
        offset = offset + 34 + 40 * nt;
        k = k + 1;
        assert(rest =~= seq![entry_view(e)] + spec_parse_entries(
            data@,
            offset as int,
            (num_synapses - k) as nat,
        ));
        assert(entries_view(entries@) + spec_parse_entries(
            data@,
            offset as int,
            (num_synapses - k) as nat,
        ) =~= entries_view(old_entries) + rest);
    }
    proof {
        if k == num_synapses {
            assert(entries_view(entries@) + spec_parse_entries(data@, offset as int, 0)
                =~= entries_view(entries@));
        }
    }
    Some((source, entries))
}

/// The serialized update of a synapse given as plain values.
pub open spec fn synapse_body(u: GossipEntryView) -> Seq<u8> {
    spec_synapse_gossip(u.0, u.1, u.2, u.3)
}

/// What a receiver reads back of a synapse's update: the id and the first
/// (at most 19) targets with their weight and gradient bits.
pub open spec fn truncated(u: GossipEntryView) -> GossipEntryView {
    let c = gossip_count(u.1.len()) as int;
    (u.0, u.1.take(c), u.2.take(c), u.3.take(c))
}

/// A synapse given as plain values that `serialize_synapse_gossip` accepts:
/// 32-byte ids and a weight and a gradient for every target sent.
pub open spec fn synapse_ok(u: GossipEntryView) -> bool {
    &&& u.0.len() == 32
    &&& forall|j: int| 0 <= j < u.1.len() ==> (#[trigger] u.1[j]).len() == 32
    &&& gossip_count(u.1.len()) <= u.2.len()
    &&& gossip_count(u.1.len()) <= u.3.len()
}

proof fn lemma_targets_len(targets: Seq<Seq<u8>>, weights: Seq<u32>, grads: Seq<u32>, n: nat)
    requires
        n <= targets.len(),
        forall|j: int| 0 <= j < targets.len() ==> (#[trigger] targets[j]).len() == 32,
    ensures
        spec_targets_bytes(targets, weights, grads, n).len() == 40 * n,
    decreases n,
{
    if n > 0 {
        lemma_targets_len(targets, weights, grads, (n - 1) as nat);
        assert(targets[n - 1].len() == 32);
    }
}

proof fn lemma_targets_layout(
    data: Seq<u8>,
    off: int,
    targets: Seq<Seq<u8>>,
    weights: Seq<u32>,
    grads: Seq<u32>,
    n: nat,
)
    requires
        0 <= off,
        off + 40 * n <= data.len(),
        n <= targets.len(),
        forall|j: int| 0 <= j < targets.len() ==> (#[trigger] targets[j]).len() == 32,
        data.subrange(off, off + 40 * n) == spec_targets_bytes(targets, weights, grads, n),
    ensures
        forall|j: int|
            0 <= j < n ==> data.subrange(off + 40 * j, off + 40 * j + 32) == #[trigger] targets[j],
        forall|j: int| 0 <= j < n ==> get_u32_le(data, off + 40 * j + 32) == #[trigger] weights[j],
        forall|j: int| 0 <= j < n ==> get_u32_le(data, off + 40 * j + 36) == #[trigger] grads[j],
    decreases n,
{
    if n > 0 {
        let m = (n - 1) as nat;
        lemma_targets_len(targets, weights, grads, m);
        let prev = spec_targets_bytes(targets, weights, grads, m);
        let tb = spec_targets_bytes(targets, weights, grads, n);
        assert(tb == prev + targets[m as int] + le32(weights[m as int]) + le32(grads[m as int]));
        assert(targets[m as int].len() == 32);
        assert(data.subrange(off, off + 40 * m) =~= tb.subrange(0, (40 * m) as int));
        assert(tb.subrange(0, (40 * m) as int) =~= prev);
        lemma_targets_layout(data, off, targets, weights, grads, m);
        let p = off + 40 * m;
        assert forall|k: int| 0 <= k < 40 implies #[trigger] data[p + k] == tb[40 * m + k] by {
            assert(data.subrange(off, off + 40 * n)[40 * m + k] == data[off + 40 * m + k]);
        }
        let t = targets[m as int];
        let lw = le32(weights[m as int]);
        let lg = le32(grads[m as int]);
        assert forall|k: int| 0 <= k < 32 implies data.subrange(p, p + 32)[k] == #[trigger] t[k] by {
            assert(data[p + k] == tb[40 * m + k]);
        }
        assert(data.subrange(p, p + 32) =~= t);
        assert forall|k: int| 0 <= k < 4 implies #[trigger] data[p + 32 + k] == lw[k] by {
            assert(data[p + (32 + k)] == tb[40 * m + (32 + k)]);
        }
        assert forall|k: int| 0 <= k < 4 implies #[trigger] data[p + 36 + k] == lg[k] by {
            assert(data[p + (36 + k)] == tb[40 * m + (36 + k)]);
        }
        assert(data[p + 32] == lw[0] && data[p + 33] == lw[1] && data[p + 34] == lw[2] && data[p
            + 35] == lw[3]) by {
            assert(data[p + 32 + 0] == lw[0]);
            assert(data[p + 32 + 1] == lw[1]);
            assert(data[p + 32 + 2] == lw[2]);
            assert(data[p + 32 + 3] == lw[3]);
        }
        assert(data[p + 36] == lg[0] && data[p + 37] == lg[1] && data[p + 38] == lg[2] && data[p
            + 39] == lg[3]) by {
            assert(data[p + 36 + 0] == lg[0]);
            assert(data[p + 36 + 1] == lg[1]);
            assert(data[p + 36 + 2] == lg[2]);
            assert(data[p + 36 + 3] == lg[3]);
        }
        lemma_le32_roundtrip(weights[m as int]);
        lemma_le32_roundtrip(grads[m as int]);
        assert(get_u32_le(data, p + 32) == weights[m as int]);
        assert(get_u32_le(data, p + 36) == grads[m as int]);
    }
}

proof fn lemma_entry_layout(data: Seq<u8>, off: int, u: GossipEntryView)
    requires
        0 <= off,
        synapse_ok(u),
        off + synapse_body(u).len() <= data.len(),
        data.subrange(off, off + synapse_body(u).len()) == synapse_body(u),
    ensures
        synapse_body(u).len() == 34 + 40 * gossip_count(u.1.len()),
        off + 34 <= data.len(),
        spec_entry_len(data, off) == synapse_body(u).len(),
        spec_entry_at(data, off) == truncated(u),
{
    let c = gossip_count(u.1.len());
    let body = synapse_body(u);
    let tb = spec_targets_bytes(u.1, u.2, u.3, c);
    lemma_targets_len(u.1, u.2, u.3, c);
    assert(body == u.0 + le16(c as u16) + tb);
    assert forall|k: int| 0 <= k < body.len() implies data[off + k] == body[k] by {
        assert(data.subrange(off, off + body.len())[k] == data[off + k]);
    }
    lemma_le16_roundtrip(c as u16);
    let lc = le16(c as u16);
    assert(data[off + 32] == body[32]);
    assert(data[off + 33] == body[33]);
    assert(body[32] == lc[0] && body[33] == lc[1]);
    assert(get_u16_le(data, off + 32) == c);
    assert forall|k: int| 0 <= k < 40 * c implies #[trigger] tb[k] == data[off + 34 + k] by {
        assert(body[34 + k] == tb[k]);
        assert(data[off + (34 + k)] == body[34 + k]);
    }
    assert(data.subrange(off + 34, off + 34 + 40 * c) =~= tb);
    lemma_targets_layout(data, off + 34, u.1, u.2, u.3, c);
    let e = spec_entry_at(data, off);
    assert(e.0 =~= u.0);
    assert(e.1 =~= u.1.take(c as int));
    assert(e.2 =~= u.2.take(c as int));
    assert(e.3 =~= u.3.take(c as int));
}

proof fn lemma_bodies_prefix(bodies: Seq<Seq<u8>>, m: nat, n: nat)
    requires
        m <= n <= bodies.len(),
    ensures
        spec_bodies(bodies, m).len() <= spec_bodies(bodies, n).len(),
        spec_bodies(bodies, n).subrange(0, spec_bodies(bodies, m).len() as int) == spec_bodies(
            bodies,
            m,
        ),
    decreases n,
{
    if m < n {
        lemma_bodies_prefix(bodies, m, (n - 1) as nat);
        let prev = spec_bodies(bodies, (n - 1) as nat);
        assert(spec_bodies(bodies, n) == prev + bodies[n - 1]);
        assert(spec_bodies(bodies, n).subrange(0, spec_bodies(bodies, m).len() as int)
            =~= prev.subrange(0, spec_bodies(bodies, m).len() as int));
    } else {
        assert(spec_bodies(bodies, n).subrange(0, spec_bodies(bodies, n).len() as int)
            =~= spec_bodies(bodies, n));
    }
}

proof fn lemma_parse_bodies(
    data: Seq<u8>,
    start: int,
    updates: Seq<GossipEntryView>,
    c: nat,
    m: nat,
)
    requires
        0 <= start,
        m <= c <= updates.len(),
        forall|i: int| 0 <= i < updates.len() ==> synapse_ok(#[trigger] updates[i]),
        start + spec_bodies(updates.map_values(|u: GossipEntryView| synapse_body(u)), c).len()
            <= data.len(),
        data.subrange(
            start,
            start + spec_bodies(updates.map_values(|u: GossipEntryView| synapse_body(u)), c).len(),
        ) == spec_bodies(updates.map_values(|u: GossipEntryView| synapse_body(u)), c),
    ensures
        spec_parse_entries(
            data,
            start + spec_bodies(updates.map_values(|u: GossipEntryView| synapse_body(u)), m).len(),
            (c - m) as nat,
        ) == Seq::new((c - m) as nat, |i: int| truncated(updates[m + i])),
    decreases c - m,
{
    let bodies = updates.map_values(|u: GossipEntryView| synapse_body(u));
    let all = spec_bodies(bodies, c);
    let o = start + spec_bodies(bodies, m).len();
    if m < c {
        let u = updates[m as int];
        assert(synapse_ok(u));
        assert(bodies[m as int] == synapse_body(u));
        lemma_bodies_prefix(bodies, (m + 1) as nat, c);
        let next = spec_bodies(bodies, (m + 1) as nat);
        assert(next == spec_bodies(bodies, m) + synapse_body(u));
        let bl = synapse_body(u).len();
        assert forall|k: int| 0 <= k < bl implies data[o + k] == synapse_body(u)[k] by {
            assert(all.subrange(0, next.len() as int)[spec_bodies(bodies, m).len() + k] == next[
                spec_bodies(bodies, m).len() + k]);
            assert(data.subrange(start, start + all.len())[spec_bodies(bodies, m).len() + k]
                == data[o + k]);
        }
        assert(data.subrange(o, o + bl) =~= synapse_body(u));
        lemma_entry_layout(data, o, u);
        lemma_parse_bodies(data, start, updates, c, (m + 1) as nat);
        assert(o + bl == start + next.len());
        assert(spec_parse_entries(data, o, (c - m) as nat) == seq![truncated(u)]
            + spec_parse_entries(data, o + bl, (c - (m + 1)) as nat));
        assert(spec_parse_entries(data, o, (c - m) as nat) =~= Seq::new(
            (c - m) as nat,
            |i: int| truncated(updates[m + i]),
        ));
    } else {
        assert(spec_parse_entries(data, o, 0) =~= Seq::new(
            0,
            |i: int| truncated(updates[m + i]),
        ));
    }
}

/// Law: a gossip packet built from serialized synapse updates parses back
/// to its source id and, for each of the first (at most 19) updates, the
/// post-synaptic id with the first (at most 19) targets and their weight
/// and gradient bits.
pub proof fn lemma_gossip_roundtrip(source: Seq<u8>, updates: Seq<GossipEntryView>)
    requires
        source.len() == 32,
        forall|i: int| 0 <= i < updates.len() ==> synapse_ok(#[trigger] updates[i]),
    ensures
        spec_deserialize_gossip(
            spec_gossip_packet(source, updates.map_values(|u: GossipEntryView| synapse_body(u))),
        ) == Some(
            (source, Seq::new(gossip_count(updates.len()), |i: int| truncated(updates[i]))),
        ),
{
    let bodies = updates.map_values(|u: GossipEntryView| synapse_body(u));
    let c = gossip_count(updates.len());
    let packet = spec_gossip_packet(source, bodies);
    let all = spec_bodies(bodies, c);
    assert(packet == source + le16(c as u16) + all);
    lemma_le16_roundtrip(c as u16);
    assert(get_u16_le(packet, 32) == c);
    assert(packet.subrange(0, 32) =~= source);
    assert(packet.subrange(34, 34 + all.len() as int) =~= all);
    lemma_parse_bodies(packet, 34, updates, c, 0);
    assert(spec_bodies(bodies, 0).len() == 0);
    assert(Seq::new((c - 0) as nat, |i: int| truncated(updates[0 + i])) =~= Seq::new(
        c,
        |i: int| truncated(updates[i]),
    ));
}

/// A random index in `lo..hi`.
///
/// Trusted: calls `rand::thread_rng().gen_range(lo..hi)`. The claim is the
/// one rand documents: the value lies in the range, which must not be
/// empty (the call panics on an empty range, which `requires` excludes).
/// Which index comes out is left open.
#[verifier::external_body]
fn random_index(lo: usize, hi: usize) -> (r: usize)
    requires
        lo < hi,
    ensures
        lo <= r < hi,
{
    rand::thread_rng().gen_range(lo..hi)
}

/// Choose up to `max` distinct peers at random (a partial Fisher-Yates
/// shuffle of the indices): `min(peers.len(), max)` of them, each taken
/// from a different position of `peers`.
pub fn select_gossip_targets<T: Copy>(peers: &[T], max: usize) -> (r: Vec<T>)
    ensures
        r@.len() == if peers@.len() < max {
            peers@.len()
        } else {
            max as nat
        },
        exists|idx: Seq<int>|
            {
                &&& idx.len() == r@.len()
                &&& forall|k: int| 0 <= k < idx.len() ==> 0 <= #[trigger] idx[k] < peers@.len()
                    && r@[k] == peers@[idx[k]]
                &&& forall|a: int, b: int| 0 <= a < b < idx.len() ==> idx[a] != idx[b]
            },
{
    let n: usize = peers.len();
    let count: usize = if n < max {
        n
    } else {
        max
    };
    let mut indices: Vec<usize> = Vec::new();
    let mut t: usize = 0;
    while t < n
        invariant
            n == peers@.len(),
            t <= n,
            indices@.len() == t,
            forall|k: int| 0 <= k < t ==> indices@[k] == k,
        decreases n - t,
    {
        indices.push(t);
        t = t + 1;
    }
    let mut selected: Vec<T> = Vec::new();
    let mut i: usize = 0;
    while i < count
        invariant
            n == peers@.len(),
            count <= n,
            i <= count,
            indices@.len() == n,
            forall|k: int| 0 <= k < n ==> #[trigger] indices@[k] < n,
            forall|a: int, b: int| 0 <= a < b < n ==> indices@[a] != indices@[b],
            selected@.len() == i,
            forall|k: int| 0 <= k < i ==> selected@[k] == peers@[indices@[k] as int],
        decreases count - i,
    {
        let j: usize = random_index(i, n);
        let a: usize = indices[i];
        let b: usize = indices[j];
        let ghost before = indices@;
        indices.set(i, b);
        indices.set(j, a);
        assert(forall|k: int| 0 <= k < n && k != i && k != j ==> indices@[k] == before[k]);
        assert forall|x: int, y: int| 0 <= x < y < n implies indices@[x] != indices@[y] by {
            assert(before[x] != before[y]);
            if x == i || x == j || y == i || y == j {
                assert(before[i as int] != before[j as int] || i == j);
            }
        }
        selected.push(peers[indices[i]]);
        i = i + 1;
    }
    let ghost idx = indices@.take(count as int).map_values(|v: usize| v as int);
    assert(idx.len() == selected@.len());
    assert(forall|k: int| 0 <= k < idx.len() ==> idx[k] == indices@[k] as int);
    selected
}

} // verus!
