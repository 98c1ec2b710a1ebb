//! The routing table of the latency-weighted hybrid Kademlia: XOR distance
//! places a node in one of 256 buckets, latency ranks the nodes of a bucket
//! and decides evictions.
//!
//! Latencies are held as order keys: the bit pattern of a non-negative
//! `f32` millisecond value, whose integer order is the order of the
//! latencies themselves. Blending a new sample into a stored latency is
//! floating-point work that the caller does; the table stores the key it is
//! handed.

use vstd::prelude::*;

use crate::dht::{spec_bucket_from, spec_xor, NodeAddr, NodeId, NodeType};
use crate::wire::bytes32_eq;

verus! {

/// Capacity of one bucket.
pub const K: usize = 20;

/// Number of buckets (one per bit of the identifier).
pub const BUCKET_COUNT: usize = 256;

/// Failures after which a node counts as dead.
pub const MAX_FAILURES: u32 = 3;

/// How long a node may stay silent before it is pinged again (ms).
pub const STALE_PING_MS: u64 = 300_000;

/// Order key of the latency a node starts with: 100.0 ms as `f32` bits.
pub const DEFAULT_LATENCY_KEY: u32 = 0x42C8_0000;

// ─── Distance ──────────────────────────────────────────────────

/// The big-endian value of a byte string.
pub open spec fn be_value(s: Seq<u8>) -> nat
    decreases s.len(),
{
    if s.len() == 0 {
        0
    } else {
        be_value(s.drop_last()) * 256 + (s.last() as nat)
    }
}

/// Distance of `id` from `target`: their XOR read as a 256-bit number.
pub open spec fn distance(target: NodeId, id: NodeId) -> nat {
    be_value(spec_xor(target.0@, id.0@))
}

/// Strings of one length that agree before `i` and differ upward at `i`
/// are ordered by value.
proof fn lemma_be_lex(a: Seq<u8>, b: Seq<u8>, i: int)
    requires
        a.len() == b.len(),
        0 <= i < a.len(),
        forall|j: int| 0 <= j < i ==> a[j] == b[j],
        a[i] < b[i],
    ensures
        be_value(a) < be_value(b),
    decreases a.len(),
{
    let n = a.len() - 1;
    let ad = a.drop_last();
    let bd = b.drop_last();
    if i == n {
        assert(ad =~= bd);
    } else {
        lemma_be_lex(ad, bd, i);
        let va = be_value(ad);
        let vb = be_value(bd);
        let la = a.last();
        let lb = b.last();
        assert(va * 256 + la < vb * 256 + lb) by (nonlinear_arith)
            requires
                va < vb,
                la < 256,
        ;
    }
}

/// Equal values of strings of one length mean equal strings.
proof fn lemma_be_injective(a: Seq<u8>, b: Seq<u8>)
    requires
        a.len() == b.len(),
        be_value(a) == be_value(b),
    ensures
        a == b,
    decreases a.len(),
{
    if a.len() > 0 {
        let va = be_value(a.drop_last());
        let vb = be_value(b.drop_last());
        let la = a.last();
        let lb = b.last();
        assert(va == vb && la == lb) by (nonlinear_arith)
            requires
                va * 256 + la == vb * 256 + lb,
                la < 256,
                lb < 256,
        ;
        lemma_be_injective(a.drop_last(), b.drop_last());
        assert(a =~= a.drop_last().push(la));
        assert(b =~= b.drop_last().push(lb));
    } else {
        assert(a =~= b);
    }
}

/// Law: distinct identifiers are at distinct distances from any target.
pub proof fn lemma_distance_injective(target: NodeId, a: NodeId, b: NodeId)
    ensures
        distance(target, a) == distance(target, b) <==> a == b,
{
    if distance(target, a) == distance(target, b) {
        lemma_be_injective(spec_xor(target.0@, a.0@), spec_xor(target.0@, b.0@));
        assert forall|i: int| 0 <= i < 32 implies a.0@[i] == b.0@[i] by {
            let t = target.0@[i];
            let x = a.0@[i];
            let y = b.0@[i];
            assert(spec_xor(target.0@, a.0@)[i] == spec_xor(target.0@, b.0@)[i]);
            assert(t ^ x == t ^ y ==> x == y) by (bit_vector);
        }
        assert(a.0@ =~= b.0@);
        assert(a.0 == b.0);
    }
}

/// Whether `a` is strictly closer to `target` than `b`.
fn closer(target: &NodeId, a: &NodeId, b: &NodeId) -> (r: bool)
    ensures
        r == (distance(*target, *a) < distance(*target, *b)),
{
    let ghost xa = spec_xor(target.0@, a.0@);
    let ghost xb = spec_xor(target.0@, b.0@);
    let mut i: usize = 0;
    while i < 32
        invariant
            i <= 32,
            xa == spec_xor(target.0@, a.0@),
            xb == spec_xor(target.0@, b.0@),
            forall|j: int| 0 <= j < i ==> xa[j] == xb[j],
        decreases 32 - i,
    {
        let da: u8 = target.0[i] ^ a.0[i];
        let db: u8 = target.0[i] ^ b.0[i];
        if da != db {
            proof {
                if da < db {
                    lemma_be_lex(xa, xb, i as int);
                } else {
                    lemma_be_lex(xb, xa, i as int);
                }
            }
            return da < db;
        }
        i = i + 1;
    }
    assert(xa =~= xb);
    false
}

// ─── Node entries ──────────────────────────────────────────────

/// A known node: identifier, address, type, latency order key, when it was
/// last heard from (ms) and how many requests to it failed in a row.
#[derive(Debug, Clone, Copy, PartialEq, Eq)]
pub struct NodeEntry {
    /// The node's identifier.
    pub id: NodeId,
    /// The node's address.
    pub addr: NodeAddr,
    /// Order key of the node's latency (see the module documentation).
    pub latency_key: u32,
    /// When the node was last heard from, in milliseconds.
    pub last_seen_ms: u64,
    /// The node's type.
    pub node_type: NodeType,
    /// Consecutive failures.
    pub fail_count: u32,
}

impl NodeEntry {
    /// A fresh entry seen at `now_ms`, with the default latency of 100 ms
    /// and no failures.
    pub fn new(id: NodeId, addr: NodeAddr, node_type: NodeType, now_ms: u64) -> (e: Self)
        ensures
            e == (NodeEntry {
                id,
                addr,
                latency_key: DEFAULT_LATENCY_KEY,
                last_seen_ms: now_ms,
                node_type,
                fail_count: 0,
            }),
    {
        NodeEntry {
            id,
            addr,
            latency_key: DEFAULT_LATENCY_KEY,
            last_seen_ms: now_ms,
            node_type,
            fail_count: 0,
        }
    }

    /// Store a latency (already blended with the old one by the caller),
    /// mark the node seen at `now_ms` and clear its failures.
    pub fn update_latency(&mut self, latency_key: u32, now_ms: u64)
        ensures
            *final(self) == (NodeEntry {
                latency_key,
                last_seen_ms: now_ms,
                fail_count: 0,
                ..*old(self)
            }),
    {
        self.latency_key = latency_key;
        self.last_seen_ms = now_ms;
        self.fail_count = 0;
    }

    /// Count one more failure.
    pub fn record_failure(&mut self)
        requires
            old(self).fail_count < u32::MAX,
        ensures
            *final(self) == (NodeEntry { fail_count: (old(self).fail_count + 1) as u32, ..*old(self) }),
    {
        self.fail_count = self.fail_count + 1;
    }

    /// Whether the node has failed `MAX_FAILURES` times in a row.
    pub fn is_dead(&self) -> (b: bool)
        ensures
            b == (self.fail_count >= MAX_FAILURES),
    {
        self.fail_count >= MAX_FAILURES
    }
}


// ─── Sweeps ────────────────────────────────────────────────────

/// The limits of a sweep: entries slower, quieter or failing more than
/// these are dropped.
#[derive(Debug, Clone, Copy)]
pub struct SweepLimits {
    /// Largest latency order key an entry may keep.
    pub max_latency_key: u32,
    /// Longest an entry may stay silent, in milliseconds.
    pub max_idle_ms: u64,
    /// Failures in a row at which an entry is dropped.
    pub max_failures: u32,
}

/// Whether `e` has outlived its place at `now_ms`: too many failures in a
/// row, a latency key above the limit, or silent for too long.
pub open spec fn outlived(e: NodeEntry, now_ms: u64, lim: SweepLimits) -> bool {
    ||| e.fail_count >= lim.max_failures
    ||| e.latency_key > lim.max_latency_key
    ||| now_ms > e.last_seen_ms && now_ms - e.last_seen_ms > lim.max_idle_ms
}

/// The entries that survive a sweep at `now_ms`.
pub open spec fn survives(now_ms: u64, lim: SweepLimits) -> spec_fn(NodeEntry) -> bool {
    |e: NodeEntry| !outlived(e, now_ms, lim)
}

/// Whether `e` has outlived its place (see [`outlived`]).
fn is_outlived(e: &NodeEntry, now_ms: u64, lim: SweepLimits) -> (b: bool)
    ensures
        b == outlived(*e, now_ms, lim),
{
    e.fail_count >= lim.max_failures || e.latency_key > lim.max_latency_key || (now_ms
        > e.last_seen_ms && now_ms - e.last_seen_ms > lim.max_idle_ms)
}

/// Filtering a run of entries keeps only entries of the run, keeps the
/// latency order and distinct identifiers, and does not lengthen it.
pub proof fn lemma_filter_run(s: Seq<NodeEntry>, p: spec_fn(NodeEntry) -> bool)
    ensures
        s.filter(p).len() <= s.len(),
        forall|x: NodeEntry| #[trigger] s.filter(p).contains(x) ==> s.contains(x),
        sorted_by_latency(s) ==> sorted_by_latency(s.filter(p)),
        ids_distinct(s) ==> ids_distinct(s.filter(p)),
    decreases s.len(),
{
    reveal(Seq::filter);
    if s.len() > 0 {
        let d = s.drop_last();
        let l = s.last();
        lemma_filter_run(d, p);
        let f = d.filter(p);
        assert forall|x: NodeEntry| f.contains(x) implies s.contains(x) by {
            assert(d.contains(x));
            let i = choose|i: int| 0 <= i < d.len() && d[i] == x;
            assert(s[i] == x);
        }
        if p(l) {
            let g = f.push(l);
            assert(s.filter(p) == g);
            assert forall|x: NodeEntry| g.contains(x) implies s.contains(x) by {
                let j = choose|j: int| 0 <= j < g.len() && g[j] == x;
                if j == f.len() {
                    assert(s[s.len() - 1] == x);
                } else {
                    assert(f[j] == x);
                    assert(f.contains(x));
                }
            }
            if sorted_by_latency(s) {
                assert forall|a: int, b: int| 0 <= a < b < g.len() implies g[a].latency_key
                    <= g[b].latency_key by {
                    if b == f.len() {
                        assert(f.contains(f[a]));
                        let i = choose|i: int| 0 <= i < d.len() && d[i] == f[a];
                        assert(s[i] == d[i]);
                    } else {
                        assert(g[a] == f[a] && g[b] == f[b]);
                    }
                }
            }
            if ids_distinct(s) {
                assert forall|a: int, b: int| 0 <= a < b < g.len() implies g[a].id != g[b].id by {
                    if b == f.len() {
                        assert(f.contains(f[a]));
                        let i = choose|i: int| 0 <= i < d.len() && d[i] == f[a];
                        assert(s[i] == d[i]);
                    } else {
                        assert(g[a] == f[a] && g[b] == f[b]);
                    }
                }
            }
        } else {
            assert(s.filter(p) == f);
        }
    }
}

/// Runs no longer than others, bucket by bucket, flatten to no more.
proof fn lemma_flatten_le(a: Seq<Seq<NodeEntry>>, b: Seq<Seq<NodeEntry>>)
    requires
        a.len() == b.len(),
        forall|i: int| 0 <= i < a.len() ==> (#[trigger] a[i]).len() <= b[i].len(),
    ensures
        a.flatten().len() <= b.flatten().len(),
    decreases a.len(),
{
    if a.len() > 0 {
        assert(a.drop_first().len() == b.drop_first().len());
        assert forall|i: int| 0 <= i < a.drop_first().len() implies (
        #[trigger] a.drop_first()[i]).len() <= b.drop_first()[i].len() by {
            assert(a.drop_first()[i] == a[i + 1] && b.drop_first()[i] == b[i + 1]);
        }
        lemma_flatten_le(a.drop_first(), b.drop_first());
        assert(a[0].len() <= b[0].len());
    }
}

// ─── K-buckets ─────────────────────────────────────────────────

/// Whether the entries are ordered by latency, fastest first.
pub open spec fn sorted_by_latency(s: Seq<NodeEntry>) -> bool {
    forall|p: int, q: int| 0 <= p < q < s.len() ==> s[p].latency_key <= s[q].latency_key
}

/// Whether no identifier occurs twice.
pub open spec fn ids_distinct(s: Seq<NodeEntry>) -> bool {
    forall|p: int, q: int| 0 <= p < q < s.len() ==> s[p].id != s[q].id
}

/// Whether some entry has identifier `id`.
pub open spec fn has_id(s: Seq<NodeEntry>, id: NodeId) -> bool {
    exists|i: int| 0 <= i < s.len() && s[i].id == id
}

/// The position of the entry with identifier `id` (meaningful when there
/// is one, and unique when identifiers are distinct).
pub open spec fn index_of_id(s: Seq<NodeEntry>, id: NodeId) -> int {
    choose|i: int| 0 <= i < s.len() && s[i].id == id
}

/// Whether an entry with key `kk` stays ahead of a newcomer with key `k`:
/// entries with a smaller key always do, entries with an equal key do
/// unless the newcomer goes `ahead` of its equals.
pub open spec fn stays_ahead(kk: u32, k: u32, ahead: bool) -> bool {
    if ahead {
        kk < k
    } else {
        kk <= k
    }
}

/// The first position from `i` whose entry does not stay ahead of a
/// newcomer with key `k` (the length if there is none).
pub open spec fn place_from(s: Seq<NodeEntry>, k: u32, ahead: bool, i: int) -> int
    decreases s.len() - i,
{
    if i < 0 || i >= s.len() {
        s.len() as int
    } else if !stays_ahead(s[i].latency_key, k, ahead) {
        i
    } else {
        place_from(s, k, ahead, i + 1)
    }
}

/// `e` inserted into the latency order of `s`: after the entries with a
/// smaller key, and after (or, when `ahead`, before) those with an equal
/// one.
pub open spec fn place(s: Seq<NodeEntry>, e: NodeEntry, ahead: bool) -> Seq<NodeEntry> {
    s.insert(place_from(s, e.latency_key, ahead, 0), e)
}

/// The entry at `idx` replaced by `e` and moved to its place in the
/// latency order, keeping the order among the other entries: a slower key
/// goes before the entries with the same key, a faster one after them, an
/// unchanged one stays where it is.
pub open spec fn reposition(s: Seq<NodeEntry>, idx: int, e: NodeEntry) -> Seq<NodeEntry> {
    let old_key = s[idx].latency_key;
    if e.latency_key == old_key {
        s.update(idx, e)
    } else {
        place(s.remove(idx), e, e.latency_key > old_key)
    }
}

/// The entry for `e.id` refreshed from `e`: latency and last-seen time
/// taken over, failures cleared; address and type kept.
pub open spec fn refreshed(old_entry: NodeEntry, e: NodeEntry) -> NodeEntry {
    NodeEntry {
        latency_key: e.latency_key,
        last_seen_ms: e.last_seen_ms,
        fail_count: 0,
        ..old_entry
    }
}

/// Inserting or updating `e` in a bucket holding `s` with room for `max`:
/// the new entries and whether `e` was accepted. A known node is refreshed
/// and moved; a new one is placed while there is room; in a full bucket it
/// takes the place of the slowest entry if it is faster, and is refused
/// otherwise.
pub open spec fn spec_upsert(s: Seq<NodeEntry>, max: nat, e: NodeEntry) -> (Seq<NodeEntry>, bool) {
    if has_id(s, e.id) {
        let i = index_of_id(s, e.id);
        (reposition(s, i, refreshed(s[i], e)), true)
    } else if s.len() < max {
        (place(s, e, false), true)
    } else if s.len() > 0 && e.latency_key < s.last().latency_key {
        (place(s.drop_last(), e, false), true)
    } else {
        (s, false)
    }
}

/// Properties of the place found for a key in a sorted sequence.
proof fn lemma_place_from(s: Seq<NodeEntry>, k: u32, ahead: bool, i: int)
    requires
        sorted_by_latency(s),
        0 <= i <= s.len(),
        forall|j: int| 0 <= j < i ==> stays_ahead(s[j].latency_key, k, ahead),
    ensures
        ({
            let p = place_from(s, k, ahead, i);
            &&& i <= p <= s.len()
            &&& forall|j: int| 0 <= j < p ==> stays_ahead(s[j].latency_key, k, ahead)
            &&& forall|j: int| p <= j < s.len() ==> !stays_ahead(s[j].latency_key, k, ahead)
        }),
    decreases s.len() - i,
{
    if i < s.len() && stays_ahead(s[i].latency_key, k, ahead) {
        lemma_place_from(s, k, ahead, i + 1);
    }
}

/// Placing keeps a sorted sequence sorted, and keeps identifiers distinct
/// when the newcomer's identifier is new.
proof fn lemma_place(s: Seq<NodeEntry>, e: NodeEntry, ahead: bool)
    requires
        sorted_by_latency(s),
    ensures
        sorted_by_latency(place(s, e, ahead)),
        0 <= place_from(s, e.latency_key, ahead, 0) <= s.len(),
        place(s, e, ahead).len() == s.len() + 1,
        ids_distinct(s) && !has_id(s, e.id) ==> ids_distinct(place(s, e, ahead)),
        forall|x: NodeEntry| place(s, e, ahead).contains(x) <==> (s.contains(x) || x == e),
{
    lemma_place_from(s, e.latency_key, ahead, 0);
    let p = place_from(s, e.latency_key, ahead, 0);
    let r = place(s, e, ahead);
    assert forall|a: int, b: int| 0 <= a < b < r.len() implies r[a].latency_key
        <= r[b].latency_key by {
        if a < p && b == p {
        } else if a == p && b > p {
        } else {
        }
    }
    if ids_distinct(s) && !has_id(s, e.id) {
        assert forall|a: int, b: int| 0 <= a < b < r.len() implies r[a].id != r[b].id by {
            if a == p {
                assert(s[b - 1].id != e.id);
            } else if b == p {
                assert(s[a].id != e.id);
            }
        }
    }
    assert forall|x: NodeEntry| r.contains(x) <==> (s.contains(x) || x == e) by {
        if r.contains(x) {
            let j = choose|j: int| 0 <= j < r.len() && r[j] == x;
            if j < p {
                assert(s[j] == x);
            } else if j > p {
                assert(s[j - 1] == x);
            }
        }
        if s.contains(x) {
            let j = choose|j: int| 0 <= j < s.len() && s[j] == x;
            if j < p {
                assert(r[j] == x);
            } else {
                assert(r[j + 1] == x);
            }
        }
        if x == e {
            assert(r[p] == x);
        }
    }
}

/// Position at which a newcomer with key `k` goes.
fn place_index(v: &Vec<NodeEntry>, k: u32, ahead: bool) -> (p: usize)
    ensures
        p == place_from(v@, k, ahead, 0),
{
    let mut i: usize = 0;
    while i < v.len()
        invariant
            i <= v@.len(),
            place_from(v@, k, ahead, 0) == place_from(v@, k, ahead, i as int),
        decreases v@.len() - i,
    {
        let kk: u32 = v[i].latency_key;
        let stays: bool = if ahead {
            kk < k
        } else {
            kk <= k
        };
        if !stays {
            return i;
        }
        i = i + 1;
    }
    i
}

/// A bucket of nodes that share a distance class, fastest first.
#[derive(Debug, Clone)]
pub struct KBucket {
    entries: Vec<NodeEntry>,
    max_size: usize,
}

impl KBucket {
    /// The bucket's entries, fastest first.
    pub closed spec fn spec_entries(&self) -> Seq<NodeEntry> {
        self.entries@
    }

    /// How many entries the bucket holds at most.
    pub closed spec fn spec_max_size(&self) -> nat {
        self.max_size as nat
    }

    /// Ordered by latency, no node twice, at most `K` entries.
    pub open spec fn wf(&self) -> bool {
        &&& sorted_by_latency(self.spec_entries())
        &&& ids_distinct(self.spec_entries())
        &&& self.spec_max_size() == K
        &&& self.spec_entries().len() <= self.spec_max_size()
    }

    /// An empty bucket with room for `K` entries.
    pub fn new() -> (b: Self)
        ensures
            b.wf(),
            b.spec_entries() == Seq::<NodeEntry>::empty(),
    {
        KBucket { entries: Vec::new(), max_size: K }
    }

    /// The position of the node `id`, if present.
    pub fn find(&self, id: &NodeId) -> (r: Option<usize>)
        ensures
            r is Some <==> has_id(self.spec_entries(), *id),
            r matches Some(i) ==> i < self.spec_entries().len() && self.spec_entries()[i as int].id
                == *id,
            r matches Some(i) ==> forall|j: int|
                0 <= j < i ==> self.spec_entries()[j].id != *id,
    {
        let mut i: usize = 0;
        while i < self.entries.len()
            invariant
                i <= self.entries@.len(),
                forall|j: int| 0 <= j < i ==> self.entries@[j].id != *id,
            decreases self.entries@.len() - i,
        {
            if bytes32_eq(&self.entries[i].id.0, &id.0) {
                proof {
                    assert(self.entries@[i as int].id.0 == id.0);
                }
                return Some(i);
            }
            proof {
                assert(self.entries@[i as int].id.0@ != id.0@);
            }
            i = i + 1;
        }
        None
    }

    /// Insert `e`, or refresh the entry for its node (see [`spec_upsert`]).
    /// Returns whether `e` was accepted.
    pub fn upsert(&mut self, e: NodeEntry) -> (ok: bool)
        requires
            old(self).wf(),
        ensures
            final(self).wf(),
            (final(self).spec_entries(), ok) == spec_upsert(
                old(self).spec_entries(),
                old(self).spec_max_size(),
                e,
            ),
            has_id(old(self).spec_entries(), e.id) ==> ok,
            has_id(old(self).spec_entries(), e.id) ==> final(self).spec_entries().len()
                == old(self).spec_entries().len(),
            has_id(old(self).spec_entries(), e.id) ==> exists|j: int|
                0 <= j < final(self).spec_entries().len()
                    && #[trigger] final(self).spec_entries()[j].id == e.id
                    && final(self).spec_entries()[j].fail_count == 0
                    && final(self).spec_entries()[j].latency_key == e.latency_key
                    && final(self).spec_entries()[j].last_seen_ms == e.last_seen_ms,
    {
        let ghost s = self.entries@;
        proof {
            if has_id(s, e.id) {
                lemma_upsert_refreshes(s, self.max_size as nat, e);
            }
        }
        match self.find(&e.id) {
            Some(idx) => {
                proof {
                    assert(index_of_id(s, e.id) == idx) by {
                        let c = index_of_id(s, e.id);
                        if c != idx {
                            if c < idx {
                            } else {
                            }
                        }
                    }
                }
                let cur = self.entries[idx];
                let fresh = NodeEntry {
                    latency_key: e.latency_key,
                    last_seen_ms: e.last_seen_ms,
                    fail_count: 0,
                    ..cur
                };
                self.reposition_at(idx, fresh);
                true
            },
            None => {
                if self.entries.len() < self.max_size {
                    self.place_new(e);
                    true
                } else {
                    let n: usize = self.entries.len();
                    if n > 0 && e.latency_key < self.entries[n - 1].latency_key {
                        self.entries.pop();
                        proof {
                            assert(self.entries@ =~= s.drop_last());
                        }
                        self.place_new(e);
                        true
                    } else {
                        false
                    }
                }
            },
        }
    }

    /// Place an entry for a node not in the bucket.
    fn place_new(&mut self, e: NodeEntry)
        requires
            sorted_by_latency(old(self).entries@),
            ids_distinct(old(self).entries@),
            !has_id(old(self).entries@, e.id),
        ensures
            final(self).entries@ == place(old(self).entries@, e, false),
            final(self).max_size == old(self).max_size,
            final(self).entries@.len() == old(self).entries@.len() + 1,
            sorted_by_latency(final(self).entries@),
            ids_distinct(final(self).entries@),
    {
        proof {
            lemma_place(self.entries@, e, false);
        }
        let p = place_index(&self.entries, e.latency_key, false);
        self.entries.insert(p, e);
    }

    /// Replace the entry at `idx` by `e`, an entry for the same node, and
    /// move it to its place (see [`reposition`]).
    fn reposition_at(&mut self, idx: usize, e: NodeEntry)
        requires
            old(self).wf(),
            idx < old(self).entries@.len(),
            old(self).entries@[idx as int].id == e.id,
        ensures
            final(self).wf(),
            final(self).entries@ == reposition(old(self).entries@, idx as int, e),
    {
        let ghost s = self.entries@;
        let old_key: u32 = self.entries[idx].latency_key;
        if e.latency_key == old_key {
            self.entries.set(idx, e);
            proof {
                let r = self.entries@;
                assert forall|a: int, b: int| 0 <= a < b < r.len() implies r[a].latency_key
                    <= r[b].latency_key by {
                    assert(s[a].latency_key <= s[b].latency_key);
                }
                assert forall|a: int, b: int| 0 <= a < b < r.len() implies r[a].id
                    != r[b].id by {
                    assert(s[a].id != s[b].id);
                }
            }
        } else {
            self.entries.remove(idx);
            proof {
                let r = s.remove(idx as int);
                assert(self.entries@ == r);
                assert(sorted_by_latency(r)) by {
                    assert forall|a: int, b: int| 0 <= a < b < r.len() implies r[a].latency_key
                        <= r[b].latency_key by {
                        if a >= idx {
                            assert(r[a] == s[a + 1] && r[b] == s[b + 1]);
                        } else if b >= idx {
                            assert(r[a] == s[a] && r[b] == s[b + 1]);
                        }
                    }
                }
                assert(ids_distinct(r)) by {
                    assert forall|a: int, b: int| 0 <= a < b < r.len() implies r[a].id
                        != r[b].id by {
                        if a >= idx {
                            assert(r[a] == s[a + 1] && r[b] == s[b + 1]);
                        } else if b >= idx {
                            assert(r[a] == s[a] && r[b] == s[b + 1]);
                        }
                    }
                }
                assert(!has_id(r, e.id)) by {
                    if has_id(r, e.id) {
                        let j = choose|j: int| 0 <= j < r.len() && r[j].id == e.id;
                        if j < idx {
                            assert(s[j].id == s[idx as int].id);
                        } else {
                            assert(s[j + 1].id == s[idx as int].id);
                        }
                    }
                }
                lemma_place(r, e, e.latency_key > old_key);
            }
            let p = place_index(&self.entries, e.latency_key, e.latency_key > old_key);
            self.entries.insert(p, e);
        }
    }

    /// Remove the entry at `idx`; returns whether there was one.
    pub fn remove_at(&mut self, idx: usize) -> (ok: bool)
        requires
            old(self).wf(),
        ensures
            final(self).wf(),
            ok == (idx < old(self).spec_entries().len()),
            ok ==> final(self).spec_entries() == old(self).spec_entries().remove(idx as int),
            !ok ==> final(self).spec_entries() == old(self).spec_entries(),
    {
        if idx < self.entries.len() {
            let ghost s = self.entries@;
            self.entries.remove(idx);
            proof {
                let r = self.entries@;
                assert forall|a: int, b: int| 0 <= a < b < r.len() implies r[a].latency_key
                    <= r[b].latency_key by {
                    if a >= idx {
                        assert(r[a] == s[a + 1] && r[b] == s[b + 1]);
                    } else if b >= idx {
                        assert(r[a] == s[a] && r[b] == s[b + 1]);
                    }
                }
                assert forall|a: int, b: int| 0 <= a < b < r.len() implies r[a].id != r[b].id by {
                    if a >= idx {
                        assert(r[a] == s[a + 1] && r[b] == s[b + 1]);
                    } else if b >= idx {
                        assert(r[a] == s[a] && r[b] == s[b + 1]);
                    }
                }
            }
            return true;
        }
        false
    }

    /// Remove the node `id`; returns whether it was present.
    pub fn remove(&mut self, id: &NodeId) -> (ok: bool)
        requires
            old(self).wf(),
        ensures
            final(self).wf(),
            ok == has_id(old(self).spec_entries(), *id),
            ok ==> final(self).spec_entries() == old(self).spec_entries().remove(
                index_of_id(old(self).spec_entries(), *id),
            ),
            !ok ==> final(self).spec_entries() == old(self).spec_entries(),
    {
        let ghost s = self.entries@;
        match self.find(id) {
            Some(idx) => {
                proof {
                    let c = index_of_id(s, *id);
                    assert(c == idx as int) by {
                        if c != idx as int {
                            if c < idx as int {
                            } else {
                            }
                        }
                    }
                }
                self.remove_at(idx)
            },
            None => false,
        }
    }

    /// Drop the entries that have outlived their place at `now_ms` (see
    /// [`outlived`]), keeping the order of the others; returns how many
    /// were dropped.
    pub fn sweep(&mut self, now_ms: u64, lim: SweepLimits) -> (removed: usize)
        requires
            old(self).wf(),
        ensures
            final(self).wf(),
            final(self).spec_entries() == old(self).spec_entries().filter(survives(now_ms, lim)),
            removed == old(self).spec_entries().len() - final(self).spec_entries().len(),
    {
        let ghost s = self.entries@;
        let ghost p = survives(now_ms, lim);
        let mut kept: Vec<NodeEntry> = Vec::new();
        let mut i: usize = 0;
        while i < self.entries.len()
            invariant
                self.entries@ == s,
                i <= s.len(),
                kept@ == s.take(i as int).filter(p),
                p == survives(now_ms, lim),
            decreases s.len() - i,
        {
            let e: NodeEntry = self.entries[i];
            let gone: bool = is_outlived(&e, now_ms, lim);
            proof {
                reveal(Seq::filter);
                assert(s.take(i + 1).drop_last() =~= s.take(i as int));
                assert(s.take(i + 1).last() == e);
                assert(p(e) == !gone);
            }
            if !gone {
                kept.push(e);
            }
            i = i + 1;
        }
        proof {
            assert(s.take(s.len() as int) =~= s);
            lemma_filter_run(s, p);
        }
        let removed: usize = self.entries.len() - kept.len();
        self.entries = kept;
        removed
    }

    /// The fastest entry, if any.
    pub fn fastest(&self) -> (r: Option<&NodeEntry>)
        ensures
            r is Some <==> self.spec_entries().len() > 0,
            r matches Some(e) ==> *e == self.spec_entries()[0],
    {
        if self.entries.len() > 0 {
            Some(&self.entries[0])
        } else {
            None
        }
    }

    /// Number of entries.
    pub fn len(&self) -> (n: usize)
        ensures
            n == self.spec_entries().len(),
    {
        self.entries.len()
    }

    /// The entries, fastest first.
    pub fn entries(&self) -> (s: &[NodeEntry])
        ensures
            s@ == self.spec_entries(),
    {
        self.entries.as_slice()
    }
}

// ─── Routing table ─────────────────────────────────────────────

/// The bucket of `id` in a table centred on `local`: `None` for `local`
/// itself.
pub open spec fn bucket_for(local: NodeId, id: NodeId) -> Option<u8> {
    spec_bucket_from(spec_xor(local.0@, id.0@), 0)
}

/// Whether two positions are nearer each other than two others.
pub open spec fn gap(a: int, b: int) -> int {
    if a >= b {
        a - b
    } else {
        b - a
    }
}

/// Whether `o` names a bucket below `k`.
pub open spec fn below(o: Option<u8>, k: int) -> bool {
    match o {
        Some(x) => (x as int) < k,
        None => false,
    }
}

/// Entries of a prefix of the buckets are distinct and sit in buckets
/// below the prefix's end.
proof fn lemma_prefix_distinct(b: Seq<Seq<NodeEntry>>, local: NodeId, k: int)
    requires
        0 <= k <= b.len() <= 256,
        forall|i: int| 0 <= i < b.len() ==> #[trigger] ids_distinct(b[i]),
        forall|i: int, j: int|
            0 <= i < b.len() && 0 <= j < b[i].len() ==> bucket_for(local, #[trigger] b[i][j].id)
                == Some(i as u8),
    ensures
        ids_distinct(b.take(k).flatten()),
        forall|p: int|
            0 <= p < b.take(k).flatten().len() ==> below(
                #[trigger] bucket_for(local, b.take(k).flatten()[p].id),
                k,
            ),
    decreases k,
{
    if k == 0 {
        assert(b.take(0) =~= Seq::<Seq<NodeEntry>>::empty());
    } else {
        lemma_prefix_distinct(b, local, k - 1);
        let f = b.take(k - 1).flatten();
        assert(b.take(k) =~= b.take(k - 1).push(b[k - 1]));
        b.take(k - 1).lemma_flatten_push(b[k - 1]);
        let g = b.take(k).flatten();
        assert(g =~= f + b[k - 1]);
        let last = b[k - 1];
        assert(ids_distinct(last));
        assert forall|p: int| 0 <= p < g.len() implies below(
            #[trigger] bucket_for(local, g[p].id),
            k,
        ) by {
            if p >= f.len() {
                assert(g[p] == last[p - f.len()]);
            } else {
                assert(g[p] == f[p]);
            }
        }
        assert forall|p: int, q: int| 0 <= p < q < g.len() implies g[p].id != g[q].id by {
            if q < f.len() {
                assert(g[p] == f[p] && g[q] == f[q]);
            } else if p >= f.len() {
                assert(g[p] == last[p - f.len()] && g[q] == last[q - f.len()]);
            } else {
                assert(g[p] == f[p] && g[q] == last[q - f.len()]);
                assert(below(bucket_for(local, f[p].id), k - 1));
                assert(bucket_for(local, last[q - f.len()].id) == Some((k - 1) as u8));
            }
        }
    }
}

/// Every identifier of `r` is `extra` or one of `s`.
pub open spec fn ids_from(r: Seq<NodeEntry>, s: Seq<NodeEntry>, extra: NodeId) -> bool {
    forall|p: int| 0 <= p < r.len() ==> r[p].id == extra || has_id(s, #[trigger] r[p].id)
}

/// Placing adds only the newcomer's identifier.
proof fn lemma_place_ids(s: Seq<NodeEntry>, e: NodeEntry, ahead: bool)
    requires
        sorted_by_latency(s),
    ensures
        ids_from(place(s, e, ahead), s, e.id),
{
    lemma_place(s, e, ahead);
    let r = place(s, e, ahead);
    assert forall|p: int| 0 <= p < r.len() implies r[p].id == e.id || has_id(
        s,
        #[trigger] r[p].id,
    ) by {
        assert(r.contains(r[p]));
        if r[p] != e {
            assert(s.contains(r[p]));
            let q = choose|q: int| 0 <= q < s.len() && s[q] == r[p];
            assert(s[q].id == r[p].id);
        }
    }
}

/// Removing an entry adds no identifier.
proof fn lemma_remove_ids(s: Seq<NodeEntry>, j: int, extra: NodeId)
    requires
        0 <= j < s.len(),
    ensures
        ids_from(s.remove(j), s, extra),
        sorted_by_latency(s) ==> sorted_by_latency(s.remove(j)),
{
    let r = s.remove(j);
    assert forall|p: int| 0 <= p < r.len() implies r[p].id == extra || has_id(
        s,
        #[trigger] r[p].id,
    ) by {
        if p < j {
            assert(s[p].id == r[p].id);
        } else {
            assert(s[p + 1].id == r[p].id);
        }
    }
    if sorted_by_latency(s) {
        assert forall|a: int, b: int| 0 <= a < b < r.len() implies r[a].latency_key
            <= r[b].latency_key by {
            if a >= j {
                assert(r[a] == s[a + 1] && r[b] == s[b + 1]);
            } else if b >= j {
                assert(r[a] == s[a] && r[b] == s[b + 1]);
            }
        }
    }
}

/// An upsert adds only the identifier of the entry upserted.
proof fn lemma_upsert_ids(s: Seq<NodeEntry>, max: nat, e: NodeEntry)
    requires
        sorted_by_latency(s),
    ensures
        ids_from(spec_upsert(s, max, e).0, s, e.id),
{
    let r = spec_upsert(s, max, e).0;
    if has_id(s, e.id) {
        let i = index_of_id(s, e.id);
        let f = refreshed(s[i], e);
        if f.latency_key == s[i].latency_key {
            assert forall|p: int| 0 <= p < r.len() implies r[p].id == e.id || has_id(
                s,
                #[trigger] r[p].id,
            ) by {
                if p != i {
                    assert(r[p] == s[p]);
                }
            }
        } else {
            lemma_remove_ids(s, i, e.id);
            let m = s.remove(i);
            lemma_place_ids(m, f, f.latency_key > s[i].latency_key);
            assert forall|p: int| 0 <= p < r.len() implies r[p].id == e.id || has_id(
                s,
                #[trigger] r[p].id,
            ) by {
                if r[p].id != e.id {
                    assert(has_id(m, r[p].id));
                    let q = choose|q: int| 0 <= q < m.len() && m[q].id == r[p].id;
                    assert(m[q].id == e.id || has_id(s, m[q].id));
                }
            }
        }
    } else if s.len() < max {
        lemma_place_ids(s, e, false);
    } else if s.len() > 0 && e.latency_key < s.last().latency_key {
        let m = s.drop_last();
        assert(m == s.remove(s.len() - 1));
        lemma_remove_ids(s, s.len() - 1, e.id);
        lemma_place_ids(m, e, false);
        assert forall|p: int| 0 <= p < r.len() implies r[p].id == e.id || has_id(
            s,
            #[trigger] r[p].id,
        ) by {
            if r[p].id != e.id {
                assert(has_id(m, r[p].id));
                let q = choose|q: int| 0 <= q < m.len() && m[q].id == r[p].id;
                assert(m[q].id == e.id || has_id(s, m[q].id));
            }
        }
    } else {
        assert forall|p: int| 0 <= p < r.len() implies r[p].id == e.id || has_id(
            s,
            #[trigger] r[p].id,
        ) by {
            assert(s[p].id == r[p].id);
        }
    }
}

/// Law: upserting a node the bucket already holds refreshes its entry:
/// the node stays in the bucket, with no failures counted, the latency and
/// last-seen time of the upserted entry, and its address and type kept;
/// the bucket keeps its length.
pub proof fn lemma_upsert_refreshes(s: Seq<NodeEntry>, max: nat, e: NodeEntry)
    requires
        sorted_by_latency(s),
        ids_distinct(s),
        has_id(s, e.id),
    ensures
        spec_upsert(s, max, e).1,
        spec_upsert(s, max, e).0.len() == s.len(),
        exists|j: int|
            0 <= j < spec_upsert(s, max, e).0.len() && #[trigger] spec_upsert(s, max, e).0[j].id
                == e.id && spec_upsert(s, max, e).0[j].fail_count == 0 && spec_upsert(
                s,
                max,
                e,
            ).0[j].latency_key == e.latency_key && spec_upsert(s, max, e).0[j].last_seen_ms
                == e.last_seen_ms && spec_upsert(s, max, e).0[j].addr == s[index_of_id(
                s,
                e.id,
            )].addr && spec_upsert(s, max, e).0[j].node_type == s[index_of_id(s, e.id)].node_type,
{
    let r = spec_upsert(s, max, e).0;
    let i = index_of_id(s, e.id);
    let f = refreshed(s[i], e);
    if f.latency_key == s[i].latency_key {
        assert(r == s.update(i, f));
        assert(r[i] == f);
        assert(s[i].id == e.id);
        assert(r[i].id == e.id && r[i].fail_count == 0 && r[i].addr == s[i].addr);
    } else {
        lemma_remove_ids(s, i, e.id);
        let m = s.remove(i);
        let ahead = f.latency_key > s[i].latency_key;
        lemma_place(m, f, ahead);
        let p = place_from(m, f.latency_key, ahead, 0);
        assert(r == m.insert(p, f));
        assert(r[p] == f);
        assert(s[i].id == e.id);
        assert(r[p].id == e.id && r[p].fail_count == 0 && r[p].addr == s[i].addr);
    }
}

/// Law of the k-bucket upsert: `e` is accepted exactly when its node is
/// known, the bucket has room, or it is faster than the slowest entry; an
/// accepted entry is in the bucket afterwards; a refused one leaves the
/// bucket as it was; refreshing a known node keeps the length; and the
/// bucket never outgrows its room.
pub proof fn lemma_upsert_outcome(s: Seq<NodeEntry>, max: nat, e: NodeEntry)
    requires
        sorted_by_latency(s),
        ids_distinct(s),
        s.len() <= max,
    ensures
        spec_upsert(s, max, e).1 <==> (has_id(s, e.id) || s.len() < max || (s.len() > 0
            && e.latency_key < s.last().latency_key)),
        spec_upsert(s, max, e).1 ==> has_id(spec_upsert(s, max, e).0, e.id),
        !spec_upsert(s, max, e).1 ==> spec_upsert(s, max, e).0 == s,
        has_id(s, e.id) ==> spec_upsert(s, max, e).0.len() == s.len(),
        spec_upsert(s, max, e).0.len() <= max,
{
    let r = spec_upsert(s, max, e).0;
    if has_id(s, e.id) {
        let i = index_of_id(s, e.id);
        let f = refreshed(s[i], e);
        assert(f.id == e.id);
        if f.latency_key == s[i].latency_key {
            assert(r == s.update(i, f));
            assert(r[i] == f);
        } else {
            lemma_remove_ids(s, i, e.id);
            let m = s.remove(i);
            lemma_place(m, f, f.latency_key > s[i].latency_key);
            let ahead = f.latency_key > s[i].latency_key;
            let p = place_from(m, f.latency_key, ahead, 0);
            assert(r == m.insert(p, f));
            assert(r[p] == f);
        }
    } else if s.len() < max {
        lemma_place(s, e, false);
        let p = place_from(s, e.latency_key, false, 0);
        assert(r == s.insert(p, e));
        assert(r[p] == e);
    } else if s.len() > 0 && e.latency_key < s.last().latency_key {
        let m = s.drop_last();
        assert(m == s.remove(s.len() - 1));
        lemma_remove_ids(s, s.len() - 1, e.id);
        lemma_place(m, e, false);
        let p = place_from(m, e.latency_key, false, 0);
        assert(r == m.insert(p, e));
        assert(r[p] == e);
    }
}

/// Entries drawn from a bucket's own identifiers and one more of the
/// same class stay in that class.
proof fn lemma_class_kept(local: NodeId, r: Seq<NodeEntry>, s: Seq<NodeEntry>, extra: NodeId, i: u8)
    requires
        ids_from(r, s, extra),
        bucket_for(local, extra) == Some(i),
        forall|q: int| 0 <= q < s.len() ==> bucket_for(local, #[trigger] s[q].id) == Some(i),
    ensures
        forall|p: int| 0 <= p < r.len() ==> bucket_for(local, #[trigger] r[p].id) == Some(i),
{
    assert forall|p: int| 0 <= p < r.len() implies bucket_for(local, #[trigger] r[p].id) == Some(
        i,
    ) by {
        if r[p].id != extra {
            assert(has_id(s, r[p].id));
            let q = choose|q: int| 0 <= q < s.len() && s[q].id == r[p].id;
            assert(bucket_for(local, s[q].id) == Some(i));
        }
    }
}

/// Whether the entries are ordered strictly by distance to `target`,
/// nearest first.
pub open spec fn nearest_first(target: NodeId, s: Seq<NodeEntry>) -> bool {
    forall|a: int, b: int|
        0 <= a < b < s.len() ==> distance(target, s[a].id) < distance(target, s[b].id)
}

/// Take `e` into `out`, the nearest entries seen so far (at most `count`,
/// nearest first): it goes before the first farther entry, and the
/// farthest entry leaves when there are then more than `count`.
fn keep_nearest(out: &mut Vec<NodeEntry>, e: NodeEntry, target: &NodeId, count: usize)
    requires
        nearest_first(*target, old(out)@),
        old(out)@.len() <= count,
        forall|a: int|
            0 <= a < old(out)@.len() ==> distance(*target, old(out)@[a].id) != distance(
                *target,
                e.id,
            ),
    ensures
        nearest_first(*target, final(out)@),
        final(out)@.len() == if count < old(out)@.len() + 1 {
            count as int
        } else {
            old(out)@.len() + 1 as int
        },
        forall|a: int|
            0 <= a < final(out)@.len() ==> final(out)@[a] == e || old(out)@.contains(
                #[trigger] final(out)@[a],
            ),
        forall|x: NodeEntry|
            (old(out)@.contains(x) || x == e) && !final(out)@.contains(x) ==> forall|a: int|
                0 <= a < final(out)@.len() ==> distance(*target, final(out)@[a].id) < distance(
                    *target,
                    x.id,
                ),
        final(out)@.contains(e) && old(out)@.len() > 0 && old(out)@.len() >= count ==> distance(
            *target,
            e.id,
        ) < distance(*target, old(out)@[old(out)@.len() - 1].id),
        final(out)@.len() < count ==> final(out)@.contains(e) && forall|x: NodeEntry|
            old(out)@.contains(x) ==> final(out)@.contains(x),
{
    let ghost o = out@;
    let mut p: usize = 0;
    while p < out.len() && !closer(target, &e.id, &out[p].id)
        invariant
            out@ == o,
            p <= o.len(),
            forall|a: int| 0 <= a < p ==> distance(*target, o[a].id) < distance(*target, e.id),
            forall|a: int| 0 <= a < o.len() ==> distance(*target, o[a].id) != distance(*target, e.id),
        decreases o.len() - p,
    {
        p = p + 1;
    }
    // every entry from p on is farther than e
    assert forall|a: int| p <= a < o.len() implies distance(*target, e.id) < distance(
        *target,
        o[a].id,
    ) by {
        if a > p {
            assert(distance(*target, o[p as int].id) < distance(*target, o[a].id));
        }
    }
    if p < count {
        out.insert(p, e);
        let ghost ins = out@;
        proof {
            assert(ins == o.insert(p as int, e));
            assert(ins[p as int] == e);
            assert forall|a: int, b: int| 0 <= a < b < ins.len() implies distance(
                *target,
                ins[a].id,
            ) < distance(*target, ins[b].id) by {
                if a < p && b == p {
                } else if a == p && b > p {
                    assert(ins[b] == o[b - 1]);
                } else if b < p {
                    assert(ins[a] == o[a] && ins[b] == o[b]);
                } else if a > p {
                    assert(ins[a] == o[a - 1] && ins[b] == o[b - 1]);
                } else {
                    assert(ins[a] == o[a] && ins[b] == o[b - 1]);
                }
            }
            assert forall|x: NodeEntry| o.contains(x) implies ins.contains(x) by {
                let w = choose|w: int| 0 <= w < o.len() && o[w] == x;
                if w < p {
                    assert(ins[w] == x);
                } else {
                    assert(ins[w + 1] == x);
                }
            }
            assert forall|a: int| 0 <= a < ins.len() implies ins[a] == e || o.contains(
                #[trigger] ins[a],
            ) by {
                if a < p {
                    assert(ins[a] == o[a]);
                } else if a > p {
                    assert(ins[a] == o[a - 1]);
                }
            }
        }
        if out.len() > count {
            out.pop();
            proof {
                let fin = out@;
                assert(fin == ins.drop_last());
                let last = ins[ins.len() - 1];
                assert(last == o[o.len() - 1]);
                assert forall|x: NodeEntry|
                    (o.contains(x) || x == e) && !fin.contains(x) implies forall|a: int|
                    0 <= a < fin.len() ==> distance(*target, fin[a].id) < distance(
                        *target,
                        x.id,
                    ) by {
                    assert(ins.contains(x));
                    let w = choose|w: int| 0 <= w < ins.len() && ins[w] == x;
                    if w < fin.len() {
                        assert(fin[w] == x);
                    }
                    assert forall|a: int| 0 <= a < fin.len() implies distance(*target, fin[a].id)
                        < distance(*target, x.id) by {
                        assert(fin[a] == ins[a]);
                    }
                }
                assert forall|a: int| 0 <= a < fin.len() implies fin[a] == e || o.contains(
                    #[trigger] fin[a],
                ) by {
                    assert(fin[a] == ins[a]);
                }
                assert forall|a: int, b: int| 0 <= a < b < fin.len() implies distance(
                    *target,
                    fin[a].id,
                ) < distance(*target, fin[b].id) by {
                    assert(fin[a] == ins[a] && fin[b] == ins[b]);
                }
                if fin.contains(e) && o.len() > 0 && o.len() >= count {
                    assert(p < o.len());
                }
            }
        } else {
            proof {
                assert(ins.contains(e));
                if o.len() > 0 && o.len() >= count {
                    assert(p < o.len());
                }
            }
        }
    } else {
        proof {
            if o.contains(e) {
                let w = choose|w: int| 0 <= w < o.len() && o[w] == e;
                assert(distance(*target, o[w].id) != distance(*target, e.id));
            }
        }
    }
}

/// Whether bucket `b` is the populated bucket nearest to bucket `idx`,
/// the one above winning over the one below at the same gap.
pub open spec fn nearest_filled(bs: Seq<Seq<NodeEntry>>, idx: int, b: int) -> bool {
    &&& 0 <= b < bs.len()
    &&& bs[b].len() > 0
    &&& forall|j: int| 0 <= j < bs.len() && gap(j, idx) < gap(b, idx) ==> (#[trigger] bs[j]).len() == 0
    &&& b < idx ==> (2 * idx - b >= bs.len() || bs[2 * idx - b].len() == 0)
}

/// Whether a node last seen at `e.last_seen_ms` has been silent for more
/// than [`STALE_PING_MS`] at `now_ms` (a last-seen time after `now_ms`
/// counts as no silence).
pub open spec fn is_stale(e: NodeEntry, now_ms: u64) -> bool {
    now_ms > e.last_seen_ms && now_ms - e.last_seen_ms > STALE_PING_MS
}

/// The 256 buckets of a node's view of the network.
pub struct RoutingTable {
    buckets: Vec<KBucket>,
    local_id: NodeId,
    local_addr: NodeAddr,
    total_nodes: usize,
    local_type: NodeType,
}

impl RoutingTable {
    /// The entries of each bucket.
    pub closed spec fn spec_buckets(&self) -> Seq<Seq<NodeEntry>> {
        Seq::new(self.buckets@.len(), |i: int| self.buckets@[i].spec_entries())
    }

    /// The local node's identifier.
    pub closed spec fn spec_local_id(&self) -> NodeId {
        self.local_id
    }

    /// The local node's address.
    pub closed spec fn spec_local_addr(&self) -> NodeAddr {
        self.local_addr
    }

    /// The local node's type.
    pub closed spec fn spec_local_type(&self) -> NodeType {
        self.local_type
    }

    /// Every bucket has room for `K` entries and the node count is kept.
    pub closed spec fn spec_bookkeeping(&self) -> bool {
        &&& forall|i: int| 0 <= i < self.buckets@.len() ==> #[trigger] self.buckets@[i].wf()
        &&& self.total_nodes == self.spec_entries().len()
    }

    /// All entries, bucket by bucket, each bucket fastest first.
    pub open spec fn spec_entries(&self) -> Seq<NodeEntry> {
        self.spec_buckets().flatten()
    }

    /// The bucket of `id` in this table.
    pub open spec fn bucket_of(&self, id: NodeId) -> Option<u8> {
        bucket_for(self.spec_local_id(), id)
    }

    /// 256 buckets, each ordered by latency with no node twice and at most
    /// `K` entries, each entry in the bucket of its distance class.
    pub open spec fn wf(&self) -> bool {
        let b = self.spec_buckets();
        &&& b.len() == BUCKET_COUNT
        &&& forall|i: int|
            0 <= i < b.len() ==> {
                &&& sorted_by_latency(#[trigger] b[i])
                &&& ids_distinct(b[i])
                &&& b[i].len() <= K
            }
        &&& forall|i: int, j: int|
            0 <= i < b.len() && 0 <= j < b[i].len() ==> self.bucket_of(#[trigger] b[i][j].id)
                == Some(i as u8)
        &&& self.spec_bookkeeping()
    }

    /// Number of entries of the buckets up to `k`, summed.
    fn count_prefix(&self) -> (n: usize)
        requires
            self.buckets@.len() == BUCKET_COUNT,
            forall|i: int| 0 <= i < self.buckets@.len() ==> #[trigger] self.buckets@[i].wf(),
        ensures
            n == self.spec_entries().len(),
    {
        let ghost b = self.spec_buckets();
        let mut sum: usize = 0;
        let mut k: usize = 0;
        while k < self.buckets.len()
            invariant
                b == self.spec_buckets(),
                self.buckets@.len() == BUCKET_COUNT,
                forall|i: int| 0 <= i < self.buckets@.len() ==> #[trigger] self.buckets@[i].wf(),
                k <= BUCKET_COUNT,
                sum == b.take(k as int).flatten().len(),
                sum <= k * K,
            decreases BUCKET_COUNT - k,
        {
            let len: usize = self.buckets[k].len();
            proof {
                assert(self.buckets@[k as int].wf());
                assert(b[k as int] == self.buckets@[k as int].spec_entries());
                assert(b.take(k + 1) =~= b.take(k as int).push(b[k as int]));
                b.take(k as int).lemma_flatten_push(b[k as int]);
            }
            sum = sum + len;
            k = k + 1;
        }
        assert(b.take(BUCKET_COUNT as int) =~= b);
        sum
    }

    /// An empty table for the local node.
    pub fn new(local_id: NodeId, local_addr: NodeAddr, local_type: NodeType) -> (t: Self)
        ensures
            t.wf(),
            t.spec_local_id() == local_id,
            t.spec_local_addr() == local_addr,
            t.spec_local_type() == local_type,
            forall|i: int| 0 <= i < BUCKET_COUNT ==> (#[trigger] t.spec_buckets()[i]).len() == 0,
            t.spec_entries().len() == 0,
    {
        let mut buckets: Vec<KBucket> = Vec::new();
        let mut i: usize = 0;
        while i < BUCKET_COUNT
            invariant
                i <= BUCKET_COUNT,
                buckets@.len() == i,
                forall|j: int| 0 <= j < i ==> (#[trigger] buckets@[j]).wf() && buckets@[j].spec_entries().len() == 0,
            decreases BUCKET_COUNT - i,
        {
            buckets.push(KBucket::new());
            i = i + 1;
        }
        let t = RoutingTable { buckets, local_id, local_addr, total_nodes: 0, local_type };
        proof {
            let b = t.spec_buckets();
            assert forall|j: int| 0 <= j < b.len() implies b[j] =~= Seq::<NodeEntry>::empty() by {
                assert(t.buckets@[j].spec_entries().len() == 0);
            }
            assert(b =~= Seq::new(256, |j: int| Seq::<NodeEntry>::empty()));
            lemma_flatten_all_empty(b);
        }
        t
    }

    /// The local node's identifier.
    pub fn local_id(&self) -> (id: NodeId)
        ensures
            id == self.spec_local_id(),
    {
        self.local_id
    }

    /// The local node's address.
    pub fn local_addr(&self) -> (a: NodeAddr)
        ensures
            a == self.spec_local_addr(),
    {
        self.local_addr
    }

    /// The local node's type.
    pub fn local_type(&self) -> (t: NodeType)
        ensures
            t == self.spec_local_type(),
    {
        self.local_type
    }

    /// Where the node `id` sits: its bucket and its position there.
    pub open spec fn locate(&self, id: NodeId) -> Option<(int, int)> {
        match self.bucket_of(id) {
            Some(i) => if has_id(self.spec_buckets()[i as int], id) {
                Some((i as int, index_of_id(self.spec_buckets()[i as int], id)))
            } else {
                None
            },
            None => None,
        }
    }

    /// The position of `id` in its bucket, found by search.
    fn find_in(&self, id: &NodeId) -> (r: Option<(usize, usize)>)
        requires
            self.wf(),
        ensures
            match self.locate(*id) {
                Some((i, j)) => r == Some((i as usize, j as usize)),
                None => r is None,
            },
            r matches Some((i, j)) ==> i < BUCKET_COUNT && j < self.spec_buckets()[i as int].len(),
    {
        match self.local_id.bucket_index(id) {
            None => None,
            Some(b) => {
                let i: usize = b as usize;
                proof {
                    assert(self.buckets@[i as int].wf());
                    assert(self.spec_buckets()[i as int] == self.buckets@[i as int].spec_entries());
                }
                match self.buckets[i].find(id) {
                    None => None,
                    Some(j) => {
                        proof {
                            let s = self.spec_buckets()[i as int];
                            let c = index_of_id(s, *id);
                            assert(c == j as int) by {
                                if c != j as int {
                                    if c < j as int {
                                    } else {
                                    }
                                }
                            }
                        }
                        Some((i, j))
                    },
                }
            },
        }
    }

    /// The entry for the node `id`, if the table holds it.
    pub fn lookup(&self, id: &NodeId) -> (r: Option<NodeEntry>)
        requires
            self.wf(),
        ensures
            match self.locate(*id) {
                Some((i, j)) => r == Some(self.spec_buckets()[i][j]),
                None => r is None,
            },
    {
        match self.find_in(id) {
            None => None,
            Some((i, j)) => {
                proof {
                    assert(self.spec_buckets()[i as int] == self.buckets@[i as int].spec_entries());
                }
                Some(self.buckets[i].entries()[j])
            },
        }
    }

    /// Put back bucket `i` after it was taken out and changed; the node
    /// count is recomputed.
    fn put_back(&mut self, i: usize, b: KBucket, ghost_before: Ghost<Seq<KBucket>>)
        requires
            i < BUCKET_COUNT,
            ghost_before@.len() == BUCKET_COUNT,
            old(self).buckets@ == ghost_before@.remove(i as int),
            b.wf(),
            forall|j: int| 0 <= j < ghost_before@.len() ==> #[trigger] ghost_before@[j].wf(),
        ensures
            final(self).buckets@ == ghost_before@.update(i as int, b),
            final(self).local_id == old(self).local_id,
            final(self).local_addr == old(self).local_addr,
            final(self).local_type == old(self).local_type,
            final(self).spec_bookkeeping(),
    {
        self.buckets.insert(i, b);
        proof {
            assert(self.buckets@ =~= ghost_before@.update(i as int, b));
            assert forall|j: int| 0 <= j < self.buckets@.len() implies #[trigger] self.buckets@[j].wf() by {
                if j != i as int {
                    assert(self.buckets@[j] == ghost_before@[j]);
                }
            }
        }
        self.total_nodes = self.count_prefix();
    }

    /// The table is well formed once its buckets are and each entry sits in
    /// the bucket of its class.
    proof fn lemma_wf_from_parts(&self)
        requires
            self.buckets@.len() == BUCKET_COUNT,
            self.spec_bookkeeping(),
            forall|i: int, j: int|
                0 <= i < self.spec_buckets().len() && 0 <= j < self.spec_buckets()[i].len()
                    ==> self.bucket_of(#[trigger] self.spec_buckets()[i][j].id) == Some(i as u8),
        ensures
            self.wf(),
    {
        let b = self.spec_buckets();
        assert forall|i: int| 0 <= i < b.len() implies {
            &&& sorted_by_latency(#[trigger] b[i])
            &&& ids_distinct(b[i])
            &&& b[i].len() <= K
        } by {
            assert(self.buckets@[i].wf());
            assert(b[i] == self.buckets@[i].spec_entries());
        }
    }

    /// Insert `entry`, or refresh the entry for its node, in the bucket of
    /// its class (see [`spec_upsert`]); the local node itself is refused.
    /// Returns whether the entry was accepted.
    pub fn insert(&mut self, entry: NodeEntry) -> (ok: bool)
        requires
            old(self).wf(),
        ensures
            final(self).wf(),
            final(self).spec_local_id() == old(self).spec_local_id(),
            final(self).spec_local_addr() == old(self).spec_local_addr(),
            final(self).spec_local_type() == old(self).spec_local_type(),
            match old(self).bucket_of(entry.id) {
                Some(i) => {
                    let (nb, accepted) = spec_upsert(
                        old(self).spec_buckets()[i as int],
                        K as nat,
                        entry,
                    );
                    &&& ok == accepted
                    &&& final(self).spec_buckets() == old(self).spec_buckets().update(i as int, nb)
                },
                None => !ok && final(self).spec_buckets() == old(self).spec_buckets(),
            },
    {
        match self.local_id.bucket_index(&entry.id) {
            None => false,
            Some(bi) => {
                let i: usize = bi as usize;
                let ghost before = self.buckets@;
                let ghost ob = self.spec_buckets();
                proof {
                    assert(before[i as int].wf());
                    assert(ob[i as int] == before[i as int].spec_entries());
                }
                let mut b = self.buckets.remove(i);
                let ok = b.upsert(entry);
                self.put_back(i, b, Ghost(before));
                proof {
                    let nb = self.spec_buckets();
                    assert(nb =~= ob.update(i as int, b.spec_entries()));
                    lemma_upsert_ids(ob[i as int], K as nat, entry);
                    assert forall|q: int| 0 <= q < ob[i as int].len() implies bucket_for(
                        self.local_id,
                        #[trigger] ob[i as int][q].id,
                    ) == Some(bi) by {}
                    lemma_class_kept(self.local_id, nb[i as int], ob[i as int], entry.id, bi);
                    assert forall|x: int, y: int|
                        0 <= x < nb.len() && 0 <= y < nb[x].len() implies self.bucket_of(
                        #[trigger] nb[x][y].id,
                    ) == Some(x as u8) by {
                        if x != i as int {
                            assert(nb[x] == ob[x]);
                        }
                    }
                    self.lemma_wf_from_parts();
                }
                ok
            },
        }
    }

    /// Remove the node `id`; returns whether it was in the table.
    pub fn remove(&mut self, id: &NodeId) -> (ok: bool)
        requires
            old(self).wf(),
        ensures
            final(self).wf(),
            final(self).spec_local_id() == old(self).spec_local_id(),
            final(self).spec_local_addr() == old(self).spec_local_addr(),
            final(self).spec_local_type() == old(self).spec_local_type(),
            match old(self).locate(*id) {
                Some((i, j)) => ok && final(self).spec_buckets() == old(self).spec_buckets().update(
                    i,
                    old(self).spec_buckets()[i].remove(j),
                ),
                None => !ok && final(self).spec_buckets() == old(self).spec_buckets(),
            },
    {
        match self.find_in(id) {
            None => false,
            Some((i, j)) => {
                let ghost before = self.buckets@;
                let ghost ob = self.spec_buckets();
                proof {
                    assert(before[i as int].wf());
                    assert(ob[i as int] == before[i as int].spec_entries());
                }
                let mut b = self.buckets.remove(i);
                b.remove_at(j);
                self.put_back(i, b, Ghost(before));
                proof {
                    let nb = self.spec_buckets();
                    assert(nb =~= ob.update(i as int, ob[i as int].remove(j as int)));
                    lemma_remove_ids(ob[i as int], j as int, *id);
                    let bi = i as u8;
                    assert(ob[i as int][j as int].id == *id);
                    assert(bucket_for(self.local_id, *id) == Some(bi));
                    assert forall|q: int| 0 <= q < ob[i as int].len() implies bucket_for(
                        self.local_id,
                        #[trigger] ob[i as int][q].id,
                    ) == Some(bi) by {}
                    lemma_class_kept(self.local_id, nb[i as int], ob[i as int], *id, bi);
                    assert forall|x: int, y: int|
                        0 <= x < nb.len() && 0 <= y < nb[x].len() implies self.bucket_of(
                        #[trigger] nb[x][y].id,
                    ) == Some(x as u8) by {
                        if x != i as int {
                            assert(nb[x] == ob[x]);
                        }
                    }
                    self.lemma_wf_from_parts();
                }
                true
            },
        }
    }

    /// Store a new latency for the node `id` (already blended with the old
    /// one by the caller), mark it seen at `now_ms`, clear its failures and
    /// move it to its place in its bucket. Nothing happens for an unknown
    /// node.
    pub fn record_latency(&mut self, id: &NodeId, latency_key: u32, now_ms: u64)
        requires
            old(self).wf(),
        ensures
            final(self).wf(),
            final(self).spec_local_id() == old(self).spec_local_id(),
            final(self).spec_local_addr() == old(self).spec_local_addr(),
            final(self).spec_local_type() == old(self).spec_local_type(),
            match old(self).locate(*id) {
                Some((i, j)) => final(self).spec_buckets() == old(self).spec_buckets().update(
                    i,
                    reposition(
                        old(self).spec_buckets()[i],
                        j,
                        NodeEntry {
                            latency_key,
                            last_seen_ms: now_ms,
                            fail_count: 0,
                            ..old(self).spec_buckets()[i][j]
                        },
                    ),
                ),
                None => final(self).spec_buckets() == old(self).spec_buckets(),
            },
    {
        match self.find_in(id) {
            None => {},
            Some((i, j)) => {
                let ghost before = self.buckets@;
                let ghost ob = self.spec_buckets();
                proof {
                    assert(before[i as int].wf());
                    assert(ob[i as int] == before[i as int].spec_entries());
                }
                let mut b = self.buckets.remove(i);
                let cur = b.entries[j];
                let fresh = NodeEntry { latency_key, last_seen_ms: now_ms, fail_count: 0, ..cur };
                b.reposition_at(j, fresh);
                self.put_back(i, b, Ghost(before));
                proof {
                    let nb = self.spec_buckets();
                    let s = ob[i as int];
                    assert(nb =~= ob.update(i as int, reposition(s, j as int, fresh)));
                    let bi = i as u8;
                    assert(s[j as int].id == *id);
                    assert(bucket_for(self.local_id, *id) == Some(bi));
                    assert forall|q: int| 0 <= q < s.len() implies bucket_for(
                        self.local_id,
                        #[trigger] s[q].id,
                    ) == Some(bi) by {}
                    let r = nb[i as int];
                    assert(ids_from(r, s, *id)) by {
                        if fresh.latency_key == s[j as int].latency_key {
                            assert forall|p: int| 0 <= p < r.len() implies r[p].id == *id || has_id(
                                s,
                                #[trigger] r[p].id,
                            ) by {
                                if p != j as int {
                                    assert(r[p] == s[p]);
                                }
                            }
                        } else {
                            let m = s.remove(j as int);
                            lemma_remove_ids(s, j as int, *id);
                            lemma_place_ids(m, fresh, fresh.latency_key > s[j as int].latency_key);
                            assert forall|p: int| 0 <= p < r.len() implies r[p].id == *id || has_id(
                                s,
                                #[trigger] r[p].id,
                            ) by {
                                if r[p].id != *id {
                                    assert(has_id(m, r[p].id));
                                    let q = choose|q: int| 0 <= q < m.len() && m[q].id == r[p].id;
                                    assert(m[q].id == *id || has_id(s, m[q].id));
                                }
                            }
                        }
                    }
                    lemma_class_kept(self.local_id, r, s, *id, bi);
                    assert forall|x: int, y: int|
                        0 <= x < nb.len() && 0 <= y < nb[x].len() implies self.bucket_of(
                        #[trigger] nb[x][y].id,
                    ) == Some(x as u8) by {
                        if x != i as int {
                            assert(nb[x] == ob[x]);
                        }
                    }
                    self.lemma_wf_from_parts();
                }
            },
        }
    }

    /// Count a failure of the node `id`; a node that has failed
    /// `MAX_FAILURES` times is dropped. Nothing happens for an unknown node.
    pub fn record_failure(&mut self, id: &NodeId)
        requires
            old(self).wf(),
            old(self).locate(*id) matches Some((i, j)) ==> old(self).spec_buckets()[i][j].fail_count
                < u32::MAX,
        ensures
            final(self).wf(),
            final(self).spec_local_id() == old(self).spec_local_id(),
            final(self).spec_local_addr() == old(self).spec_local_addr(),
            final(self).spec_local_type() == old(self).spec_local_type(),
            match old(self).locate(*id) {
                Some((i, j)) => {
                    let s = old(self).spec_buckets()[i];
                    let failed = NodeEntry { fail_count: (s[j].fail_count + 1) as u32, ..s[j] };
                    final(self).spec_buckets() == old(self).spec_buckets().update(
                        i,
                        if failed.fail_count >= MAX_FAILURES {
                            s.remove(j)
                        } else {
                            s.update(j, failed)
                        },
                    )
                },
                None => final(self).spec_buckets() == old(self).spec_buckets(),
            },
    {
        match self.find_in(id) {
            None => {},
            Some((i, j)) => {
                let ghost before = self.buckets@;
                let ghost ob = self.spec_buckets();
                proof {
                    assert(before[i as int].wf());
                    assert(ob[i as int] == before[i as int].spec_entries());
                }
                let mut b = self.buckets.remove(i);
                let mut cur = b.entries[j];
                cur.record_failure();
                if cur.is_dead() {
                    b.remove_at(j);
                } else {
                    b.reposition_at(j, cur);
                }
                self.put_back(i, b, Ghost(before));
                proof {
                    let nb = self.spec_buckets();
                    let s = ob[i as int];
                    let bi = i as u8;
                    assert(s[j as int].id == *id);
                    assert(bucket_for(self.local_id, *id) == Some(bi));
                    assert forall|q: int| 0 <= q < s.len() implies bucket_for(
                        self.local_id,
                        #[trigger] s[q].id,
                    ) == Some(bi) by {}
                    let r = nb[i as int];
                    if cur.fail_count >= MAX_FAILURES {
                        assert(nb =~= ob.update(i as int, s.remove(j as int)));
                        lemma_remove_ids(s, j as int, *id);
                    } else {
                        assert(nb =~= ob.update(i as int, s.update(j as int, cur)));
                        assert forall|p: int| 0 <= p < r.len() implies r[p].id == *id || has_id(
                            s,
                            #[trigger] r[p].id,
                        ) by {
                            if p != j as int {
                                assert(r[p] == s[p]);
                            }
                        }
                    }
                    lemma_class_kept(self.local_id, r, s, *id, bi);
                    assert forall|x: int, y: int|
                        0 <= x < nb.len() && 0 <= y < nb[x].len() implies self.bucket_of(
                        #[trigger] nb[x][y].id,
                    ) == Some(x as u8) by {
                        if x != i as int {
                            assert(nb[x] == ob[x]);
                        }
                    }
                    self.lemma_wf_from_parts();
                }
            },
        }
    }

    /// All nodes, bucket by bucket, each bucket fastest first.
    pub fn all_nodes(&self) -> (v: Vec<NodeEntry>)
        requires
            self.wf(),
        ensures
            v@ == self.spec_entries(),
    {
        let ghost b = self.spec_buckets();
        let mut v: Vec<NodeEntry> = Vec::new();
        let mut k: usize = 0;
        while k < self.buckets.len()
            invariant
                b == self.spec_buckets(),
                self.wf(),
                k <= BUCKET_COUNT,
                v@ == b.take(k as int).flatten(),
            decreases BUCKET_COUNT - k,
        {
            let es = self.buckets[k].entries();
            proof {
                assert(es@ == b[k as int]);
            }
            let mut j: usize = 0;
            while j < es.len()
                invariant
                    k < BUCKET_COUNT,
                    es@ == b[k as int],
                    j <= es@.len(),
                    v@ == b.take(k as int).flatten() + es@.take(j as int),
                decreases es@.len() - j,
            {
                v.push(es[j]);
                j = j + 1;
                proof {
                    assert(es@.take(j as int) =~= es@.take(j - 1).push(es@[j - 1]));
                    assert(v@ =~= b.take(k as int).flatten() + es@.take(j as int));
                }
            }
            proof {
                assert(es@.take(j as int) =~= es@);
                assert(b.take(k + 1) =~= b.take(k as int).push(b[k as int]));
                b.take(k as int).lemma_flatten_push(b[k as int]);
            }
            k = k + 1;
        }
        proof {
            assert(b.take(BUCKET_COUNT as int) =~= b);
        }
        v
    }

    /// The `count` nodes nearest to `target` by XOR distance, nearest
    /// first (all of them when there are fewer).
    pub fn nearest_nodes(&self, target: &NodeId, count: usize) -> (r: Vec<NodeEntry>)
        requires
            self.wf(),
        ensures
            r@.len() == if count < self.spec_entries().len() {
                count as int
            } else {
                self.spec_entries().len() as int
            },
            forall|a: int, b: int|
                0 <= a < b < r@.len() ==> distance(*target, r@[a].id) < distance(
                    *target,
                    r@[b].id,
                ),
            forall|a: int| 0 <= a < r@.len() ==> self.spec_entries().contains(#[trigger] r@[a]),
            forall|q: int|
                0 <= q < self.spec_entries().len() && !r@.contains(#[trigger] self.spec_entries()[q])
                    ==> forall|a: int|
                    0 <= a < r@.len() ==> distance(*target, r@[a].id) < distance(
                        *target,
                        self.spec_entries()[q].id,
                    ),
    {
        let all = self.all_nodes();
        proof {
            lemma_entries_distinct(self);
        }
        let ghost d = all@;
        let mut out: Vec<NodeEntry> = Vec::new();
        let mut k: usize = 0;
        while k < all.len()
            invariant
                d == all@,
                d == self.spec_entries(),
                ids_distinct(d),
                k <= d.len(),
                out@.len() == if count < k {
                    count as int
                } else {
                    k as int
                },
                nearest_first(*target, out@),
                forall|a: int|
                    0 <= a < out@.len() ==> exists|q: int|
                        0 <= q < k && d[q] == #[trigger] out@[a],
                forall|q: int|
                    0 <= q < k && !out@.contains(#[trigger] d[q]) ==> forall|a: int|
                        0 <= a < out@.len() ==> distance(*target, out@[a].id) < distance(
                            *target,
                            d[q].id,
                        ),
                forall|q: int| 0 <= q < k && !out@.contains(#[trigger] d[q]) ==> out@.len() == count,
            decreases d.len() - k,
        {
            let e = all[k];
            let ghost old_out = out@;
            proof {
                assert forall|a: int| 0 <= a < old_out.len() implies distance(
                    *target,
                    old_out[a].id,
                ) != distance(*target, e.id) by {
                    let q = choose|q: int| 0 <= q < k && d[q] == old_out[a];
                    assert(d[q].id != d[k as int].id);
                    lemma_distance_injective(*target, d[q].id, e.id);
                }
            }
            keep_nearest(&mut out, e, target, count);
            proof {
                let no = out@;
                assert forall|a: int| 0 <= a < no.len() implies exists|q: int|
                    0 <= q < k + 1 && d[q] == #[trigger] no[a] by {
                    if no[a] == e {
                        assert(d[k as int] == no[a]);
                    } else {
                        let w = choose|w: int| 0 <= w < old_out.len() && old_out[w] == no[a];
                        let q = choose|q: int| 0 <= q < k && d[q] == old_out[w];
                        assert(d[q] == no[a]);
                    }
                }
                assert forall|q: int|
                    0 <= q < k + 1 && !no.contains(#[trigger] d[q]) implies forall|a: int|
                    0 <= a < no.len() ==> distance(*target, no[a].id) < distance(
                        *target,
                        d[q].id,
                    ) by {
                    if q < k && !old_out.contains(d[q]) && no.len() > 0 {
                        assert forall|a: int| 0 <= a < no.len() implies distance(
                            *target,
                            no[a].id,
                        ) < distance(*target, d[q].id) by {
                            if no[a] == e {
                                assert(no.contains(e));
                                assert(distance(*target, old_out[old_out.len() - 1].id) < distance(
                                    *target,
                                    d[q].id,
                                ));
                            } else {
                                let w = choose|w: int| 0 <= w < old_out.len() && old_out[w] == no[a];
                            }
                        }
                    }
                }
                assert forall|q: int|
                    0 <= q < k + 1 && !no.contains(#[trigger] d[q]) implies no.len() == count by {
                    if q == k {
                    } else if old_out.contains(d[q]) {
                    } else {
                    }
                }
            }
            k = k + 1;
        }
        proof {
            assert forall|a: int| 0 <= a < out@.len() implies d.contains(#[trigger] out@[a]) by {
                let q = choose|q: int| 0 <= q < k && d[q] == out@[a];
            }
        }
        out
    }

    /// The fastest node of the populated bucket nearest to the bucket of
    /// `target` (see [`nearest_filled`]); `None` for the local node itself or
    /// an empty table.
    pub fn closest_fast(&self, target: &NodeId) -> (r: Option<NodeEntry>)
        requires
            self.wf(),
        ensures
            match self.bucket_of(*target) {
                None => r is None,
                Some(idx) => match r {
                    None => forall|j: int|
                        0 <= j < BUCKET_COUNT ==> (#[trigger] self.spec_buckets()[j]).len() == 0,
                    Some(e) => exists|b: int|
                        nearest_filled(self.spec_buckets(), idx as int, b) && e
                            == #[trigger] self.spec_buckets()[b][0],
                },
            },
    {
        let ghost bs = self.spec_buckets();
        let idx: usize = match self.local_id.bucket_index(target) {
            None => {
                return None;
            },
            Some(i) => i as usize,
        };
        let mut offset: usize = 0;
        while offset < BUCKET_COUNT
            invariant
                bs == self.spec_buckets(),
                self.wf(),
                idx < BUCKET_COUNT,
                self.bucket_of(*target) == Some(idx as u8),
                offset <= BUCKET_COUNT,
                forall|j: int|
                    0 <= j < BUCKET_COUNT && gap(j, idx as int) < offset ==> (
                    #[trigger] bs[j]).len() == 0,
            decreases BUCKET_COUNT - offset,
        {
            let up: usize = idx + offset;
            if up < BUCKET_COUNT {
                proof {
                    assert(bs[up as int] == self.buckets@[up as int].spec_entries());
                }
                match self.buckets[up].fastest() {
                    Some(f) => {
                        proof {
                            assert(nearest_filled(bs, idx as int, up as int));
                            assert(*f == self.spec_buckets()[up as int][0]);
                        }
                        return Some(*f);
                    },
                    None => {},
                }
            }
            if idx >= offset {
                let down: usize = idx - offset;
                proof {
                    assert(bs[down as int] == self.buckets@[down as int].spec_entries());
                }
                match self.buckets[down].fastest() {
                    Some(f) => {
                        proof {
                            assert(nearest_filled(bs, idx as int, down as int));
                            assert(*f == self.spec_buckets()[down as int][0]);
                        }
                        return Some(*f);
                    },
                    None => {},
                }
            }
            offset = offset + 1;
        }
        None
    }

    /// Addresses of the nodes not heard from for more than
    /// [`STALE_PING_MS`] at `now_ms`, in table order.
    pub fn stale_addrs(&self, now_ms: u64) -> (v: Vec<NodeAddr>)
        requires
            self.wf(),
        ensures
            v@ == self.spec_entries().filter(|e: NodeEntry| is_stale(e, now_ms)).map_values(
                |e: NodeEntry| e.addr,
            ),
    {
        let all = self.all_nodes();
        let ghost d = all@;
        let ghost pred = |e: NodeEntry| is_stale(e, now_ms);
        let mut v: Vec<NodeAddr> = Vec::new();
        let mut k: usize = 0;
        while k < all.len()
            invariant
                d == all@,
                pred == (|e: NodeEntry| is_stale(e, now_ms)),
                k <= d.len(),
                v@ == d.take(k as int).filter(pred).map_values(|e: NodeEntry| e.addr),
            decreases d.len() - k,
        {
            let e = all[k];
            proof {
                assert(d.take(k + 1) =~= d.take(k as int).push(e));
                d.take(k as int).lemma_filter_push(e, pred);
            }
            if now_ms > e.last_seen_ms && now_ms - e.last_seen_ms > STALE_PING_MS {
                v.push(e.addr);
                proof {
                    assert(v@ =~= d.take(k + 1).filter(pred).map_values(|e: NodeEntry| e.addr));
                }
            } else {
                proof {
                    assert(v@ =~= d.take(k + 1).filter(pred).map_values(|e: NodeEntry| e.addr));
                }
            }
            k = k + 1;
        }
        proof {
            assert(d.take(d.len() as int) =~= d);
        }
        v
    }

    /// Drop, bucket by bucket, the entries that have outlived their place
    /// at `now_ms` (see [`outlived`]), keeping the order of the others;
    /// returns how many were dropped.
    pub fn sweep(&mut self, now_ms: u64, lim: SweepLimits) -> (removed: usize)
        requires
            old(self).wf(),
        ensures
            final(self).wf(),
            final(self).spec_local_id() == old(self).spec_local_id(),
            final(self).spec_local_addr() == old(self).spec_local_addr(),
            final(self).spec_local_type() == old(self).spec_local_type(),
            final(self).spec_buckets() == old(self).spec_buckets().map_values(
                |b: Seq<NodeEntry>| b.filter(survives(now_ms, lim)),
            ),
            removed == old(self).spec_entries().len() - final(self).spec_entries().len(),
    {
        let ghost ob = self.spec_buckets();
        let ghost p = survives(now_ms, lim);
        let before: usize = self.total_nodes;
        let mut k: usize = 0;
        while k < BUCKET_COUNT
            invariant
                self.wf(),
                k <= BUCKET_COUNT,
                self.local_id == old(self).local_id,
                self.local_addr == old(self).local_addr,
                self.local_type == old(self).local_type,
                ob.len() == BUCKET_COUNT,
                p == survives(now_ms, lim),
                forall|x: int| 0 <= x < k ==> #[trigger] self.spec_buckets()[x] == ob[x].filter(p),
                forall|x: int| k <= x < BUCKET_COUNT ==> #[trigger] self.spec_buckets()[x] == ob[x],
            decreases BUCKET_COUNT - k,
        {
            let ghost before_b = self.buckets@;
            let ghost cur = self.spec_buckets();
            proof {
                assert(before_b[k as int].wf());
                assert(cur[k as int] == before_b[k as int].spec_entries());
            }
            let mut b = self.buckets.remove(k);
            b.sweep(now_ms, lim);
            self.put_back(k, b, Ghost(before_b));
            proof {
                let nb = self.spec_buckets();
                assert(nb =~= cur.update(k as int, cur[k as int].filter(p)));
                lemma_filter_run(cur[k as int], p);
                assert forall|x: int, y: int|
                    0 <= x < nb.len() && 0 <= y < nb[x].len() implies self.bucket_of(
                    #[trigger] nb[x][y].id,
                ) == Some(x as u8) by {
                    if x != k as int {
                        assert(nb[x] == cur[x]);
                    } else {
                        assert(nb[x].contains(nb[x][y]));
                        assert(cur[x].contains(nb[x][y]));
                        let q = choose|q: int| 0 <= q < cur[x].len() && cur[x][q] == nb[x][y];
                        assert(self.bucket_of(cur[x][q].id) == Some(x as u8));
                    }
                }
                self.lemma_wf_from_parts();
                assert forall|x: int| 0 <= x < k + 1 implies #[trigger] self.spec_buckets()[x]
                    == ob[x].filter(p) by {
                    if x != k as int {
                        assert(nb[x] == cur[x]);
                    }
                }
                assert forall|x: int| k + 1 <= x < BUCKET_COUNT implies #[trigger] self.spec_buckets()[x]
                    == ob[x] by {
                    assert(nb[x] == cur[x]);
                }
            }
            k = k + 1;
        }
        proof {
            let nb = self.spec_buckets();
            assert(nb =~= ob.map_values(|b: Seq<NodeEntry>| b.filter(survives(now_ms, lim))));
            assert forall|i: int| 0 <= i < nb.len() implies (#[trigger] nb[i]).len() <= ob[i].len() by {
                lemma_filter_run(ob[i], p);
            }
            lemma_flatten_le(nb, ob);
        }
        let after: usize = self.total_nodes;
        before - after
    }

    /// Number of nodes in the table.
    pub fn node_count(&self) -> (n: usize)
        requires
            self.wf(),
        ensures
            n == self.spec_entries().len(),
    {
        self.total_nodes
    }
}

/// Flattening buckets that are all empty gives nothing.
proof fn lemma_flatten_all_empty(b: Seq<Seq<NodeEntry>>)
    requires
        forall|i: int| 0 <= i < b.len() ==> (#[trigger] b[i]).len() == 0,
    ensures
        b.flatten().len() == 0,
    decreases b.len(),
{
    if b.len() > 0 {
        lemma_flatten_all_empty(b.drop_first());
    }
}

/// Law: the routing table holds no node twice, and never the local node.
pub proof fn lemma_entries_distinct(t: &RoutingTable)
    requires
        t.wf(),
    ensures
        ids_distinct(t.spec_entries()),
        forall|p: int|
            0 <= p < t.spec_entries().len() ==> t.spec_entries()[p].id != t.spec_local_id(),
{
    let b = t.spec_buckets();
    lemma_prefix_distinct(b, t.spec_local_id(), b.len() as int);
    assert(b.take(b.len() as int) =~= b);
    assert forall|p: int|
        0 <= p < t.spec_entries().len() implies t.spec_entries()[p].id != t.spec_local_id() by {
        let x = t.spec_entries()[p];
        assert(below(bucket_for(t.spec_local_id(), x.id), 256));
        crate::dht::lemma_bucket_symmetric(t.spec_local_id(), x.id);
    }
}

} // verus!
