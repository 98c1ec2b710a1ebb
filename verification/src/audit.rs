//! Audit log: an append-only record of security events, chained by
//! SHA-256: verification recomputes each buffered entry's hash from its
//! contents and its predecessor's hash, so an entry whose stored hash was
//! overwritten, or whose contents no longer hash to it, is refused.
//!
//! ```text
//! entry[0].hash = SHA-256(seq || timestamp || event || description || peer || 0^32)
//! entry[N].hash = SHA-256(seq || timestamp || event || description || peer || entry[N-1].hash)
//! ```

use std::collections::VecDeque;
use vstd::prelude::*;
use vstd::utf8::encode_utf8;

use crate::clock::{millis_of, since_unix_epoch};
use crate::components::EntityId;
use crate::digest::{sha256, spec_sha256};
use crate::wire::{bytes32_eq, le64, push_bytes, push_u64_le};

verus! {

/// Maximum number of entries kept in the in-memory buffer.
pub const MAX_AUDIT_ENTRIES: usize = 100_000;

/// Interval (in entries) between checkpoint entries.
pub const CHECKPOINT_INTERVAL: usize = 1000;

/// Audit event type.
#[derive(Debug, Clone, Copy, PartialEq, Eq, Structural)]
pub enum AuditEventType {
    /// Node initialized and started
    NodeStartup,
    /// Cryptographic key rotation event
    IdentityRotation,
    /// New peer detected on the network
    PeerDiscovered,
    /// Secure channel established with peer
    HandshakeSuccess,
    /// Handshake with peer failed
    HandshakeFailure,
    /// Peer trust score crossed a threshold
    TrustChange,
    /// Rate limit enforced on a peer
    RateLimitTriggered,
    /// Replay attack detected from a peer
    ReplayDetected,
    /// Invalid signature received from a peer
    InvalidSignature,
    /// Periodic hash chain checkpoint
    BootstrapCheckpoint,
    /// Configuration modification event
    ConfigChange,
}

impl AuditEventType {
    /// The label of each event type, as hashed into entries.
    pub open spec fn spec_label(self) -> Seq<char> {
        match self {
            AuditEventType::NodeStartup => "NODE_STARTUP"@,
            AuditEventType::IdentityRotation => "IDENTITY_ROTATION"@,
            AuditEventType::PeerDiscovered => "PEER_DISCOVERED"@,
            AuditEventType::HandshakeSuccess => "HANDSHAKE_SUCCESS"@,
            AuditEventType::HandshakeFailure => "HANDSHAKE_FAILURE"@,
            AuditEventType::TrustChange => "TRUST_CHANGE"@,
            AuditEventType::RateLimitTriggered => "RATE_LIMIT_TRIGGERED"@,
            AuditEventType::ReplayDetected => "REPLAY_DETECTED"@,
            AuditEventType::InvalidSignature => "INVALID_SIGNATURE"@,
            AuditEventType::BootstrapCheckpoint => "BOOTSTRAP_CHECKPOINT"@,
            AuditEventType::ConfigChange => "CONFIG_CHANGE"@,
        }
    }

    /// The label of this event type.
    pub fn label(&self) -> (s: &'static str)
        ensures
            s@ == self.spec_label(),
    {
        match self {
            AuditEventType::NodeStartup => "NODE_STARTUP",
            AuditEventType::IdentityRotation => "IDENTITY_ROTATION",
            AuditEventType::PeerDiscovered => "PEER_DISCOVERED",
            AuditEventType::HandshakeSuccess => "HANDSHAKE_SUCCESS",
            AuditEventType::HandshakeFailure => "HANDSHAKE_FAILURE",
            AuditEventType::TrustChange => "TRUST_CHANGE",
            AuditEventType::RateLimitTriggered => "RATE_LIMIT_TRIGGERED",
            AuditEventType::ReplayDetected => "REPLAY_DETECTED",
            AuditEventType::InvalidSignature => "INVALID_SIGNATURE",
            AuditEventType::BootstrapCheckpoint => "BOOTSTRAP_CHECKPOINT",
            AuditEventType::ConfigChange => "CONFIG_CHANGE",
        }
    }
}

/// A single entry in the audit log hash chain.
#[derive(Debug, Clone)]
pub struct AuditEntry {
    /// Monotonic entry sequence number.
    pub seq: u64,
    /// Wall clock timestamp (ms since UNIX epoch).
    pub timestamp_ms: u64,
    /// Event type.
    pub event_type: AuditEventType,
    /// Human-readable description of the event.
    pub description: String,
    /// Peer involved (if applicable).
    pub peer: Option<EntityId>,
    /// SHA-256 hash of this entry.
    pub hash: [u8; 32],
    /// Hash of the previous entry (all zeros for entry 0).
    pub prev_hash: [u8; 32],
    /// Whether this is a checkpoint entry.
    pub is_checkpoint: bool,
}

/// Thirty-two zero bytes: the predecessor hash of the first entry.
pub open spec fn zero32() -> Seq<u8> {
    Seq::new(32, |i: int| 0u8)
}

/// The bytes a peer contributes to an entry's hashed message.
pub open spec fn peer_bytes(peer: Option<EntityId>) -> Seq<u8> {
    match peer {
        Some(e) => e.0@,
        None => Seq::empty(),
    }
}

/// The bytes hashed for an entry: seq and timestamp (little-endian), the
/// event label, the description (UTF-8), the peer id if any, and the
/// previous hash.
pub open spec fn entry_message(
    seq: u64,
    timestamp_ms: u64,
    event_type: AuditEventType,
    description: Seq<char>,
    peer: Option<EntityId>,
    prev_hash: Seq<u8>,
) -> Seq<u8> {
    le64(seq) + le64(timestamp_ms) + encode_utf8(event_type.spec_label()) + encode_utf8(
        description,
    ) + peer_bytes(peer) + prev_hash
}

/// The hash an entry should carry, given the hash it follows.
#[verifier::opaque]
pub open spec fn entry_hash(e: AuditEntry, prev_hash: Seq<u8>) -> Seq<u8> {
    spec_sha256(
        entry_message(e.seq, e.timestamp_ms, e.event_type, e.description@, e.peer, prev_hash),
    )
}

/// Whether entry `seq` is a checkpoint.
pub open spec fn is_checkpoint_seq(seq: u64) -> bool {
    seq > 0 && seq % (CHECKPOINT_INTERVAL as u64) == 0
}

/// The hash entry `i` of a full chain should follow: zeros for entry 0,
/// otherwise the stored hash of entry `i - 1`.
pub open spec fn full_prev(s: Seq<AuditEntry>, i: int) -> Seq<u8> {
    if i == 0 {
        zero32()
    } else {
        s[i - 1].hash@
    }
}

/// The hash entry `i` of a truncated chain should follow: entry 0's own
/// recorded predecessor, otherwise the stored hash of entry `i - 1`.
pub open spec fn buffered_prev(s: Seq<AuditEntry>, i: int) -> Seq<u8> {
    if i == 0 {
        s[0].prev_hash@
    } else {
        s[i - 1].hash@
    }
}

/// Entry `i` carries the hash computed from its contents and `prev`.
pub open spec fn hash_ok(s: Seq<AuditEntry>, i: int, prev: Seq<u8>) -> bool {
    s[i].hash@ == entry_hash(s[i], prev)
}

/// Entry `i` of a full chain checks out.
pub open spec fn full_ok_at(s: Seq<AuditEntry>, i: int) -> bool {
    hash_ok(s, i, full_prev(s, i))
}

/// Entry `i` of a truncated chain checks out and, unless it is the newest,
/// is recorded as the predecessor of entry `i + 1`.
pub open spec fn buffered_ok_at(s: Seq<AuditEntry>, i: int) -> bool {
    &&& hash_ok(s, i, buffered_prev(s, i))
    &&& i + 1 < s.len() ==> s[i + 1].prev_hash@ == s[i].hash@
}

/// Full-chain verification: entry 0 follows the zero hash and every later
/// entry follows its predecessor's stored hash.
pub open spec fn spec_verify_full(s: Seq<AuditEntry>) -> bool {
    forall|i: int| 0 <= i < s.len() ==> #[trigger] full_ok_at(s, i)
}

/// Verification of a truncated chain: every entry, the newest included,
/// carries the hash computed from its predecessor (the first from its own
/// recorded predecessor hash), and each entry is recorded as its
/// successor's predecessor.
pub open spec fn spec_verify_buffered(s: Seq<AuditEntry>) -> bool {
    forall|i: int| 0 <= i < s.len() ==> #[trigger] buffered_ok_at(s, i)
}

/// The result of integrity verification: an empty log is intact; a log
/// holding entry 0 is checked as a full chain, otherwise as a truncated one.
pub open spec fn spec_verify_integrity(s: Seq<AuditEntry>) -> bool {
    if s.len() == 0 {
        true
    } else if s[0].seq != 0 {
        spec_verify_buffered(s)
    } else {
        spec_verify_full(s)
    }
}

/// Entry `i` carries the hash of its contents and recorded predecessor.
pub open spec fn self_hash_ok(s: Seq<AuditEntry>, i: int) -> bool {
    hash_ok(s, i, s[i].prev_hash@)
}

/// Entry `i` records the stored hash of entry `i - 1` as its predecessor.
pub open spec fn linked_at(s: Seq<AuditEntry>, i: int) -> bool {
    s[i].prev_hash@ == s[i - 1].hash@
}

/// Every entry carries the hash of its contents and recorded predecessor,
/// consecutive entries are linked, and entry 0 follows the zero hash.
pub open spec fn well_linked(s: Seq<AuditEntry>) -> bool {
    &&& forall|i: int| 0 <= i < s.len() ==> #[trigger] self_hash_ok(s, i)
    &&& forall|i: int| 0 < i < s.len() ==> #[trigger] linked_at(s, i)
    &&& s.len() > 0 && s[0].seq == 0 ==> s[0].prev_hash@ == zero32()
}

/// A snapshot that another node can use to check this log's state.
#[derive(Debug, Clone)]
pub struct BootstrapProof {
    /// Total entries at proof generation time.
    pub total_entries: u64,
    /// Hash of the most recent entry.
    pub current_hash: [u8; 32],
    /// Hash of the most recent checkpoint.
    pub checkpoint_hash: [u8; 32],
    /// Hash of the genesis entry (if any).
    pub genesis_hash: Option<[u8; 32]>,
}

/// Append-only audit log with tamper detection via a hash chain.
pub struct AuditLog {
    entries: VecDeque<AuditEntry>,
    total_entries: u64,
    current_hash: [u8; 32],
    last_checkpoint_hash: [u8; 32],
    genesis_hash: Option<[u8; 32]>,
}

/// Compute the hash for an entry with the given fields.
fn compute_hash(
    seq: u64,
    timestamp_ms: u64,
    event_type: &AuditEventType,
    description: &str,
    peer: &Option<EntityId>,
    prev_hash: &[u8; 32],
) -> (h: [u8; 32])
    ensures
        h@ == spec_sha256(
            entry_message(seq, timestamp_ms, *event_type, description@, *peer, prev_hash@),
        ),
{
    let mut msg: Vec<u8> = Vec::new();
    push_u64_le(&mut msg, seq);
    push_u64_le(&mut msg, timestamp_ms);
    push_bytes(&mut msg, event_type.label().as_bytes());
    push_bytes(&mut msg, description.as_bytes());
    match peer {
        Some(eid) => {
            push_bytes(&mut msg, eid.0.as_slice());
        },
        None => {},
    }
    push_bytes(&mut msg, prev_hash.as_slice());
    assert(msg@ =~= entry_message(seq, timestamp_ms, *event_type, description@, *peer, prev_hash@));
    sha256(msg.as_slice())
}

/// The buffer after optionally dropping its oldest entry.
pub open spec fn kept_after(before: Seq<AuditEntry>, drop: bool) -> Seq<AuditEntry> {
    if drop {
        before.drop_first()
    } else {
        before
    }
}

/// Sequence numbers stay consecutive when an entry is pushed (after
/// dropping the oldest if `drop`).
proof fn lemma_push_sequenced(before: Seq<AuditEntry>, drop: bool, e: AuditEntry, t: u64)
    requires
        before.len() <= MAX_AUDIT_ENTRIES,
        before.len() <= t,
        t == 0 <==> before.len() == 0,
        forall|i: int| 0 <= i < before.len() ==> (#[trigger] before[i]).seq == t - before.len() + i,
        drop <==> before.len() >= MAX_AUDIT_ENTRIES,
        e.seq == t,
        t < u64::MAX,
    ensures
        ({
            let s = kept_after(before, drop).push(e);
            &&& s.len() <= MAX_AUDIT_ENTRIES
            &&& s.len() <= t + 1
            &&& s.len() > 0
            &&& forall|i: int| 0 <= i < s.len() ==> (#[trigger] s[i]).seq == (t + 1) - s.len() + i
        }),
{
    let kept = kept_after(before, drop);
    let s = kept.push(e);
    assert forall|i: int| 0 <= i < s.len() implies (#[trigger] s[i]).seq == (t + 1) - s.len() + i by {
        if i < s.len() - 1 {
            assert(s[i] == kept[i]);
            if drop {
                assert(kept[i] == before[i + 1]);
            }
        }
    }
}

/// Pushing an entry that carries its own hash and follows the current head
/// keeps a well-linked chain well linked.
proof fn lemma_push_linked(before: Seq<AuditEntry>, drop: bool, e: AuditEntry, t: u64)
    requires
        well_linked(before),
        before.len() <= t,
        t == 0 <==> before.len() == 0,
        forall|i: int| 0 <= i < before.len() ==> (#[trigger] before[i]).seq == t - before.len() + i,
        drop ==> before.len() > 0,
        e.seq == t,
        before.len() > 0 ==> e.prev_hash@ == before.last().hash@,
        before.len() == 0 ==> e.prev_hash@ == zero32(),
        e.hash@ == entry_hash(e, e.prev_hash@),
    ensures
        well_linked(kept_after(before, drop).push(e)),
{
    let kept = kept_after(before, drop);
    let s = kept.push(e);
    assert forall|i: int| 0 <= i < s.len() implies #[trigger] self_hash_ok(s, i) by {
        if i < s.len() - 1 {
            assert(s[i] == kept[i]);
            if drop {
                assert(kept[i] == before[i + 1]);
                assert(self_hash_ok(before, i + 1));
            } else {
                assert(self_hash_ok(before, i));
            }
        }
    }
    assert forall|i: int| 0 < i < s.len() implies #[trigger] linked_at(s, i) by {
        if i < s.len() - 1 {
            assert(s[i] == kept[i]);
            assert(s[i - 1] == kept[i - 1]);
            if drop {
                assert(kept[i] == before[i + 1]);
                assert(kept[i - 1] == before[i]);
                assert(linked_at(before, i + 1));
            } else {
                assert(linked_at(before, i));
            }
        } else {
            assert(s[i - 1] == kept[kept.len() - 1]);
            if drop {
                assert(kept[kept.len() - 1] == before[before.len() - 1]);
            }
        }
    }
    if s[0].seq == 0 && kept.len() > 0 {
        assert(s[0] == kept[0]);
        if drop {
            assert(kept[0] == before[1]);
        }
    }
}

impl AuditLog {
    /// The buffered entries, oldest first.
    pub closed spec fn spec_entries(&self) -> Seq<AuditEntry> {
        self.entries@
    }

    /// Total entries ever appended.
    pub closed spec fn spec_total(&self) -> u64 {
        self.total_entries
    }

    /// Hash of the most recent entry (zeros before the first).
    pub closed spec fn spec_current_hash(&self) -> [u8; 32] {
        self.current_hash
    }

    /// Hash of the most recent checkpoint entry (zeros before the first).
    pub closed spec fn spec_checkpoint_hash(&self) -> [u8; 32] {
        self.last_checkpoint_hash
    }

    /// Hash of entry 0, once it exists.
    pub closed spec fn spec_genesis_hash(&self) -> Option<[u8; 32]> {
        self.genesis_hash
    }

    /// Structural invariant: the buffer holds the most recent
    /// `min(total, MAX_AUDIT_ENTRIES)` entries, with consecutive sequence
    /// numbers ending at `total - 1`; the genesis hash exists once an entry
    /// does.
    pub open spec fn wf(&self) -> bool {
        let s = self.spec_entries();
        let t = self.spec_total();
        &&& s.len() == if t < MAX_AUDIT_ENTRIES {
            t as int
        } else {
            MAX_AUDIT_ENTRIES as int
        }
        &&& forall|i: int| 0 <= i < s.len() ==> (#[trigger] s[i]).seq == t - s.len() + i
        &&& (self.spec_genesis_hash() is Some <==> t > 0)
    }

    /// No entry has been altered: the chain is well linked and the head hash
    /// is that of the newest entry (zeros while the log is empty).
    pub open spec fn intact(&self) -> bool {
        let s = self.spec_entries();
        &&& well_linked(s)
        &&& s.len() > 0 ==> self.spec_current_hash()@ == s.last().hash@
        &&& self.spec_total() == 0 ==> self.spec_current_hash()@ == zero32()
    }

    /// `self` is `old` with one entry for (`event_type`, `description`,
    /// `peer`) appended, the oldest entry dropped if the buffer was full.
    pub open spec fn appended_from(
        &self,
        old: AuditLog,
        event_type: AuditEventType,
        description: Seq<char>,
        peer: Option<EntityId>,
    ) -> bool {
        let seq = old.spec_total();
        let kept = if old.spec_entries().len() >= MAX_AUDIT_ENTRIES {
            old.spec_entries().drop_first()
        } else {
            old.spec_entries()
        };
        let e = self.spec_entries().last();
        &&& self.spec_total() == seq + 1
        &&& self.spec_entries().len() == kept.len() + 1
        &&& self.spec_entries().drop_last() == kept
        &&& e.seq == seq
        &&& e.event_type == event_type
        &&& e.description@ == description
        &&& e.peer == peer
        &&& e.prev_hash == old.spec_current_hash()
        &&& e.hash@ == entry_hash(e, old.spec_current_hash()@)
        &&& e.is_checkpoint == is_checkpoint_seq(seq)
        &&& self.spec_current_hash() == e.hash
        &&& self.spec_checkpoint_hash() == if is_checkpoint_seq(seq) {
            e.hash
        } else {
            old.spec_checkpoint_hash()
        }
        &&& self.spec_genesis_hash() == if seq == 0 {
            Some(e.hash)
        } else {
            old.spec_genesis_hash()
        }
    }

    /// Create an empty audit log.
    pub fn new() -> (log: Self)
        ensures
            log.wf(),
            log.intact(),
            log.spec_entries() == Seq::<AuditEntry>::empty(),
            log.spec_total() == 0,
            log.spec_current_hash()@ == zero32(),
            log.spec_checkpoint_hash()@ == zero32(),
            log.spec_genesis_hash() is None,
    {
        let log = AuditLog {
            entries: VecDeque::with_capacity(MAX_AUDIT_ENTRIES),
            total_entries: 0,
            current_hash: [0u8; 32],
            last_checkpoint_hash: [0u8; 32],
            genesis_hash: None,
        };
        assert(log.current_hash@ =~= zero32());
        assert(log.last_checkpoint_hash@ =~= zero32());
        log
    }

    /// Append an event stamped with the given time; returns its sequence number.
    pub fn append_at(
        &mut self,
        event_type: AuditEventType,
        description: &str,
        peer: Option<EntityId>,
        now_ms: u64,
    ) -> (seq: u64)
        requires
            old(self).wf(),
            old(self).spec_total() < u64::MAX,
        ensures
            seq == old(self).spec_total(),
            final(self).wf(),
            final(self).appended_from(*old(self), event_type, description@, peer),
            final(self).spec_entries().last().timestamp_ms == now_ms,
            old(self).intact() ==> final(self).intact(),
    {
        let seq: u64 = self.total_entries;
        let prev_hash: [u8; 32] = self.current_hash;
        let hash = compute_hash(seq, now_ms, &event_type, description, &peer, &prev_hash);
        let is_checkpoint: bool = seq > 0 && seq % (CHECKPOINT_INTERVAL as u64) == 0;
        let entry = AuditEntry {
            seq,
            timestamp_ms: now_ms,
            event_type,
            description: description.to_owned(),
            peer,
            hash,
            prev_hash,
            is_checkpoint,
        };
        if seq == 0 {
            self.genesis_hash = Some(hash);
        }
        self.current_hash = hash;
        if is_checkpoint {
            self.last_checkpoint_hash = hash;
        }
        let ghost before = self.entries@;
        if self.entries.len() >= MAX_AUDIT_ENTRIES {
            self.entries.pop_front();
        }
        let ghost kept = self.entries@;
        self.entries.push_back(entry);
        self.total_entries = self.total_entries + 1;
        proof {
            let s = self.entries@;
            assert(s =~= kept.push(entry));
            assert(s.drop_last() =~= kept);
            assert(s.last() == entry);
            let drop = before.len() >= MAX_AUDIT_ENTRIES;
            assert(kept == kept_after(before, drop));
            assert(entry.hash@ == entry_hash(entry, entry.prev_hash@)) by {
                reveal(entry_hash);
            }
            lemma_push_sequenced(before, drop, entry, old(self).total_entries);
            if old(self).intact() {
                lemma_push_linked(before, drop, entry, old(self).total_entries);
            }
        }
        seq
    }

    /// Append an event stamped with the current time; returns its sequence number.
    pub fn append(&mut self, event_type: AuditEventType, description: &str, peer: Option<
        EntityId,
    >) -> (seq: u64)
        requires
            old(self).wf(),
            old(self).spec_total() < u64::MAX,
        ensures
            seq == old(self).spec_total(),
            final(self).wf(),
            final(self).appended_from(*old(self), event_type, description@, peer),
            old(self).intact() ==> final(self).intact(),
    {
        let now: u64 = millis_of(since_unix_epoch());
        self.append_at(event_type, description, peer, now)
    }
}

impl AuditLog {
    /// Verify the hash chain. A log whose buffer holds entry 0 is checked
    /// from the zero hash; a truncated buffer is checked from its first
    /// entry's recorded predecessor.
    pub fn verify_integrity(&self) -> (ok: bool)
        ensures
            ok == spec_verify_integrity(self.spec_entries()),
    {
        let n: usize = self.entries.len();
        if n == 0 {
            return true;
        }
        if self.entries[0].seq != 0 {
            return self.verify_buffered();
        }
        let ghost s = self.entries@;
        let mut prev: [u8; 32] = [0u8; 32];
        assert(prev@ =~= zero32());
        let mut i: usize = 0;
        while i < n
            invariant
                s == self.entries@,
                n == s.len(),
                i <= n,
                prev@ == full_prev(s, i as int),
                n > 0,
                s[0].seq == 0,
                forall|j: int| 0 <= j < i ==> #[trigger] full_ok_at(s, j),
            decreases n - i,
        {
            let e = &self.entries[i];
            let expected = compute_hash(
                e.seq,
                e.timestamp_ms,
                &e.event_type,
                e.description.as_str(),
                &e.peer,
                &prev,
            );
            proof {
                reveal(entry_hash);
            }
            if !bytes32_eq(&expected, &e.hash) {
                assert(!full_ok_at(s, i as int));
                return false;
            }
            prev = e.hash;
            i = i + 1;
        }
        true
    }

    /// Verify a buffer that no longer holds entry 0: each entry but the last
    /// must carry the hash computed from its predecessor and be recorded as
    /// its successor's predecessor.
    fn verify_buffered(&self) -> (ok: bool)
        ensures
            ok == spec_verify_buffered(self.spec_entries()),
    {
        let n: usize = self.entries.len();
        if n == 0 {
            return true;
        }
        let ghost s = self.entries@;
        let mut prev: [u8; 32] = self.entries[0].prev_hash;
        let mut i: usize = 0;
        while i < n
            invariant
                s == self.entries@,
                n == s.len(),
                n >= 1,
                i <= n,
                i < n ==> prev@ == buffered_prev(s, i as int),
                forall|j: int| 0 <= j < i ==> #[trigger] buffered_ok_at(s, j),
            decreases n - i,
        {
            let e = &self.entries[i];
            let expected = compute_hash(
                e.seq,
                e.timestamp_ms,
                &e.event_type,
                e.description.as_str(),
                &e.peer,
                &prev,
            );
            proof {
                reveal(entry_hash);
            }
            if !bytes32_eq(&expected, &e.hash) {
                assert(!buffered_ok_at(s, i as int));
                return false;
            }
            prev = e.hash;
            if i + 1 < n && !bytes32_eq(&self.entries[i + 1].prev_hash, &e.hash) {
                assert(!buffered_ok_at(s, i as int));
                return false;
            }
            i = i + 1;
        }
        true
    }

    /// The current chain head hash.
    pub fn current_hash(&self) -> (h: [u8; 32])
        ensures
            h == self.spec_current_hash(),
    {
        self.current_hash
    }

    /// The last checkpoint hash.
    pub fn last_checkpoint_hash(&self) -> (h: [u8; 32])
        ensures
            h == self.spec_checkpoint_hash(),
    {
        self.last_checkpoint_hash
    }

    /// The genesis hash, once entry 0 exists.
    pub fn genesis_hash(&self) -> (h: Option<[u8; 32]>)
        ensures
            h == self.spec_genesis_hash(),
    {
        self.genesis_hash
    }

    /// Total entries ever appended.
    pub fn total_entries(&self) -> (n: u64)
        ensures
            n == self.spec_total(),
    {
        self.total_entries
    }

    /// Number of entries currently buffered.
    pub fn buffered_count(&self) -> (n: usize)
        ensures
            n == self.spec_entries().len(),
    {
        self.entries.len()
    }

    /// Up to `limit` buffered entries starting at position `offset`.
    pub fn get_entries(&self, offset: usize, limit: usize) -> (r: Vec<&AuditEntry>)
        ensures
            ({
                let len = self.spec_entries().len() as int;
                let start = if offset < len { offset as int } else { len };
                let end = if limit < len - start { start + limit } else { len };
                entries_of(r@) == self.spec_entries().subrange(start, end)
            }),
    {
        let n: usize = self.entries.len();
        let start: usize = if offset < n { offset } else { n };
        let end: usize = if limit < n - start { start + limit } else { n };
        let mut out: Vec<&AuditEntry> = Vec::new();
        let mut i: usize = start;
        while i < end
            invariant
                start <= i <= end,
                end <= n,
                n == self.entries@.len(),
                out@.len() == i - start,
                forall|k: int| 0 <= k < out@.len() ==> *(#[trigger] out@[k]) == self.entries@[start + k],
            decreases end - i,
        {
            let e: &AuditEntry = &self.entries[i];
            out.push(e);
            i = i + 1;
        }
        assert(entries_of(out@) =~= self.entries@.subrange(start as int, end as int));
        out
    }

    /// All buffered entries.
    pub fn all_entries(&self) -> (r: &VecDeque<AuditEntry>)
        ensures
            r@ == self.spec_entries(),
    {
        &self.entries
    }

    /// Overwrite the stored hash of the buffered entry at `index`, leaving
    /// everything else as it was (used to exercise tamper detection).
    pub fn set_entry_hash(&mut self, index: usize, hash: [u8; 32])
        requires
            index < old(self).spec_entries().len(),
        ensures
            final(self).spec_entries() == old(self).spec_entries().update(
                index as int,
                AuditEntry { hash, ..old(self).spec_entries()[index as int] },
            ),
            final(self).spec_total() == old(self).spec_total(),
            final(self).spec_current_hash() == old(self).spec_current_hash(),
            final(self).spec_checkpoint_hash() == old(self).spec_checkpoint_hash(),
            final(self).spec_genesis_hash() == old(self).spec_genesis_hash(),
    {
        let removed = self.entries.remove(index);
        match removed {
            Some(mut e) => {
                e.hash = hash;
                self.entries.insert(index, e);
                assert(self.entries@ =~= old(self).entries@.update(
                    index as int,
                    AuditEntry { hash, ..old(self).entries@[index as int] },
                ));
            },
            None => {},
        }
    }

    /// A snapshot of this log's counters and hashes.
    pub fn bootstrap_proof(&self) -> (p: BootstrapProof)
        ensures
            p.total_entries == self.spec_total(),
            p.current_hash == self.spec_current_hash(),
            p.checkpoint_hash == self.spec_checkpoint_hash(),
            p.genesis_hash == self.spec_genesis_hash(),
    {
        BootstrapProof {
            total_entries: self.total_entries,
            current_hash: self.current_hash,
            checkpoint_hash: self.last_checkpoint_hash,
            genesis_hash: self.genesis_hash,
        }
    }

    /// Check a snapshot against this log: a snapshot of a later state is
    /// refused; one of the same length must carry this log's head hash; an
    /// earlier one must carry this log's last checkpoint hash.
    pub fn verify_bootstrap(&self, proof: &BootstrapProof) -> (ok: bool)
        ensures
            ok == spec_verify_bootstrap(*self, *proof),
            proof.total_entries > self.spec_total() ==> !ok,
            proof.total_entries == self.spec_total() ==> (ok <==> proof.current_hash@
                == self.spec_current_hash()@),
            ok ==> proof.total_entries <= self.spec_total(),
            proof.total_entries < self.spec_total() ==> (ok <==> proof.checkpoint_hash@
                == self.spec_checkpoint_hash()@),
    {
        if proof.total_entries > self.total_entries {
            return false;
        }
        if proof.total_entries == self.total_entries {
            return bytes32_eq(&proof.current_hash, &self.current_hash);
        }
        bytes32_eq(&proof.checkpoint_hash, &self.last_checkpoint_hash)
    }
}

/// The entries a sequence of references refers to.
pub open spec fn entries_of(s: Seq<&AuditEntry>) -> Seq<AuditEntry> {
    Seq::new(s.len(), |i: int| *s[i])
}

/// The verdict of [`AuditLog::verify_bootstrap`].
pub open spec fn spec_verify_bootstrap(log: AuditLog, proof: BootstrapProof) -> bool {
    if proof.total_entries > log.spec_total() {
        false
    } else if proof.total_entries == log.spec_total() {
        proof.current_hash@ == log.spec_current_hash()@
    } else {
        proof.checkpoint_hash@ == log.spec_checkpoint_hash()@
    }
}

impl Default for AuditLog {
    fn default() -> (log: Self)
        ensures
            log.wf(),
            log.intact(),
            log.spec_entries() == Seq::<AuditEntry>::empty(),
            log.spec_total() == 0,
    {
        AuditLog::new()
    }
}

/// Law: a log whose entries have not been altered passes integrity
/// verification, whether or not its buffer still holds entry 0.
pub proof fn lemma_intact_log_verifies(log: AuditLog)
    requires
        log.wf(),
        log.intact(),
    ensures
        spec_verify_integrity(log.spec_entries()),
{
    let s = log.spec_entries();
    if s.len() > 0 {
        if s[0].seq == 0 {
            assert forall|i: int| 0 <= i < s.len() implies #[trigger] full_ok_at(s, i) by {
                assert(self_hash_ok(s, i));
                if i > 0 {
                    assert(linked_at(s, i));
                }
            }
        } else {
            assert forall|i: int| 0 <= i < s.len() implies #[trigger] buffered_ok_at(s, i) by {
                assert(self_hash_ok(s, i));
                if i > 0 {
                    assert(linked_at(s, i));
                }
                if i + 1 < s.len() {
                    assert(linked_at(s, i + 1));
                }
            }
        }
    }
}

/// Law: overwriting the stored hash of any entry of an unaltered log with a
/// different value makes integrity verification fail, whether or not the
/// buffer still holds entry 0.
pub proof fn lemma_tamper_detected(log: AuditLog, index: int, hash: [u8; 32])
    requires
        log.wf(),
        log.intact(),
        0 <= index < log.spec_entries().len(),
        hash@ != log.spec_entries()[index].hash@,
    ensures
        !spec_verify_integrity(
            log.spec_entries().update(index, AuditEntry { hash, ..log.spec_entries()[index] }),
        ),
{
    let s = log.spec_entries();
    let t = s.update(index, AuditEntry { hash, ..s[index] });
    assert(t[index].hash == hash);
    assert(self_hash_ok(s, index));
    if index > 0 {
        assert(linked_at(s, index));
        assert(t[index - 1] == s[index - 1]);
    }
    assert(t[0].seq == s[0].seq);
    assert(t[index].seq == s[index].seq);
    assert(t[index].description == s[index].description);
    assert(entry_hash(t[index], s[index].prev_hash@) == entry_hash(s[index], s[index].prev_hash@))
        by {
        reveal(entry_hash);
    }
    if s[0].seq == 0 {
        if index == 0 {
            assert(!full_ok_at(t, index));
        } else {
            assert(!full_ok_at(t, index));
        }
    } else {
        assert(t[0].prev_hash == s[0].prev_hash);
        assert(!buffered_ok_at(t, index));
    }
}

/// Law: a log accepts the snapshot it produces of itself.
pub proof fn lemma_own_proof_verifies(log: AuditLog, proof: BootstrapProof)
    requires
        proof.total_entries == log.spec_total(),
        proof.current_hash == log.spec_current_hash(),
        proof.checkpoint_hash == log.spec_checkpoint_hash(),
        proof.genesis_hash == log.spec_genesis_hash(),
    ensures
        spec_verify_bootstrap(log, proof),
{
}

/// Law: a snapshot as long as the log is accepted exactly when it carries
/// the log's head hash; so the snapshot of another log of the same length
/// is refused unless the two logs end in the same hash.
pub proof fn lemma_same_length_proof_needs_head(log: AuditLog, other: AuditLog, proof: BootstrapProof)
    requires
        proof.total_entries == other.spec_total(),
        proof.current_hash == other.spec_current_hash(),
        proof.checkpoint_hash == other.spec_checkpoint_hash(),
        other.spec_total() == log.spec_total(),
    ensures
        spec_verify_bootstrap(log, proof) <==> other.spec_current_hash()@ == log.spec_current_hash()@,
        other.spec_current_hash()@ != log.spec_current_hash()@ ==> !spec_verify_bootstrap(log, proof),
{
}

/// Law: a snapshot of a later state than the log's is always refused.
pub proof fn lemma_future_proof_refused(log: AuditLog, proof: BootstrapProof)
    requires
        proof.total_entries > log.spec_total(),
    ensures
        !spec_verify_bootstrap(log, proof),
{
}

} // verus!
