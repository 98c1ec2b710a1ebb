//! Decisions of the engine loop: delivery reliability, when periodic
//! phases run, which peers are admitted or evicted, and the deterministic
//! packet-loss generator. The socket loop that acts on them lives with the
//! application.

use vstd::prelude::*;

verus! {

/// How reliably to deliver a packet.
#[derive(Debug, Clone, Copy, PartialEq, Eq, Structural)]
pub enum Reliability {
    /// No retransmit (spike, command, readiness, gossip).
    BestEffort,
    /// Retransmit up to 3 times (data gradients).
    Data,
    /// Retransmit up to 5 times (consensus).
    Consensus,
}

impl Reliability {
    /// Retransmissions allowed for each mode.
    pub open spec fn spec_max_retries(self) -> u32 {
        match self {
            Reliability::BestEffort => 0,
            Reliability::Data => 3,
            Reliability::Consensus => 5,
        }
    }

    /// Retransmissions allowed for this mode.
    pub fn max_retries(&self) -> (n: u32)
        ensures
            n == self.spec_max_retries(),
    {
        match self {
            Reliability::BestEffort => 0,
            Reliability::Data => 3,
            Reliability::Consensus => 5,
        }
    }

    /// Whether packets of this mode are tracked for retransmission.
    pub fn is_reliable(&self) -> (b: bool)
        ensures
            b == (*self != Reliability::BestEffort),
            b == (self.spec_max_retries() > 0),
    {
        match self {
            Reliability::BestEffort => false,
            Reliability::Data | Reliability::Consensus => true,
        }
    }
}

/// How long a peer may stay silent before it is evicted (5 minutes).
pub const PEER_TTL_MS: u64 = 300_000;

/// Whether a periodic phase with the given interval is due at `tick`, the
/// phase having last run at `last`.
pub fn phase_due(tick: u64, last: u64, interval: u64) -> (due: bool)
    requires
        tick >= last,
    ensures
        due == (tick - last >= interval),
{
    tick - last >= interval
}

/// Whether the heartbeat is due: heartbeats are enabled (interval > 0) and
/// the interval has passed since the last one.
pub fn heartbeat_due(tick: u64, last: u64, interval: u64) -> (due: bool)
    requires
        tick >= last,
    ensures
        due == (interval > 0 && tick - last >= interval),
{
    interval > 0 && tick - last >= interval
}

/// Whether a peer last seen at `last_seen_ms` is stale at `now_ms`: silent
/// for longer than [`PEER_TTL_MS`] (a clock behind the peer's stamp reads
/// as no silence).
pub fn peer_is_stale(now_ms: u64, last_seen_ms: u64) -> (stale: bool)
    ensures
        stale == (now_ms > last_seen_ms && now_ms - last_seen_ms > PEER_TTL_MS),
{
    now_ms.saturating_sub(last_seen_ms) > PEER_TTL_MS
}

/// What to do with a datagram from a source, by the connection limits.
#[derive(Debug, Clone, Copy, PartialEq, Eq, Structural)]
pub enum Admission {
    /// Accept; `new_ip_slot` says whether the source takes a new per-IP slot.
    Accept {
        /// Whether the source's IP count is incremented.
        new_ip_slot: bool,
    },
    /// Refuse: the node is at its peer capacity.
    TooManyPeers,
    /// Refuse: the source's IP holds all its allowed connections.
    PerIpLimit,
}

/// The admission decision for a datagram. A known peer is always accepted.
/// An unknown one is refused when the peer table is full (`max_peers > 0`
/// and `peer_count >= max_peers`), else refused when its IP has used its
/// allowance (`per_ip_max > 0` and `ip_count >= per_ip_max`), else
/// accepted, taking an IP slot when per-IP limiting is on.
pub open spec fn spec_admit(
    known: bool,
    peer_count: usize,
    max_peers: usize,
    ip_count: usize,
    per_ip_max: usize,
) -> Admission {
    if known {
        Admission::Accept { new_ip_slot: false }
    } else if max_peers > 0 && peer_count >= max_peers {
        Admission::TooManyPeers
    } else if per_ip_max > 0 && ip_count >= per_ip_max {
        Admission::PerIpLimit
    } else {
        Admission::Accept { new_ip_slot: per_ip_max > 0 }
    }
}

/// Decide whether to admit a datagram's source (see [`spec_admit`]).
pub fn admit_peer(
    known: bool,
    peer_count: usize,
    max_peers: usize,
    ip_count: usize,
    per_ip_max: usize,
) -> (a: Admission)
    ensures
        a == spec_admit(known, peer_count, max_peers, ip_count, per_ip_max),
{
    if !known && max_peers > 0 && peer_count >= max_peers {
        return Admission::TooManyPeers;
    }
    if per_ip_max > 0 && !known {
        if ip_count >= per_ip_max {
            return Admission::PerIpLimit;
        }
        return Admission::Accept { new_ip_slot: true };
    }
    Admission::Accept { new_ip_slot: false }
}

/// Law: admission never lets the peer table grow past a nonzero limit,
/// nor an IP's count past a nonzero allowance.
pub proof fn lemma_admission_respects_limits(
    known: bool,
    peer_count: usize,
    max_peers: usize,
    ip_count: usize,
    per_ip_max: usize,
)
    ensures
        ({
            let a = spec_admit(known, peer_count, max_peers, ip_count, per_ip_max);
            &&& (a is Accept && !known && max_peers > 0) ==> peer_count + 1 <= max_peers
            &&& (a matches Admission::Accept { new_ip_slot: true }) ==> ip_count + 1 <= per_ip_max
        }),
{
}

/// One step of the xorshift generator that drives simulated packet loss.
pub open spec fn spec_xorshift(x: u64) -> u64 {
    let a = x ^ (x << 13u64);
    let b = a ^ (a >> 7u64);
    b ^ (b << 17u64)
}

/// Advance the loss generator one step.
pub fn xorshift_step(x: u64) -> (y: u64)
    ensures
        y == spec_xorshift(x),
{
    let mut s: u64 = x;
    s = s ^ (s << 13u64);
    s = s ^ (s >> 7u64);
    s = s ^ (s << 17u64);
    s
}

} // verus!
