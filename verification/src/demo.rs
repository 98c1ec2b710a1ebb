//! Bookkeeping of the browser demo node: its schedule of heartbeats and
//! activation exchanges, its table of peers discovered through
//! heartbeats, and its linear congruential generator. The neurons, their
//! layout and the rendered state are floating point and live with the
//! application.

use vstd::prelude::*;

use crate::text::str_eq;

verus! {

/// Ticks between heartbeats (about half a second at 60 frames a second).
pub const HEARTBEAT_INTERVAL_TICKS: u64 = 30;

/// Ticks between activation exchanges with the peers (about a second).
pub const GRADIENT_EXCHANGE_INTERVAL: u64 = 60;

/// Ticks without a heartbeat after which a peer counts as gone.
pub const PEER_TIMEOUT_TICKS: u64 = 180;

/// Multiplier of the demo's linear congruential generator.
pub const LCG_MUL: u32 = 1_103_515_245;

/// Increment of the demo's linear congruential generator.
pub const LCG_INC: u32 = 12_345;

/// Whether the node broadcasts a heartbeat at tick `tick`.
pub fn heartbeat_due(tick: u64) -> (r: bool)
    ensures
        r == (tick % HEARTBEAT_INTERVAL_TICKS == 0),
{
    tick % HEARTBEAT_INTERVAL_TICKS == 0
}

/// Whether the node sends its activations to its peers at tick `tick`.
pub fn gradient_exchange_due(tick: u64) -> (r: bool)
    ensures
        r == (tick % GRADIENT_EXCHANGE_INTERVAL == 0),
{
    tick % GRADIENT_EXCHANGE_INTERVAL == 0
}

/// The generator's next state: `state * LCG_MUL + LCG_INC` modulo 2^32.
pub open spec fn spec_lcg_next(state: u32) -> u32 {
    ((state * LCG_MUL + LCG_INC) % 0x1_0000_0000) as u32
}

/// Advance the generator by one step.
pub fn lcg_next(state: u32) -> (r: u32)
    ensures
        r == spec_lcg_next(state),
{
    let m: u32 = state.wrapping_mul(LCG_MUL);
    let r: u32 = m.wrapping_add(LCG_INC);
    assert(r == spec_lcg_next(state)) by (nonlinear_arith)
        requires
            m == (state * LCG_MUL) % 0x1_0000_0000,
            r == (m + LCG_INC) % 0x1_0000_0000,
    ;
    r
}

/// The 23 bits of a generator state that make a draw in `[0, 1)`: bits 9
/// to 31, which the application divides by 2^23.
pub fn lcg_mantissa(state: u32) -> (r: u32)
    ensures
        r == state / 512,
        r < 0x80_0000,
{
    let r: u32 = (state >> 9u32) & 0x7F_FFFFu32;
    assert(r == state / 512 && r < 0x80_0000) by (bit_vector)
        requires
            r == (state >> 9u32) & 0x7F_FFFFu32,
    ;
    r
}

/// A peer the demo node has heard from.
#[derive(Debug, Clone)]
pub struct DemoPeer {
    /// The peer's tab identifier.
    pub id: String,
    /// Heartbeats heard from the peer, saturating.
    pub latency_ticks: u32,
    /// The tick at which the peer was last heard from.
    pub last_seen_tick: u64,
    /// Whether the peer has been heard from within the timeout.
    pub alive: bool,
}

/// A peer as plain values: id, heartbeat count, last tick heard, alive.
pub type PeerView = (Seq<char>, u32, u64, bool);

/// The plain values of a peer.
pub open spec fn peer_view(p: DemoPeer) -> PeerView {
    (p.id@, p.latency_ticks, p.last_seen_tick, p.alive)
}

/// The peer table of a demo node: each peer once, in the order they were
/// discovered.
#[derive(Debug, Clone)]
pub struct PeerBook {
    peers: Vec<DemoPeer>,
}

/// The position of the peer with identifier `id` in `v`, if any.
pub open spec fn position_of(v: Seq<PeerView>, id: Seq<char>) -> Option<int> {
    if exists|i: int| 0 <= i < v.len() && (#[trigger] v[i]).0 == id {
        Some(choose|i: int| 0 <= i < v.len() && (#[trigger] v[i]).0 == id)
    } else {
        None
    }
}

/// No identifier occurs twice in `v`.
pub open spec fn distinct_ids(v: Seq<PeerView>) -> bool {
    forall|i: int, j: int| 0 <= i < j < v.len() ==> (#[trigger] v[i]).0 != (#[trigger] v[j]).0
}

/// What hearing from a peer did to the table.
#[derive(Debug, Clone, Copy, PartialEq, Eq, Structural)]
pub enum Heard {
    /// The message was the node's own, or had no sender: ignored.
    Ignored,
    /// The sender was a known peer, now refreshed.
    Known,
    /// The sender was new and joined the table.
    Discovered,
}

/// A known peer heard from at `now`: alive, last seen at `now`, with one
/// more heartbeat counted when `count` holds.
pub open spec fn refreshed(p: PeerView, now: u64, count: bool) -> PeerView {
    (
        p.0,
        if count {
            if p.1 < u32::MAX {
                (p.1 + 1) as u32
            } else {
                u32::MAX
            }
        } else {
            p.1
        },
        now,
        true,
    )
}

/// A live peer whose last heartbeat is more than [`PEER_TIMEOUT_TICKS`]
/// ago.
pub open spec fn spec_timed_out(p: PeerView, now: u64) -> bool {
    p.3 && now - p.2 > PEER_TIMEOUT_TICKS
}

/// A peer after the timeout check at `now`: marked gone if it timed out.
pub open spec fn after_timeout(p: PeerView, now: u64) -> PeerView {
    if spec_timed_out(p, now) {
        (p.0, p.1, p.2, false)
    } else {
        p
    }
}

/// The identifiers of the peers of `v` that time out at `now`, in order.
pub open spec fn timed_out_ids(v: Seq<PeerView>, now: u64) -> Seq<Seq<char>>
    decreases v.len(),
{
    if v.len() == 0 {
        Seq::empty()
    } else {
        timed_out_ids(v.drop_last(), now) + if spec_timed_out(v.last(), now) {
            seq![v.last().0]
        } else {
            Seq::<Seq<char>>::empty()
        }
    }
}

/// The identifiers held by a list of strings.
pub open spec fn ids_of(v: Seq<String>) -> Seq<Seq<char>> {
    v.map_values(|s: String| s@)
}

impl PeerBook {
    /// The peers as plain values, in order of discovery.
    pub closed spec fn view(&self) -> Seq<PeerView> {
        self.peers@.map_values(|p: DemoPeer| peer_view(p))
    }

    /// Every peer once.
    pub open spec fn wf(&self) -> bool {
        distinct_ids(self.view())
    }

    /// An empty table.
    pub fn new() -> (b: Self)
        ensures
            b.wf(),
            b.view() == Seq::<PeerView>::empty(),
    {
        let b = PeerBook { peers: Vec::new() };
        assert(b.view() =~= Seq::<PeerView>::empty());
        b
    }

    /// Number of peers in the table.
    pub fn len(&self) -> (n: usize)
        ensures
            n == self.view().len(),
    {
        self.peers.len()
    }

    /// The peer at position `i`.
    pub fn get(&self, i: usize) -> (p: &DemoPeer)
        requires
            i < self.view().len(),
        ensures
            peer_view(*p) == self.view()[i as int],
    {
        &self.peers[i]
    }

    /// Number of peers heard from within the timeout.
    pub fn alive_count(&self) -> (n: usize)
        ensures
            n == self.view().filter(|p: PeerView| p.3).len(),
    {
        let mut n: usize = 0;
        let mut i: usize = 0;
        while i < self.peers.len()
            invariant
                i <= self.peers@.len(),
                n <= i,
                n == self.view().take(i as int).filter(|p: PeerView| p.3).len(),
            decreases self.peers@.len() - i,
        {
            proof {
                let v = self.view();
                assert(v.take(i + 1).drop_last() =~= v.take(i as int));
                assert(v.take(i + 1).last() == v[i as int]);
                reveal(Seq::filter);
            }
            if self.peers[i].alive {
                n = n + 1;
            }
            i = i + 1;
        }
        proof {
            assert(self.view().take(i as int) =~= self.view());
        }
        n
    }

    /// Where the peer `id` sits in the table.
    fn find(&self, id: &str) -> (r: Option<usize>)
        requires
            self.wf(),
        ensures
            match r {
                Some(i) => i < self.view().len() && self.view()[i as int].0 == id@,
                None => position_of(self.view(), id@) is None,
            },
    {
        let mut i: usize = 0;
        while i < self.peers.len()
            invariant
                i <= self.peers@.len(),
                forall|k: int| 0 <= k < i ==> (#[trigger] self.view()[k]).0 != id@,
            decreases self.peers@.len() - i,
        {
            if str_eq(self.peers[i].id.as_str(), id) {
                return Some(i);
            }
            i = i + 1;
        }
        None
    }

    /// A message from `from` arrived at tick `now` at the node `own`: an
    /// empty sender or the node itself is ignored; a known peer is
    /// refreshed (alive, last seen now, and for a heartbeat one more beat
    /// counted); a new sender of a heartbeat joins the table with one beat.
    /// A new sender of anything else is ignored.
    pub fn heard(&mut self, own: &str, from: &str, now: u64, heartbeat: bool) -> (h: Heard)
        requires
            old(self).wf(),
        ensures
            final(self).wf(),
            from@.len() == 0 || from@ == own@ ==> h == Heard::Ignored && final(self).view() == old(
                self,
            ).view(),
            from@.len() > 0 && from@ != own@ ==> match position_of(old(self).view(), from@) {
                Some(i) => h == Heard::Known && final(self).view() == old(self).view().update(
                    i,
                    refreshed(old(self).view()[i], now, heartbeat),
                ),
                None => if heartbeat {
                    h == Heard::Discovered && final(self).view() == old(self).view().push(
                        (from@, 1u32, now, true),
                    )
                } else {
                    h == Heard::Ignored && final(self).view() == old(self).view()
                },
            },
    {
        if from.unicode_len() == 0 || str_eq(from, own) {
            return Heard::Ignored;
        }
        let ghost v0 = self.view();
        match self.find(from) {
            Some(i) => {
                proof {
                    let j = choose|j: int| 0 <= j < v0.len() && (#[trigger] v0[j]).0 == from@;
                    assert(v0[i as int].0 == from@);
                    if j != i {
                        if j < i {
                            assert(v0[j].0 != v0[i as int].0);
                        } else {
                            assert(v0[i as int].0 != v0[j].0);
                        }
                    }
                    assert(position_of(v0, from@) == Some(i as int));
                }
                let id: String = self.peers[i].id.clone();
                let beats: u32 = self.peers[i].latency_ticks;
                let latency: u32 = if heartbeat {
                    beats.saturating_add(1)
                } else {
                    beats
                };
                let p = DemoPeer { id, latency_ticks: latency, last_seen_tick: now, alive: true };
                assert(peer_view(p) == refreshed(v0[i as int], now, heartbeat));
                self.peers.set(i, p);
                proof {
                    assert(self.view() =~= v0.update(i as int, refreshed(v0[i as int], now, heartbeat)));
                }
                Heard::Known
            },
            None => {
                if !heartbeat {
                    return Heard::Ignored;
                }
                let p = DemoPeer {
                    id: String::from_str(from),
                    latency_ticks: 1,
                    last_seen_tick: now,
                    alive: true,
                };
                self.peers.push(p);
                proof {
                    assert(self.view() =~= v0.push((from@, 1u32, now, true)));
                    assert forall|a: int, b: int| 0 <= a < b < self.view().len() implies (
                    #[trigger] self.view()[a]).0 != (#[trigger] self.view()[b]).0 by {
                        if b == v0.len() {
                            assert(self.view()[a] == v0[a]);
                            if v0[a].0 == from@ {
                                assert(0 <= a < v0.len() && v0[a].0 == from@);
                            }
                        } else {
                            assert(self.view()[a] == v0[a] && self.view()[b] == v0[b]);
                        }
                    }
                }
                Heard::Discovered
            },
        }
    }

    /// Forget the peer `id` (its tab was closed); whether it was known.
    pub fn remove(&mut self, id: &str) -> (was: bool)
        requires
            old(self).wf(),
        ensures
            final(self).wf(),
            match position_of(old(self).view(), id@) {
                Some(i) => was && final(self).view() == old(self).view().remove(i),
                None => !was && final(self).view() == old(self).view(),
            },
    {
        let ghost v0 = self.view();
        match self.find(id) {
            Some(i) => {
                proof {
                    let j = choose|j: int| 0 <= j < v0.len() && (#[trigger] v0[j]).0 == id@;
                    if j != i {
                        if j < i {
                            assert(v0[j].0 != v0[i as int].0);
                        } else {
                            assert(v0[i as int].0 != v0[j].0);
                        }
                    }
                    assert(position_of(v0, id@) == Some(i as int));
                }
                self.peers.remove(i);
                proof {
                    assert(self.view() =~= v0.remove(i as int));
                    assert forall|a: int, b: int| 0 <= a < b < self.view().len() implies (
                    #[trigger] self.view()[a]).0 != (#[trigger] self.view()[b]).0 by {
                        let a0 = if a < i { a } else { a + 1 };
                        let b0 = if b < i { b } else { b + 1 };
                        assert(self.view()[a] == v0[a0] && self.view()[b] == v0[b0]);
                    }
                }
                true
            },
            None => false,
        }
    }

    /// Mark gone every live peer not heard from for more than
    /// [`PEER_TIMEOUT_TICKS`] ticks before `now`; the identifiers of those
    /// peers, in table order.
    pub fn expire(&mut self, now: u64) -> (gone: Vec<String>)
        requires
            old(self).wf(),
            forall|i: int| 0 <= i < old(self).view().len() ==> (#[trigger] old(self).view()[i]).2 <= now,
        ensures
            final(self).wf(),
            final(self).view().len() == old(self).view().len(),
            forall|i: int|
                0 <= i < old(self).view().len() ==> #[trigger] final(self).view()[i] == after_timeout(
                    old(self).view()[i],
                    now,
                ),
            ids_of(gone@) == timed_out_ids(old(self).view(), now),
    {
        let ghost v0 = self.view();
        let mut gone: Vec<String> = Vec::new();
        let n: usize = self.peers.len();
        let mut i: usize = 0;
        while i < n
            invariant
                n == v0.len(),
                self.view().len() == n,
                i <= n,
                forall|k: int| 0 <= k < n ==> (#[trigger] v0[k]).2 <= now,
                forall|k: int| 0 <= k < i ==> #[trigger] self.view()[k] == after_timeout(v0[k], now),
                forall|k: int| i <= k < n ==> #[trigger] self.view()[k] == v0[k],
                ids_of(gone@) == timed_out_ids(v0.take(i as int), now),
            decreases n - i,
        {
            let ghost pre = self.view();
            proof {
                assert(v0.take(i + 1).drop_last() =~= v0.take(i as int));
                assert(v0.take(i + 1).last() == v0[i as int]);
                assert(pre[i as int] == v0[i as int]);
            }
            if self.peers[i].alive && now - self.peers[i].last_seen_tick > PEER_TIMEOUT_TICKS {
                let id: String = self.peers[i].id.clone();
                let beats: u32 = self.peers[i].latency_ticks;
                let seen: u64 = self.peers[i].last_seen_tick;
                gone.push(self.peers[i].id.clone());
                self.peers.set(i, DemoPeer { id, latency_ticks: beats, last_seen_tick: seen, alive: false });
                proof {
                    assert(self.view() =~= pre.update(i as int, after_timeout(v0[i as int], now)));
                    assert(ids_of(gone@) =~= timed_out_ids(v0.take(i as int), now).push(v0[i as int].0));
                }
            } else {
                proof {
                    assert(after_timeout(v0[i as int], now) == v0[i as int]);
                    assert(timed_out_ids(v0.take(i + 1), now) =~= timed_out_ids(v0.take(i as int), now));
                }
            }
            i = i + 1;
        }
        proof {
            assert(v0.take(n as int) =~= v0);
            assert forall|a: int, b: int| 0 <= a < b < self.view().len() implies (
            #[trigger] self.view()[a]).0 != (#[trigger] self.view()[b]).0 by {
                assert(self.view()[a] == after_timeout(v0[a], now));
                assert(self.view()[b] == after_timeout(v0[b], now));
            }
        }
        gone
    }
}

} // verus!
