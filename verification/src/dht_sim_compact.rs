//! Compact DHT simulator for extreme scales: 16-byte messages and nodes
//! whose peer table is a sorted, duplicate-free, bounded list. Driving the
//! trials (including the statistical answers of virtual nodes) is the
//! application's part.
//!
//! Index arithmetic on the per-tick seed wraps around, as the optimised
//! build the simulator is run in does.

use vstd::prelude::*;

verus! {

/// Nodes that exist as objects.
pub const ACTIVE_MAX: u32 = 200_000;

/// Pings a node sends to bootstrap.
pub const BOOTSTRAP_PINGS: usize = 30;

/// Peers pinged per periodic round.
pub const PING_PER_ROUND: usize = 15;

/// FIND_NODE requests per periodic round.
pub const FIND_PER_ROUND: usize = 10;

/// Recommendations per pong.
pub const PONG_RECS: usize = 3;

/// Peer-table cap.
pub const MAX_PEERS: usize = 500;

/// Multiplier of the simulator's linear congruential seed.
pub const SEED_MUL: u64 = 6364136223846793005;

/// Increment of the simulator's linear congruential sequence.
pub const SEED_INC: u64 = 1442695040888963407;

/// A compact message: kind 0 = ping, 1 = pong, 2 = find-node, 3 =
/// node-found; `arg` is the recommended, sought or found node.
#[derive(Debug, Clone, Copy, PartialEq, Eq, Structural)]
pub struct Msg {
    /// Message kind.
    pub kind: u32,
    /// Sender.
    pub from: u32,
    /// Recipient.
    pub to: u32,
    /// Kind-specific node id.
    pub arg: u32,
}

impl Msg {
    /// A ping.
    pub fn ping(from: u32, to: u32) -> (m: Self)
        ensures
            m == (Msg { kind: 0, from, to, arg: 0 }),
    {
        Msg { kind: 0, from, to, arg: 0 }
    }

    /// A pong recommending `rec`.
    pub fn pong(from: u32, to: u32, rec: u32) -> (m: Self)
        ensures
            m == (Msg { kind: 1, from, to, arg: rec }),
    {
        Msg { kind: 1, from, to, arg: rec }
    }

    /// A request for `target`.
    pub fn find_node(from: u32, to: u32, target: u32) -> (m: Self)
        ensures
            m == (Msg { kind: 2, from, to, arg: target }),
    {
        Msg { kind: 2, from, to, arg: target }
    }

    /// An answer: `found` is known.
    pub fn node_found(from: u32, to: u32, found: u32) -> (m: Self)
        ensures
            m == (Msg { kind: 3, from, to, arg: found }),
    {
        Msg { kind: 3, from, to, arg: found }
    }
}

/// The sequence is strictly increasing (sorted, no duplicates).
pub open spec fn strictly_sorted(s: Seq<u32>) -> bool {
    forall|i: int, j: int| 0 <= i < j < s.len() ==> s[i] < s[j]
}

/// Binary search in a strictly increasing list: `Ok` with the position of
/// `x`, or `Err` with the position where `x` would be inserted.
pub fn sorted_search(s: &Vec<u32>, x: u32) -> (r: Result<usize, usize>)
    requires
        strictly_sorted(s@),
    ensures
        match r {
            Ok(i) => i < s@.len() && s@[i as int] == x,
            Err(i) => i <= s@.len() && (forall|k: int| 0 <= k < i ==> s@[k] < x) && (forall|k: int|
                i <= k < s@.len() ==> s@[k] > x),
        },
{
    let mut lo: usize = 0;
    let mut hi: usize = s.len();
    while lo < hi
        invariant
            lo <= hi <= s@.len(),
            strictly_sorted(s@),
            forall|k: int| 0 <= k < lo ==> s@[k] < x,
            forall|k: int| hi <= k < s@.len() ==> s@[k] > x,
        decreases hi - lo,
    {
        let mid: usize = lo + (hi - lo) / 2;
        let v: u32 = s[mid];
        if v == x {
            return Ok(mid);
        } else if v < x {
            lo = mid + 1;
        } else {
            hi = mid;
        }
    }
    Err(lo)
}

/// The bootstrap pings of node `id` for probe indices `0..n`: probe `i`
/// draws `r = id * SEED_MUL + i * SEED_INC` (mod 2^64) and pings `r mod
/// active` for the first half of the probes when the network is larger
/// than the active set, else `r mod total` (truncated to 32 bits), unless
/// that is the node itself.
pub open spec fn bootstrap_msgs(id: u32, total: u64, active: u32, n: nat) -> Seq<Msg>
    decreases n,
{
    if n == 0 {
        Seq::empty()
    } else {
        let i = (n - 1) as u64;
        let seed = vstd::wrapping::u64_specs::wrapping_mul(id as u64, SEED_MUL);
        let r = vstd::wrapping::u64_specs::wrapping_add(
            seed,
            vstd::wrapping::u64_specs::wrapping_mul(i, SEED_INC),
        );
        let hybrid = total > active as u64;
        let other = if hybrid && i < 15 {
            (r % (active as u64)) as u32
        } else {
            (r % total) as u32
        };
        let prev = bootstrap_msgs(id, total, active, (n - 1) as nat);
        if other != id {
            prev.push(Msg { kind: 0, from: id, to: other, arg: 0 })
        } else {
            prev
        }
    }
}

/// The periodic pings: ping `pi` goes to `peers[(pi * 73 + seed) % len]`
/// with `usize` wrap-around, for `pi` in `0..n`.
pub open spec fn periodic_pings(id: u32, peers: Seq<u32>, tick_seed: u64, n: nat) -> Seq<Msg>
    decreases n,
{
    if n == 0 {
        Seq::empty()
    } else {
        let pi = (n - 1) as usize;
        let idx = vstd::wrapping::usize_specs::wrapping_add(
            vstd::wrapping::usize_specs::wrapping_mul(pi, 73),
            tick_seed as usize,
        ) % (peers.len() as usize);
        periodic_pings(id, peers, tick_seed, (n - 1) as nat).push(
            Msg { kind: 0, from: id, to: peers[idx as int], arg: 0 },
        )
    }
}

/// The periodic FIND_NODE requests for `fi` in `0..n`: request `fi` asks
/// peer `peers[(fi * 31 + seed + 7) % len]` (with `usize` wrap-around)
/// for target `(seed * SEED_MUL + fi * SEED_INC) mod 2^64 mod total`,
/// truncated to 32 bits, unless that target is the node itself or a known
/// peer.
pub open spec fn periodic_finds(id: u32, peers: Seq<u32>, total: u64, tick_seed: u64, n: nat) -> Seq<
    Msg,
>
    decreases n,
{
    if n == 0 {
        Seq::empty()
    } else {
        let fi = (n - 1) as usize;
        let ask_idx = vstd::wrapping::usize_specs::wrapping_add(
            vstd::wrapping::usize_specs::wrapping_add(
                vstd::wrapping::usize_specs::wrapping_mul(fi, 31),
                tick_seed as usize,
            ),
            7,
        ) % (peers.len() as usize);
        let seed = vstd::wrapping::u64_specs::wrapping_mul(tick_seed, SEED_MUL);
        let target = (vstd::wrapping::u64_specs::wrapping_add(
            seed,
            vstd::wrapping::u64_specs::wrapping_mul(fi as u64, SEED_INC),
        ) % total) as u32;
        let prev = periodic_finds(id, peers, total, tick_seed, (n - 1) as nat);
        if target != id && !peers.contains(target) {
            prev.push(Msg { kind: 2, from: id, to: peers[ask_idx as int], arg: target })
        } else {
            prev
        }
    }
}

/// A compact simulated node.
pub struct Node {
    /// The node's id.
    pub id: u32,
    /// Known peers, strictly increasing.
    pub peers: Vec<u32>,
    /// Packets sent.
    pub pkts_out: u32,
}

impl Node {
    /// The peer list is sorted without duplicates, bounded by
    /// [`MAX_PEERS`], and never holds the node itself.
    pub open spec fn wf(&self) -> bool {
        &&& strictly_sorted(self.peers@)
        &&& self.peers@.len() <= MAX_PEERS
        &&& !self.peers@.contains(self.id)
    }

    /// A node with no peers.
    pub fn new(id: u32) -> (n: Self)
        ensures
            n.wf(),
            n.id == id,
            n.peers@ == Seq::<u32>::empty(),
            n.pkts_out == 0,
    {
        Node { id, peers: Vec::new(), pkts_out: 0 }
    }

    /// Add a peer: ignored for the node itself, for a full table and for a
    /// known peer; otherwise inserted in order.
    pub fn add_peer(&mut self, peer: u32)
        requires
            old(self).wf(),
        ensures
            final(self).wf(),
            final(self).id == old(self).id,
            final(self).pkts_out == old(self).pkts_out,
            if peer == old(self).id || old(self).peers@.len() >= MAX_PEERS
                || old(self).peers@.contains(peer) {
                final(self).peers@ == old(self).peers@
            } else {
                &&& final(self).peers@.to_set() == old(self).peers@.to_set().insert(peer)
                &&& final(self).peers@.len() == old(self).peers@.len() + 1
            },
    {
        if peer == self.id {
            return;
        }
        if self.peers.len() >= MAX_PEERS {
            return;
        }
        match sorted_search(&self.peers, peer) {
            Ok(_) => {},
            Err(idx) => {
                let ghost before = self.peers@;
                assert(!before.contains(peer));
                self.peers.insert(idx, peer);
                proof {
                    let after = self.peers@;
                    assert forall|i: int, j: int| 0 <= i < j < after.len() implies after[i]
                        < after[j] by {
                        if j < idx {
                        } else if j == idx {
                        } else if i < idx {
                        } else if i == idx {
                            assert(after[j] == before[j - 1]);
                        } else {
                            assert(after[i] == before[i - 1]);
                            assert(after[j] == before[j - 1]);
                        }
                    }
                    assert(after.to_set() =~= before.to_set().insert(peer)) by {
                        assert forall|x: u32| after.contains(x) <==> before.contains(x) || x
                            == peer by {
                            if after.contains(x) {
                                let k = choose|k: int| 0 <= k < after.len() && after[k] == x;
                                if k < idx {
                                    assert(before[k] == x);
                                } else if k > idx {
                                    assert(before[k - 1] == x);
                                }
                            }
                            if before.contains(x) {
                                let k = choose|k: int| 0 <= k < before.len() && before[k] == x;
                                if k < idx {
                                    assert(after[k] == x);
                                } else {
                                    assert(after[k + 1] == x);
                                }
                            }
                            if x == peer {
                                assert(after[idx as int] == peer);
                            }
                        }
                    }
                    assert(!after.contains(self.id)) by {
                        if after.contains(self.id) {
                            assert(after.to_set().contains(self.id));
                        }
                    }
                }
            },
        }
    }

    /// The bootstrap pings of this node (see [`bootstrap_msgs`]).
    pub fn bootstrap(&self, total_nodes: u64, tick_seed: u64, active: u32, buf: &mut Vec<Msg>)
        requires
            total_nodes > 0,
            active > 0,
        ensures
            final(buf)@ == old(buf)@ + bootstrap_msgs(
                self.id,
                total_nodes,
                active,
                BOOTSTRAP_PINGS as nat,
            ),
    {
        let seed: u64 = (self.id as u64).wrapping_mul(SEED_MUL);
        let is_hybrid: bool = total_nodes > active as u64;
        let ghost b0 = buf@;
        let mut i: usize = 0;
        while i < BOOTSTRAP_PINGS
            invariant
                i <= BOOTSTRAP_PINGS,
                total_nodes > 0,
                active > 0,
                seed == vstd::wrapping::u64_specs::wrapping_mul(self.id as u64, SEED_MUL),
                is_hybrid == (total_nodes > active as u64),
                buf@ == b0 + bootstrap_msgs(self.id, total_nodes, active, i as nat),
            decreases BOOTSTRAP_PINGS - i,
        {
            let r: u64 = seed.wrapping_add((i as u64).wrapping_mul(SEED_INC));
            let other: u32 = if is_hybrid && i < BOOTSTRAP_PINGS / 2 {
                #[verifier::truncate]
                ((r % active as u64) as u32)
            } else {
                #[verifier::truncate]
                ((r % total_nodes) as u32)
            };
            if other != self.id {
                buf.push(Msg::ping(self.id, other));
            }
            i = i + 1;
            assert(buf@ =~= b0 + bootstrap_msgs(self.id, total_nodes, active, i as nat));
        }
    }

    /// A periodic round: up to 15 pings to known peers, then (with at least
    /// 5 peers) up to 10 FIND_NODE requests for unknown targets (see
    /// [`periodic_pings`] and [`periodic_finds`]); nothing without peers.
    pub fn periodic(&self, total_nodes: u64, tick_seed: u64, buf: &mut Vec<Msg>)
        requires
            total_nodes > 0,
            strictly_sorted(self.peers@),
        ensures
            final(buf)@ == old(buf)@ + if self.peers@.len() == 0 {
                Seq::<Msg>::empty()
            } else {
                periodic_pings(
                    self.id,
                    self.peers@,
                    tick_seed,
                    if self.peers@.len() < PING_PER_ROUND {
                        self.peers@.len()
                    } else {
                        PING_PER_ROUND as nat
                    },
                ) + if self.peers@.len() >= 5 {
                    periodic_finds(
                        self.id,
                        self.peers@,
                        total_nodes,
                        tick_seed,
                        FIND_PER_ROUND as nat,
                    )
                } else {
                    Seq::<Msg>::empty()
                }
            },
    {
        let ghost b0 = buf@;
        if self.peers.len() == 0 {
            assert(buf@ =~= b0 + Seq::<Msg>::empty());
            return;
        }
        let count: usize = self.peers.len();
        let seed: u64 = tick_seed.wrapping_mul(SEED_MUL);
        let np: usize = if PING_PER_ROUND < count {
            PING_PER_ROUND
        } else {
            count
        };
        let mut pi: usize = 0;
        while pi < np
            invariant
                pi <= np,
                count == self.peers@.len(),
                count > 0,
                buf@ == b0 + periodic_pings(self.id, self.peers@, tick_seed, pi as nat),
            decreases np - pi,
        {
            let idx: usize = pi.wrapping_mul(73).wrapping_add(tick_seed as usize) % count;
            let peer: u32 = self.peers[idx];
            buf.push(Msg::ping(self.id, peer));
            pi = pi + 1;
            assert(buf@ =~= b0 + periodic_pings(self.id, self.peers@, tick_seed, pi as nat));
        }
        let ghost b1 = buf@;
        if count >= 5 {
            let mut fi: usize = 0;
            while fi < FIND_PER_ROUND
                invariant
                    fi <= FIND_PER_ROUND,
                    count == self.peers@.len(),
                    count >= 5,
                    total_nodes > 0,
                    strictly_sorted(self.peers@),
                    seed == vstd::wrapping::u64_specs::wrapping_mul(tick_seed, SEED_MUL),
                    buf@ == b1 + periodic_finds(
                        self.id,
                        self.peers@,
                        total_nodes,
                        tick_seed,
                        fi as nat,
                    ),
                decreases FIND_PER_ROUND - fi,
            {
                let ask_idx: usize = fi.wrapping_mul(31).wrapping_add(tick_seed as usize).wrapping_add(
                    7,
                ) % count;
                let ask: u32 = self.peers[ask_idx];
                let target: u64 = seed.wrapping_add((fi as u64).wrapping_mul(SEED_INC))
                    % total_nodes;
                let tu: u32 = #[verifier::truncate] (target as u32);
                let known: bool = match sorted_search(&self.peers, tu) {
                    Ok(_) => true,
                    Err(_) => false,
                };
                proof {
                    if !known {
                        assert(!self.peers@.contains(tu)) by {
                            if self.peers@.contains(tu) {
                                let k = choose|k: int| 0 <= k < self.peers@.len() && self.peers@[k]
                                    == tu;
                            }
                        }
                    }
                }
                if tu != self.id && !known {
                    buf.push(Msg::find_node(self.id, ask, tu));
                }
                fi = fi + 1;
                assert(buf@ =~= b1 + periodic_finds(
                    self.id,
                    self.peers@,
                    total_nodes,
                    tick_seed,
                    fi as nat,
                ));
            }
        }
        assert(buf@ =~= b0 + (periodic_pings(self.id, self.peers@, tick_seed, np as nat) + if count
            >= 5 {
            periodic_finds(self.id, self.peers@, total_nodes, tick_seed, FIND_PER_ROUND as nat)
        } else {
            Seq::<Msg>::empty()
        }));
    }
}


// ─── Delivery ──────────────────────────────────────────────────

/// The pongs a node with `peers` sends for a ping from `from`, for
/// recommendation slots `0..n`: slot `r` recommends
/// `peers[(seed * 3 + r) % len]` (with `usize` wrap-around) unless that
/// is the node itself.
pub open spec fn rec_pongs(id: u32, from: u32, peers: Seq<u32>, tick_seed: u64, n: nat) -> Seq<Msg>
    decreases n,
{
    if n == 0 {
        Seq::empty()
    } else {
        let r = (n - 1) as usize;
        let idx = vstd::wrapping::usize_specs::wrapping_add(
            vstd::wrapping::usize_specs::wrapping_mul(tick_seed as usize, 3),
            r,
        ) % (peers.len() as usize);
        let prev = rec_pongs(id, from, peers, tick_seed, (n - 1) as nat);
        let rec = peers[idx as int];
        if rec != id {
            prev.push(Msg { kind: 1, from: id, to: from, arg: rec })
        } else {
            prev
        }
    }
}

/// The answer of a node to a ping, given its peers after taking the
/// sender in: the pongs of up to [`PONG_RECS`] slots, or a single pong
/// recommending the node itself when none was sent.
pub open spec fn ping_answer(id: u32, from: u32, peers: Seq<u32>, tick_seed: u64) -> Seq<Msg> {
    let n = if peers.len() < PONG_RECS {
        peers.len()
    } else {
        PONG_RECS as nat
    };
    let sent = rec_pongs(id, from, peers, tick_seed, n);
    if sent.len() == 0 {
        seq![Msg { kind: 1, from: id, to: from, arg: id }]
    } else {
        sent
    }
}

/// The peers of a node after learning of `p` (see [`Node::add_peer`]).
pub open spec fn learned(peers: Set<u32>, len: nat, id: u32, p: u32) -> Set<u32> {
    if p == id || len >= MAX_PEERS || peers.contains(p) {
        peers
    } else {
        peers.insert(p)
    }
}

impl Node {
    /// Handle a message addressed to this node: a ping makes the sender a
    /// peer, counts a packet and is answered with pongs (see
    /// [`ping_answer`]); a pong makes the sender and its recommendation
    /// (unless it is this node or 0) peers; a find-node request makes the
    /// sender a peer and is answered, counting a packet, when the target is
    /// known or is this node; a node-found message makes the found node a
    /// peer unless it is this node. Other kinds are ignored.
    pub fn receive(&mut self, msg: Msg, tick_seed: u64, out: &mut Vec<Msg>)
        requires
            old(self).wf(),
            (msg.kind == 0 || msg.kind == 2) ==> old(self).pkts_out < u32::MAX,
        ensures
            final(self).wf(),
            final(self).id == old(self).id,
            ({
                let id = old(self).id;
                let p0 = old(self).peers@;
                let p1 = final(self).peers@;
                if msg.kind == 0 {
                    &&& p1.to_set() == learned(p0.to_set(), p0.len(), id, msg.from)
                    &&& final(self).pkts_out == old(self).pkts_out + 1
                    &&& final(out)@ == old(out)@ + ping_answer(id, msg.from, p1, tick_seed)
                } else if msg.kind == 1 {
                    let p_mid = learned(p0.to_set(), p0.len(), id, msg.from);
                    &&& (msg.arg != id && msg.arg != 0 ==> p1.to_set() == learned(
                        p_mid,
                        p_mid.len(),
                        id,
                        msg.arg,
                    ))
                    &&& (!(msg.arg != id && msg.arg != 0) ==> p1.to_set() == p_mid)
                    &&& final(self).pkts_out == old(self).pkts_out
                    &&& final(out)@ == old(out)@
                } else if msg.kind == 2 {
                    let found = p1.contains(msg.arg) || msg.arg == id;
                    &&& p1.to_set() == learned(p0.to_set(), p0.len(), id, msg.from)
                    &&& final(self).pkts_out == if found {
                        old(self).pkts_out + 1
                    } else {
                        old(self).pkts_out as int
                    }
                    &&& final(out)@ == old(out)@ + if found {
                        seq![Msg { kind: 3, from: id, to: msg.from, arg: msg.arg }]
                    } else {
                        Seq::<Msg>::empty()
                    }
                } else if msg.kind == 3 && msg.arg != id {
                    &&& p1.to_set() == learned(p0.to_set(), p0.len(), id, msg.arg)
                    &&& final(self).pkts_out == old(self).pkts_out
                    &&& final(out)@ == old(out)@
                } else {
                    &&& p1 == p0
                    &&& final(self).pkts_out == old(self).pkts_out
                    &&& final(out)@ == old(out)@
                }
            }),
    {
        proof {
            self.peers@.unique_seq_to_set();
        }
        if msg.kind == 0 {
            self.add_peer(msg.from);
            self.pkts_out = self.pkts_out + 1;
            let count: usize = self.peers.len();
            let n: usize = if PONG_RECS < count {
                PONG_RECS
            } else {
                count
            };
            let ghost o0 = out@;
            let mut sent: bool = false;
            let mut r: usize = 0;
            while r < n
                invariant
                    r <= n,
                    count == self.peers@.len(),
                    n <= count,
                    n <= PONG_RECS,
                    out@ == o0 + rec_pongs(self.id, msg.from, self.peers@, tick_seed, r as nat),
                    sent == (rec_pongs(self.id, msg.from, self.peers@, tick_seed, r as nat).len()
                        > 0),
                decreases n - r,
            {
                let idx: usize = (tick_seed as usize).wrapping_mul(3).wrapping_add(r) % count;
                let rec: u32 = self.peers[idx];
                if rec != self.id {
                    out.push(Msg::pong(self.id, msg.from, rec));
                    sent = true;
                }
                r = r + 1;
                assert(out@ =~= o0 + rec_pongs(self.id, msg.from, self.peers@, tick_seed, r as nat));
            }
            if !sent {
                out.push(Msg::pong(self.id, msg.from, self.id));
                assert(rec_pongs(self.id, msg.from, self.peers@, tick_seed, n as nat) =~= Seq::<
                    Msg,
                >::empty());
                assert(out@ =~= o0 + seq![Msg { kind: 1, from: self.id, to: msg.from, arg: self.id }]);
            }
        } else if msg.kind == 1 {
            self.add_peer(msg.from);
            proof {
                self.peers@.unique_seq_to_set();
            }
            if msg.arg != self.id && msg.arg != 0 {
                self.add_peer(msg.arg);
            }
        } else if msg.kind == 2 {
            self.add_peer(msg.from);
            let known: bool = match sorted_search(&self.peers, msg.arg) {
                Ok(_) => true,
                Err(_) => false,
            };
            if known || msg.arg == self.id {
                out.push(Msg::node_found(self.id, msg.from, msg.arg));
                self.pkts_out = self.pkts_out + 1;
            }
        } else if msg.kind == 3 {
            if msg.arg != self.id {
                self.add_peer(msg.arg);
            }
        }
    }
}

/// The pongs a virtual node sends for a ping from `from`, for slots
/// `0..n`: while the sender knows more than 3 peers, the first two slots
/// recommend `sender_peers[(seed * 7 + r * 11) % len]` (with `usize`
/// wrap-around); the other slots recommend the active node
/// `(seed * SEED_MUL + r * SEED_INC) mod 2^64 mod active`.
pub open spec fn virtual_pongs(
    to: u32,
    from: u32,
    sender_peers: Seq<u32>,
    tick_seed: u64,
    active: u32,
    n: nat,
) -> Seq<Msg>
    decreases n,
{
    if n == 0 {
        Seq::empty()
    } else {
        let r = (n - 1) as usize;
        let sp = sender_peers.len();
        let rec: u32 = if sp > 3 && r < 2 {
            let idx = vstd::wrapping::usize_specs::wrapping_add(
                vstd::wrapping::usize_specs::wrapping_mul(tick_seed as usize, 7),
                (r * 11) as usize,
            ) % (sp as usize);
            sender_peers[idx as int]
        } else {
            (vstd::wrapping::u64_specs::wrapping_add(
                vstd::wrapping::u64_specs::wrapping_mul(tick_seed, SEED_MUL),
                vstd::wrapping::u64_specs::wrapping_mul(r as u64, SEED_INC),
            ) % (active as u64)) as u32
        };
        virtual_pongs(to, from, sender_peers, tick_seed, active, (n - 1) as nat).push(
            Msg { kind: 1, from: to, to: from, arg: rec },
        )
    }
}

/// Whether a message goes to a virtual node: the network is larger than
/// the active set and the recipient lies beyond it.
pub fn is_virtual_target(to: u32, active: u32, is_hybrid: bool) -> (b: bool)
    ensures
        b == (to >= active && is_hybrid),
{
    to >= active && is_hybrid
}

/// The answer of a virtual node (one beyond the active set): a ping gets
/// [`PONG_RECS`] pongs (see [`virtual_pongs`], `sender_peers` being the
/// peers of the sender, or of the last active node for a sender beyond
/// the active set); a find-node request is always answered as found;
/// other kinds get nothing.
pub fn virtual_reply(sender_peers: &Vec<u32>, msg: Msg, tick_seed: u64, active: u32, out: &mut Vec<Msg>)
    requires
        active > 0,
    ensures
        final(out)@ == old(out)@ + if msg.kind == 0 {
            virtual_pongs(msg.to, msg.from, sender_peers@, tick_seed, active, PONG_RECS as nat)
        } else if msg.kind == 2 {
            seq![Msg { kind: 3, from: msg.to, to: msg.from, arg: msg.arg }]
        } else {
            Seq::<Msg>::empty()
        },
{
    let ghost o0 = out@;
    if msg.kind == 0 {
        let sp: usize = sender_peers.len();
        let mut r: usize = 0;
        while r < PONG_RECS
            invariant
                r <= PONG_RECS,
                active > 0,
                sp == sender_peers@.len(),
                out@ == o0 + virtual_pongs(msg.to, msg.from, sender_peers@, tick_seed, active, r as nat),
            decreases PONG_RECS - r,
        {
            let rec: u32 = if sp > 3 && r < 2 {
                let idx: usize = (tick_seed as usize).wrapping_mul(7).wrapping_add(r * 11) % sp;
                sender_peers[idx]
            } else {
                let rid: u64 = tick_seed.wrapping_mul(SEED_MUL).wrapping_add(
                    (r as u64).wrapping_mul(SEED_INC),
                ) % active as u64;
                rid as u32
            };
            out.push(Msg::pong(msg.to, msg.from, rec));
            r = r + 1;
            assert(out@ =~= o0 + virtual_pongs(msg.to, msg.from, sender_peers@, tick_seed, active, r as nat));
        }
    } else if msg.kind == 2 {
        out.push(Msg::node_found(msg.to, msg.from, msg.arg));
        assert(out@ =~= o0 + seq![Msg { kind: 3, from: msg.to, to: msg.from, arg: msg.arg }]);
    } else {
        assert(out@ =~= o0 + Seq::<Msg>::empty());
    }
}


// ─── Rounds ────────────────────────────────────────────────────

/// What a tick of the simulation does: bootstrap the active nodes
/// `lo..hi`, run the periodic round of every `step`-th node from `start`,
/// or nothing.
#[derive(Debug, Clone, Copy, PartialEq, Eq, Structural)]
pub enum RoundPlan {
    /// Bootstrap the nodes `lo..hi` that have no peers yet.
    Bootstrap { lo: u32, hi: u32 },
    /// Periodic rounds of the nodes `start, start + step, ...` below the
    /// active count.
    Periodic { start: u32, step: u32 },
    /// Nothing to generate.
    Idle,
}

/// The plan of a tick: while bootstrapping is not done and nodes remain,
/// the next batch of `bsize` nodes; once it is done, every 500th tick
/// (but the first), a round visiting a fifth of the nodes, round-robin
/// (`step = active / max(active / 5, 1)`, at least 1, starting at
/// `(tick / 500) mod step`); otherwise nothing.
pub open spec fn spec_round_plan(tick: u64, bootstrap_done: bool, next_bs: u32, active: u32, bsize: u32) -> RoundPlan {
    if !bootstrap_done && next_bs < active {
        let end = if next_bs + bsize < active {
            (next_bs + bsize) as u32
        } else {
            active
        };
        RoundPlan::Bootstrap { lo: next_bs, hi: end }
    } else if bootstrap_done && tick > 0 && tick % 500 == 0 {
        let visit = if active / 5 > 1 {
            active / 5
        } else {
            1
        };
        let step = if active / visit > 1 {
            active / visit
        } else {
            1
        };
        let round = tick / 500;
        RoundPlan::Periodic { start: ((round as u32) % (step as u32)) as u32, step: step as u32 }
    } else {
        RoundPlan::Idle
    }
}

/// Plan a tick (see [`spec_round_plan`]).
pub fn round_plan(tick: u64, bootstrap_done: bool, next_bs: u32, active: u32, bsize: u32) -> (p: RoundPlan)
    ensures
        p == spec_round_plan(tick, bootstrap_done, next_bs, active, bsize),
{
    if !bootstrap_done && next_bs < active {
        let end: u32 = if (next_bs as u64) + (bsize as u64) < active as u64 {
            next_bs + bsize
        } else {
            active
        };
        RoundPlan::Bootstrap { lo: next_bs, hi: end }
    } else if bootstrap_done && tick > 0 && tick % 500 == 0 {
        let visit: u32 = if active / 5 > 1 {
            active / 5
        } else {
            1
        };
        let step: u32 = if active / visit > 1 {
            active / visit
        } else {
            1
        };
        let round: u64 = tick / 500;
        RoundPlan::Periodic { start: (#[verifier::truncate] (round as u32)) % step, step }
    } else {
        RoundPlan::Idle
    }
}

/// The bootstrap pings of the nodes `lo..hi` that have no peers yet, in
/// node order.
pub open spec fn batch_msgs(nodes: Seq<Node>, lo: int, hi: int, total: u64, active: u32) -> Seq<Msg>
    decreases hi - lo,
{
    if hi <= lo {
        Seq::empty()
    } else {
        let n = nodes[hi - 1];
        batch_msgs(nodes, lo, hi - 1, total, active) + if n.peers@.len() == 0 {
            bootstrap_msgs(n.id, total, active, BOOTSTRAP_PINGS as nat)
        } else {
            Seq::<Msg>::empty()
        }
    }
}

/// Bootstrap the nodes `lo..hi` that have no peers yet.
pub fn bootstrap_batch(
    nodes: &Vec<Node>,
    lo: u32,
    hi: u32,
    total_nodes: u64,
    tick_seed: u64,
    active: u32,
    out: &mut Vec<Msg>,
)
    requires
        lo <= hi <= nodes@.len(),
        total_nodes > 0,
        active > 0,
    ensures
        final(out)@ == old(out)@ + batch_msgs(nodes@, lo as int, hi as int, total_nodes, active),
{
    let ghost o0 = out@;
    let mut i: u32 = lo;
    while i < hi
        invariant
            lo <= i <= hi <= nodes@.len(),
            total_nodes > 0,
            active > 0,
            out@ == o0 + batch_msgs(nodes@, lo as int, i as int, total_nodes, active),
        decreases hi - i,
    {
        let n = &nodes[i as usize];
        let ghost before = out@;
        if n.peers.len() == 0 {
            n.bootstrap(total_nodes, tick_seed, active, out);
        }
        i = i + 1;
        proof {
            assert(nodes@[i - 1] == *n);
            if n.peers@.len() == 0 {
                assert(out@ =~= o0 + batch_msgs(nodes@, lo as int, i as int, total_nodes, active));
            } else {
                assert(out@ =~= o0 + batch_msgs(nodes@, lo as int, i as int, total_nodes, active));
            }
        }
    }
}

/// The messages of one periodic round of a node (see [`Node::periodic`]).
pub open spec fn round_msgs(n: Node, total: u64, tick_seed: u64) -> Seq<Msg> {
    if n.peers@.len() == 0 {
        Seq::<Msg>::empty()
    } else {
        periodic_pings(
            n.id,
            n.peers@,
            tick_seed,
            if n.peers@.len() < PING_PER_ROUND {
                n.peers@.len()
            } else {
                PING_PER_ROUND as nat
            },
        ) + if n.peers@.len() >= 5 {
            periodic_finds(n.id, n.peers@, total, tick_seed, FIND_PER_ROUND as nat)
        } else {
            Seq::<Msg>::empty()
        }
    }
}

/// The periodic rounds of the first `k` nodes visited from `start` in
/// steps of `step`.
pub open spec fn visit_msgs(nodes: Seq<Node>, start: int, step: int, k: nat, total: u64, tick_seed: u64) -> Seq<Msg>
    decreases k,
{
    if k == 0 {
        Seq::empty()
    } else {
        visit_msgs(nodes, start, step, (k - 1) as nat, total, tick_seed) + round_msgs(
            nodes[start + (k - 1) * step],
            total,
            tick_seed,
        )
    }
}

/// How many positions `start, start + step, ...` lie below `n`.
pub open spec fn visit_count(start: int, step: int, n: int) -> nat {
    if start >= n {
        0
    } else {
        ((n as int - start as int + step as int - 1) / (step as int)) as nat
    }
}

/// One more visit: the next position, and whether it is still below `n`.
proof fn lemma_visit_step(start: int, step: int, n: int, i: int, k: nat)
    requires
        step > 0,
        0 <= start <= i < n,
        i == start + k * step,
    ensures
        start + (k + 1) * step == i + step,
        i + step < n ==> k + 1 < visit_count(start, step, n),
        i + step >= n ==> k + 1 == visit_count(start, step, n),
{
    let vc = visit_count(start, step, n);
    assert(vc == (n - start + step - 1) / step);
    assert(start + (k + 1) * step == i + step) by (nonlinear_arith)
        requires
            i == start + k * step,
    ;
    if i + step < n {
        assert(k + 1 < vc) by (nonlinear_arith)
            requires
                i == start + k * step,
                i + step < n,
                vc == (n - start + step - 1) / step,
                step > 0,
                start <= i,
        ;
    } else {
        assert(k + 1 == vc) by (nonlinear_arith)
            requires
                i == start + k * step,
                i + step >= n,
                i < n,
                vc == (n - start + step - 1) / step,
                step > 0,
                start <= i,
        ;
    }
}

/// Run the periodic round of every `step`-th node from `start` on.
pub fn periodic_visit(nodes: &Vec<Node>, start: u32, step: u32, total_nodes: u64, tick_seed: u64, out: &mut Vec<Msg>)
    requires
        step > 0,
        total_nodes > 0,
        nodes@.len() <= u32::MAX,
        forall|i: int| 0 <= i < nodes@.len() ==> strictly_sorted(#[trigger] nodes@[i].peers@),
    ensures
        final(out)@ == old(out)@ + visit_msgs(
            nodes@,
            start as int,
            step as int,
            visit_count(start as int, step as int, nodes@.len() as int),
            total_nodes,
            tick_seed,
        ),
{
    let ghost o0 = out@;
    let n: u64 = nodes.len() as u64;
    let mut i: u64 = start as u64;
    let ghost mut k: nat = 0;
    proof {
        let vc = visit_count(start as int, step as int, n as int);
        if (start as int) < n {
            assert(vc >= 1) by (nonlinear_arith)
                requires
                    vc == (n as int - start as int + step as int - 1) / (step as int),
                    step > 0,
                    start < n,
            ;
        }
    }
    while i < n
        invariant
            n == nodes@.len(),
            n <= u32::MAX,
            step > 0,
            total_nodes > 0,
            forall|j: int| 0 <= j < nodes@.len() ==> strictly_sorted(#[trigger] nodes@[j].peers@),
            i == start + k * step,
            i < n ==> k < visit_count(start as int, step as int, n as int),
            i >= n ==> k == visit_count(start as int, step as int, n as int),
            out@ == o0 + visit_msgs(nodes@, start as int, step as int, k, total_nodes, tick_seed),
        decreases visit_count(start as int, step as int, n as int) - k,
    {
        proof {
            assert(strictly_sorted(nodes@[i as int].peers@));
        }
        nodes[i as usize].periodic(total_nodes, tick_seed, out);
        proof {
            assert(out@ =~= o0 + visit_msgs(nodes@, start as int, step as int, k + 1, total_nodes, tick_seed));
            lemma_visit_step(start as int, step as int, n as int, i as int, k);
            k = k + 1;
        }
        i = i + step as u64;
    }
}

/// Figures over a sample of the nodes.
#[derive(Debug, Clone, Copy, PartialEq, Eq)]
pub struct SampleStats {
    /// Nodes sampled.
    pub samples: u64,
    /// Their peers, summed.
    pub total_peers: u64,
    /// The most peers of one of them.
    pub max_peers: usize,
    /// Those with at least the threshold of peers.
    pub converged: u64,
    /// Their packets sent, summed.
    pub packets: u64,
}

/// The figures of the first `k` sampled nodes (every `step`-th from the
/// first): summed peers, most peers, converged count, summed packets.
pub open spec fn sample_figures(nodes: Seq<Node>, step: int, threshold: nat, k: nat) -> (nat, nat, nat, nat)
    decreases k,
{
    if k == 0 {
        (0, 0, 0, 0)
    } else {
        let (tp, mp, cv, pk) = sample_figures(nodes, step, threshold, (k - 1) as nat);
        let n = nodes[(k - 1) * step];
        let pc = n.peers@.len();
        (
            tp + pc,
            if pc > mp {
                pc
            } else {
                mp
            },
            cv + if pc >= threshold {
                1nat
            } else {
                0nat
            },
            pk + (n.pkts_out as nat),
        )
    }
}

/// Sample every `step`-th node from the first (see [`sample_figures`]).
pub fn sample_stats(nodes: &Vec<Node>, step: u32, threshold: usize) -> (st: SampleStats)
    requires
        step > 0,
        nodes@.len() <= u32::MAX,
        forall|i: int| 0 <= i < nodes@.len() ==> (#[trigger] nodes@[i]).wf(),
    ensures
        ({
            let k = visit_count(0, step as int, nodes@.len() as int);
            let (tp, mp, cv, pk) = sample_figures(nodes@, step as int, threshold as nat, k);
            &&& st.samples == k
            &&& st.total_peers == tp
            &&& st.max_peers == mp
            &&& st.converged == cv
            &&& st.packets == pk
        }),
{
    let n: u64 = nodes.len() as u64;
    let mut i: u64 = 0;
    let mut samples: u64 = 0;
    let mut total_peers: u64 = 0;
    let mut max_peers: usize = 0;
    let mut converged: u64 = 0;
    let mut packets: u64 = 0;
    proof {
        if 0 < n {
            assert(visit_count(0, step as int, n as int) >= 1) by (nonlinear_arith)
                requires
                    visit_count(0, step as int, n as int) == (n as int + step as int - 1) / (
                    step as int),
                    step > 0,
                    n > 0,
            ;
        }
    }
    while i < n
        invariant
            n == nodes@.len(),
            n <= u32::MAX,
            step > 0,
            forall|j: int| 0 <= j < nodes@.len() ==> (#[trigger] nodes@[j]).wf(),
            i == samples * step,
            samples <= n,
            i < n ==> samples < visit_count(0, step as int, n as int),
            i >= n ==> samples == visit_count(0, step as int, n as int),
            ({
                let (tp, mp, cv, pk) = sample_figures(
                    nodes@,
                    step as int,
                    threshold as nat,
                    samples as nat,
                );
                &&& total_peers == tp
                &&& max_peers == mp
                &&& converged == cv
                &&& packets == pk
            }),
            total_peers <= samples * MAX_PEERS,
            max_peers <= MAX_PEERS,
            converged <= samples,
            packets <= samples * 0xFFFF_FFFFu64,
        decreases visit_count(0, step as int, n as int) - samples,
    {
        let node = &nodes[i as usize];
        proof {
            assert(node.wf());
            assert(nodes@[(samples * step) as int] == *node);
            assert(samples <= i) by (nonlinear_arith)
                requires
                    i == samples * step,
                    step > 0,
            ;
            assert(samples * MAX_PEERS + MAX_PEERS <= u64::MAX) by (nonlinear_arith)
                requires
                    samples < n,
                    n <= u32::MAX,
            ;
            assert(samples * 0xFFFF_FFFFu64 + 0xFFFF_FFFFu64 <= u64::MAX) by (nonlinear_arith)
                requires
                    samples < n,
                    n <= u32::MAX,
            ;
        }
        let pc: usize = node.peers.len();
        total_peers = total_peers + pc as u64;
        if pc > max_peers {
            max_peers = pc;
        }
        if pc >= threshold {
            converged = converged + 1;
        }
        packets = packets + node.pkts_out as u64;
        proof {
            lemma_visit_step(0, step as int, n as int, i as int, samples as nat);
            assert((samples + 1) * MAX_PEERS == samples * MAX_PEERS + MAX_PEERS) by (nonlinear_arith);
            assert((samples + 1) * 0xFFFF_FFFFu64 == samples * 0xFFFF_FFFFu64 + 0xFFFF_FFFFu64)
                by (nonlinear_arith);
            assert(samples + 1 <= n) by (nonlinear_arith)
                requires
                    i == samples * step,
                    i < n,
                    step > 0,
            ;
        }
        samples = samples + 1;
        i = i + step as u64;
    }
    SampleStats { samples, total_peers, max_peers, converged, packets }
}

// ─── A round's delivery ────────────────────────────────────────

/// Whether a message is answered: pings and find-node requests.
pub open spec fn answered(m: Msg) -> bool {
    m.kind == 0 || m.kind == 2
}

/// Number of messages of `s` that are answered.
pub open spec fn answered_count(s: Seq<Msg>) -> nat
    decreases s.len(),
{
    if s.len() == 0 {
        0
    } else {
        answered_count(s.drop_last()) + if answered(s.last()) {
            1nat
        } else {
            0nat
        }
    }
}

/// Counting distributes over concatenation.
proof fn lemma_answered_concat(a: Seq<Msg>, b: Seq<Msg>)
    ensures
        answered_count(a + b) == answered_count(a) + answered_count(b),
    decreases b.len(),
{
    if b.len() == 0 {
        assert(a + b =~= a);
    } else {
        lemma_answered_concat(a, b.drop_last());
        assert((a + b).drop_last() =~= a + b.drop_last());
    }
}

/// The first message of a run counted apart from the rest.
proof fn lemma_answered_first(s: Seq<Msg>)
    requires
        s.len() > 0,
    ensures
        answered_count(s) == answered_count(s.drop_first()) + if answered(s[0]) {
            1nat
        } else {
            0nat
        },
{
    lemma_answered_concat(seq![s[0]], s.drop_first());
    assert(seq![s[0]] + s.drop_first() =~= s);
    assert(seq![s[0]].drop_last() =~= Seq::<Msg>::empty());
    assert(seq![s[0]].last() == s[0]);
    assert(answered_count(Seq::<Msg>::empty()) == 0);
}

/// Whether every message of `s` is a reply (a pong or a node-found).
pub open spec fn all_replies(s: Seq<Msg>) -> bool {
    forall|k: int| 0 <= k < s.len() ==> (#[trigger] s[k]).kind == 1 || s[k].kind == 3
}

/// Replies are not answered.
proof fn lemma_replies_unanswered(s: Seq<Msg>)
    requires
        all_replies(s),
    ensures
        answered_count(s) == 0,
    decreases s.len(),
{
    if s.len() > 0 {
        assert(all_replies(s.drop_last())) by {
            assert forall|k: int| 0 <= k < s.drop_last().len() implies (
            #[trigger] s.drop_last()[k]).kind == 1 || s.drop_last()[k].kind == 3 by {
                assert(s.drop_last()[k] == s[k]);
            }
        }
        lemma_replies_unanswered(s.drop_last());
    }
}

/// Pongs for slots `0..n`: at most `n`, all pongs.
proof fn lemma_rec_pongs(id: u32, from: u32, peers: Seq<u32>, tick_seed: u64, n: nat)
    ensures
        rec_pongs(id, from, peers, tick_seed, n).len() <= n,
        all_replies(rec_pongs(id, from, peers, tick_seed, n)),
    decreases n,
{
    if n > 0 {
        lemma_rec_pongs(id, from, peers, tick_seed, (n - 1) as nat);
        let prev = rec_pongs(id, from, peers, tick_seed, (n - 1) as nat);
        let cur = rec_pongs(id, from, peers, tick_seed, n);
        assert forall|k: int| 0 <= k < cur.len() implies (#[trigger] cur[k]).kind == 1 || cur[k].kind
            == 3 by {
            if k < prev.len() {
                assert(cur[k] == prev[k]);
            }
        }
    }
}

/// A virtual node's pongs for slots `0..n`: `n` pongs.
proof fn lemma_virtual_pongs(
    to: u32,
    from: u32,
    sender_peers: Seq<u32>,
    tick_seed: u64,
    active: u32,
    n: nat,
)
    ensures
        virtual_pongs(to, from, sender_peers, tick_seed, active, n).len() == n,
        all_replies(virtual_pongs(to, from, sender_peers, tick_seed, active, n)),
    decreases n,
{
    if n > 0 {
        lemma_virtual_pongs(to, from, sender_peers, tick_seed, active, (n - 1) as nat);
        let prev = virtual_pongs(to, from, sender_peers, tick_seed, active, (n - 1) as nat);
        let cur = virtual_pongs(to, from, sender_peers, tick_seed, active, n);
        assert forall|k: int| 0 <= k < cur.len() implies (#[trigger] cur[k]).kind == 1 || cur[k].kind
            == 3 by {
            if k < prev.len() {
                assert(cur[k] == prev[k]);
            }
        }
    }
}

/// How the delivery of a round ended.
#[derive(Debug, Clone, Copy, PartialEq, Eq)]
pub enum DeliveryEnd {
    /// Every message was delivered.
    Done,
    /// Message `at` is a ping or find-node request for a node whose packet
    /// counter is full.
    CounterFull(usize),
    /// Message `at` goes to a node that is neither active nor virtual.
    NoSuchNode(usize),
}

/// What receiving `msg` did to an active node (see [`Node::receive`]): the
/// node went from `n0` to `n1` and the queue from `q0` to `q1`.
#[verifier::opaque]
pub open spec fn receive_outcome(n0: Node, n1: Node, msg: Msg, tick_seed: u64, q0: Seq<Msg>, q1: Seq<Msg>) -> bool {
    let id = n0.id;
    let p0 = n0.peers@;
    let p1 = n1.peers@;
    &&& n1.wf()
    &&& n1.id == id
    &&& if msg.kind == 0 {
        &&& p1.to_set() == learned(p0.to_set(), p0.len(), id, msg.from)
        &&& n1.pkts_out == n0.pkts_out + 1
        &&& q1 == q0 + ping_answer(id, msg.from, p1, tick_seed)
    } else if msg.kind == 1 {
        let p_mid = learned(p0.to_set(), p0.len(), id, msg.from);
        &&& (msg.arg != id && msg.arg != 0 ==> p1.to_set() == learned(p_mid, p_mid.len(), id, msg.arg))
        &&& (!(msg.arg != id && msg.arg != 0) ==> p1.to_set() == p_mid)
        &&& n1.pkts_out == n0.pkts_out
        &&& q1 == q0
    } else if msg.kind == 2 {
        let found = p1.contains(msg.arg) || msg.arg == id;
        &&& p1.to_set() == learned(p0.to_set(), p0.len(), id, msg.from)
        &&& n1.pkts_out == if found {
            n0.pkts_out + 1
        } else {
            n0.pkts_out as int
        }
        &&& q1 == q0 + if found {
            seq![Msg { kind: 3, from: id, to: msg.from, arg: msg.arg }]
        } else {
            Seq::<Msg>::empty()
        }
    } else if msg.kind == 3 && msg.arg != id {
        &&& p1.to_set() == learned(p0.to_set(), p0.len(), id, msg.arg)
        &&& n1.pkts_out == n0.pkts_out
        &&& q1 == q0
    } else {
        &&& p1 == p0
        &&& n1.pkts_out == n0.pkts_out
        &&& q1 == q0
    }
}

/// The active node whose peers a virtual node draws on when answering a
/// sender: the sender itself, or the last active node for a sender beyond
/// the active set.
pub open spec fn answering_peer(from: u32, active: u32) -> int {
    if from < active - 1 {
        from as int
    } else {
        active - 1
    }
}

/// One delivery: message `msg` taken to its recipient, the nodes going
/// from `before` to `after` and the queue from `q0` to `q1` (see
/// [`virtual_reply`] and [`Node::receive`]).
#[verifier::opaque]
pub open spec fn delivery_step(
    before: Seq<Node>,
    after: Seq<Node>,
    msg: Msg,
    tick_seed: u64,
    active: u32,
    is_hybrid: bool,
    q0: Seq<Msg>,
    q1: Seq<Msg>,
) -> bool {
    if msg.to >= active && is_hybrid {
        &&& after == before
        &&& q1 == q0 + if msg.kind == 0 {
            virtual_pongs(
                msg.to,
                msg.from,
                before[answering_peer(msg.from, active)].peers@,
                tick_seed,
                active,
                PONG_RECS as nat,
            )
        } else if msg.kind == 2 {
            seq![Msg { kind: 3, from: msg.to, to: msg.from, arg: msg.arg }]
        } else {
            Seq::<Msg>::empty()
        }
    } else {
        &&& msg.to < before.len()
        &&& after == before.update(msg.to as int, after[msg.to as int])
        &&& receive_outcome(before[msg.to as int], after[msg.to as int], msg, tick_seed, q0, q1)
    }
}

/// The first `m` messages of `q` delivered in order from the nodes
/// `start` to the nodes `fin`: `hist[k]` are the nodes before message `k`,
/// and the queue held `q[..ends[k]]` then (`q[..start_len]` at first).
#[verifier::opaque]
pub open spec fn delivered_in_order(
    start: Seq<Node>,
    fin: Seq<Node>,
    hist: Seq<Seq<Node>>,
    ends: Seq<int>,
    q: Seq<Msg>,
    start_len: int,
    m: int,
    tick_seed: u64,
    active: u32,
    is_hybrid: bool,
) -> bool {
    &&& hist.len() == m + 1
    &&& ends.len() == m + 1
    &&& hist[0] == start
    &&& hist[m] == fin
    &&& ends[0] == start_len
    &&& ends[m] == q.len()
    &&& forall|k: int| 0 <= k < m ==> k < #[trigger] ends[k] <= ends[k + 1] <= q.len()
    &&& forall|k: int|
        0 <= k < m ==> #[trigger] delivery_step(
            hist[k],
            hist[k + 1],
            q[k],
            tick_seed,
            active,
            is_hybrid,
            q.take(ends[k]),
            q.take(ends[k + 1]),
        )
}

/// Delivering message `i` next extends the record by one step.
proof fn lemma_delivered_extend(
    start: Seq<Node>,
    pre: Seq<Node>,
    post: Seq<Node>,
    hist: Seq<Seq<Node>>,
    ends: Seq<int>,
    q0: Seq<Msg>,
    q1: Seq<Msg>,
    start_len: int,
    i: int,
    tick_seed: u64,
    active: u32,
    is_hybrid: bool,
)
    requires
        delivered_in_order(start, pre, hist, ends, q0, start_len, i, tick_seed, active, is_hybrid),
        0 <= i < q0.len(),
        q0.len() <= q1.len(),
        q1.take(q0.len() as int) == q0,
        delivery_step(pre, post, q0[i], tick_seed, active, is_hybrid, q0, q1),
    ensures
        delivered_in_order(
            start,
            post,
            hist.push(post),
            ends.push(q1.len() as int),
            q1,
            start_len,
            i + 1,
            tick_seed,
            active,
            is_hybrid,
        ),
{
    reveal(delivered_in_order);
    let h = hist.push(post);
    let e = ends.push(q1.len() as int);
    assert(h[i] == pre);
    assert(h[i + 1] == post);
    assert(h[0] == hist[0]);
    assert(e[0] == ends[0]);
    assert(e[i] == q0.len());
    assert(e[i + 1] == q1.len());
    assert forall|k: int| 0 <= k < i + 1 implies k < #[trigger] e[k] <= e[k + 1] <= q1.len() by {
        if k < i {
            assert(e[k] == ends[k] && e[k + 1] == ends[k + 1]);
            assert(k < ends[k] <= ends[k + 1] <= q0.len());
        }
    }
    assert forall|k: int| 0 <= k < i + 1 implies #[trigger] delivery_step(
        h[k],
        h[k + 1],
        q1[k],
        tick_seed,
        active,
        is_hybrid,
        q1.take(e[k]),
        q1.take(e[k + 1]),
    ) by {
        assert(q1[k] == q0[k]);
        if k < i {
            assert(e[k] == ends[k] && e[k + 1] == ends[k + 1]);
            assert(h[k] == hist[k] && h[k + 1] == hist[k + 1]);
            assert(k < ends[k] <= ends[k + 1] <= q0.len());
            assert(delivery_step(
                hist[k],
                hist[k + 1],
                q0[k],
                tick_seed,
                active,
                is_hybrid,
                q0.take(ends[k]),
                q0.take(ends[k + 1]),
            ));
            assert(q1.take(e[k]) =~= q0.take(ends[k]));
            assert(q1.take(e[k + 1]) =~= q0.take(ends[k + 1]));
        } else {
            assert(q1.take(e[k]) =~= q0);
            assert(q1.take(e[k + 1]) =~= q1);
        }
    }
}

/// How many messages a delivery that ended with `end` took in: all of the
/// final queue of length `len`, or those before the one it stopped at.
pub open spec fn delivered_count(end: DeliveryEnd, len: int) -> int {
    match end {
        DeliveryEnd::Done => len,
        DeliveryEnd::CounterFull(i) => i as int,
        DeliveryEnd::NoSuchNode(i) => i as int,
    }
}

/// Deliver the round's messages in order, the answers they draw included:
/// a message for a node beyond the active set of a larger network is
/// answered by a virtual node (see [`virtual_reply`], with the peers of
/// the sender, or of the last active node for a sender beyond the set);
/// any other goes to its active node (see [`Node::receive`]). Answers are
/// appended to `out` and delivered in turn; answers draw none. Delivery
/// stops at the first message that cannot be delivered; the messages taken
/// in before it, and what each did, are recorded as [`delivered_in_order`]
/// states.
pub fn deliver_round(
    nodes: &mut Vec<Node>,
    out: &mut Vec<Msg>,
    tick_seed: u64,
    active: u32,
    is_hybrid: bool,
) -> (end: DeliveryEnd)
    requires
        old(nodes)@.len() == active,
        active > 0,
        forall|k: int| 0 <= k < old(nodes)@.len() ==> (#[trigger] old(nodes)@[k]).wf(),
    ensures
        final(nodes)@.len() == old(nodes)@.len(),
        forall|k: int|
            0 <= k < old(nodes)@.len() ==> (#[trigger] final(nodes)@[k]).wf() && final(nodes)@[k].id
                == old(nodes)@[k].id,
        final(out)@.len() >= old(out)@.len(),
        forall|k: int| 0 <= k < old(out)@.len() ==> #[trigger] final(out)@[k] == old(out)@[k],
        all_replies(final(out)@.subrange(old(out)@.len() as int, final(out)@.len() as int)),
        exists|hist: Seq<Seq<Node>>, ends: Seq<int>|
            #[trigger] delivered_in_order(
                old(nodes)@,
                final(nodes)@,
                hist,
                ends,
                final(out)@,
                old(out)@.len() as int,
                delivered_count(end, final(out)@.len() as int),
                tick_seed,
                active,
                is_hybrid,
            ),
        match end {
            DeliveryEnd::Done => true,
            DeliveryEnd::CounterFull(i) => {
                let m = final(out)@[i as int];
                &&& i < final(out)@.len()
                &&& answered(m)
                &&& !(m.to >= active && is_hybrid)
                &&& m.to < active
                &&& final(nodes)@[m.to as int].pkts_out == u32::MAX
            },
            DeliveryEnd::NoSuchNode(i) => {
                let m = final(out)@[i as int];
                &&& i < final(out)@.len()
                &&& !(m.to >= active && is_hybrid)
                &&& m.to >= active
            },
        },
{
    let ghost start = nodes@;
    let ghost o0 = out@;
    let n: usize = nodes.len();
    let mut i: usize = 0;
    let ghost mut hist: Seq<Seq<Node>> = seq![start];
    let ghost mut ends: Seq<int> = seq![o0.len() as int];
    proof {
        assert(o0.subrange(o0.len() as int, o0.len() as int) =~= Seq::<Msg>::empty());
        reveal(delivered_in_order);
    }
    while i < out.len()
        invariant
            start == old(nodes)@,
            o0 == old(out)@,
            n == start.len(),
            n == active,
            active > 0,
            nodes@.len() == n,
            forall|k: int| 0 <= k < n ==> (#[trigger] nodes@[k]).wf() && nodes@[k].id == start[k].id,
            i <= out@.len(),
            out@.len() >= o0.len(),
            forall|k: int| 0 <= k < o0.len() ==> #[trigger] out@[k] == o0[k],
            all_replies(out@.subrange(o0.len() as int, out@.len() as int)),
            i >= o0.len() ==> answered_count(out@.subrange(i as int, out@.len() as int)) == 0,
            delivered_in_order(
                start,
                nodes@,
                hist,
                ends,
                out@,
                o0.len() as int,
                i as int,
                tick_seed,
                active,
                is_hybrid,
            ),
        decreases 4 * answered_count(out@.subrange(i as int, out@.len() as int)) + (out@.len() - i),
    {
        let ghost q0 = out@;
        let ghost rest = q0.subrange(i as int, q0.len() as int);
        proof {
            lemma_answered_first(rest);
            assert(rest.drop_first() =~= q0.subrange(i + 1, q0.len() as int));
            assert(rest[0] == q0[i as int]);
            if i >= o0.len() {
                assert(q0[i as int] == q0.subrange(o0.len() as int, q0.len() as int)[i - o0.len()]);
            }
        }
        let msg: Msg = out[i];
        let ghost added: Seq<Msg>;
        let ghost pre = nodes@;
        if is_virtual_target(msg.to, active, is_hybrid) {
            let sender: usize = if (msg.from as usize) < n - 1 {
                msg.from as usize
            } else {
                n - 1
            };
            virtual_reply(&nodes[sender].peers, msg, tick_seed, active, out);
            proof {
                added = out@.subrange(q0.len() as int, out@.len() as int);
                assert(sender as int == answering_peer(msg.from, active));
                assert(delivery_step(pre, nodes@, msg, tick_seed, active, is_hybrid, q0, out@)) by {
                    reveal(delivery_step);
                }
                if msg.kind == 0 {
                    lemma_virtual_pongs(msg.to, msg.from, nodes@[sender as int].peers@, tick_seed, active, PONG_RECS as nat);
                }
            }
        } else {
            let to: usize = msg.to as usize;
            if to >= n {
                proof {
                    assert(delivered_in_order(
                    start,
                    nodes@,
                    hist,
                    ends,
                    out@,
                    o0.len() as int,
                    i as int,
                    tick_seed,
                    active,
                    is_hybrid,
                ));
                    assert(delivered_in_order(
                        old(nodes)@,
                        nodes@,
                        hist,
                        ends,
                        out@,
                        old(out)@.len() as int,
                        delivered_count(DeliveryEnd::NoSuchNode(i), out@.len() as int),
                        tick_seed,
                        active,
                        is_hybrid,
                    ));
                }
                return DeliveryEnd::NoSuchNode(i);
            }
            if (msg.kind == 0 || msg.kind == 2) && nodes[to].pkts_out == u32::MAX {
                proof {
                    assert(delivered_in_order(
                    start,
                    nodes@,
                    hist,
                    ends,
                    out@,
                    o0.len() as int,
                    i as int,
                    tick_seed,
                    active,
                    is_hybrid,
                ));
                    assert(delivered_in_order(
                        old(nodes)@,
                        nodes@,
                        hist,
                        ends,
                        out@,
                        old(out)@.len() as int,
                        delivered_count(DeliveryEnd::CounterFull(i), out@.len() as int),
                        tick_seed,
                        active,
                        is_hybrid,
                    ));
                }
                return DeliveryEnd::CounterFull(i);
            }
            nodes[to].receive(msg, tick_seed, out);
            proof {
                added = out@.subrange(q0.len() as int, out@.len() as int);
                assert(nodes@ == pre.update(to as int, nodes@[to as int]));
                assert(receive_outcome(pre[to as int], nodes@[to as int], msg, tick_seed, q0, out@))
                    by {
                    reveal(receive_outcome);
                }
                assert(delivery_step(pre, nodes@, msg, tick_seed, active, is_hybrid, q0, out@)) by {
                    reveal(delivery_step);
                }
                assert forall|k: int| 0 <= k < n implies (#[trigger] nodes@[k]).wf() && nodes@[k].id
                    == start[k].id by {
                    if k != to {
                        assert(nodes@[k] == pre[k]);
                    }
                }
                if msg.kind == 0 {
                    let p1 = nodes@[to as int].peers@;
                    let cnt: nat = if p1.len() < PONG_RECS { p1.len() } else { PONG_RECS as nat };
                    lemma_rec_pongs(pre[to as int].id, msg.from, p1, tick_seed, cnt);
                }
            }
        }
        proof {
            assert(out@ =~= q0 + added);
            assert(added.len() <= 3);
            assert(all_replies(added));
            lemma_replies_unanswered(added);
            assert forall|k: int| 0 <= k < o0.len() implies #[trigger] out@[k] == o0[k] by {
                assert(out@[k] == q0[k]);
            }
            let tail = out@.subrange(o0.len() as int, out@.len() as int);
            assert forall|k: int| 0 <= k < tail.len() implies (#[trigger] tail[k]).kind == 1
                || tail[k].kind == 3 by {
                if o0.len() + k < q0.len() {
                    assert(tail[k] == q0.subrange(o0.len() as int, q0.len() as int)[k]);
                } else {
                    assert(tail[k] == added[o0.len() + k - q0.len()]);
                }
            }
            let r1 = out@.subrange(i + 1, out@.len() as int);
            assert(r1 =~= q0.subrange(i + 1, q0.len() as int) + added);
            lemma_answered_concat(q0.subrange(i + 1, q0.len() as int), added);
            if i + 1 == o0.len() {
                assert(q0.subrange(i + 1, q0.len() as int) =~= q0.subrange(
                    o0.len() as int,
                    q0.len() as int,
                ));
                lemma_replies_unanswered(q0.subrange(o0.len() as int, q0.len() as int));
            }
            assert(out@.take(q0.len() as int) =~= q0);
            assert(msg == q0[i as int]);
            lemma_delivered_extend(
                start,
                pre,
                nodes@,
                hist,
                ends,
                q0,
                out@,
                o0.len() as int,
                i as int,
                tick_seed,
                active,
                is_hybrid,
            );
            hist = hist.push(nodes@);
            ends = ends.push(out@.len() as int);
        }
        i = i + 1;
    }
    proof {
        assert(delivered_in_order(
            start,
            nodes@,
            hist,
            ends,
            out@,
            o0.len() as int,
            i as int,
            tick_seed,
            active,
            is_hybrid,
        ));
        assert(delivered_in_order(
            old(nodes)@,
            nodes@,
            hist,
            ends,
            out@,
            old(out)@.len() as int,
            delivered_count(DeliveryEnd::Done, out@.len() as int),
            tick_seed,
            active,
            is_hybrid,
        ));
    }
    DeliveryEnd::Done
}

} // verus!
