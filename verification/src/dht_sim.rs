//! In-process DHT convergence simulator: the nodes and messages of the
//! gossip-PEX plus Kademlia FIND_NODE simulation. Each node keeps a peer
//! table, bounded when `max_peers > 0` (the oldest peer is evicted first),
//! and reacts to one message at a time. Driving the trials, timing them
//! and reporting statistics is the application's part.

use std::collections::HashSet;
use std::collections::VecDeque;
use vstd::prelude::*;
use vstd::std_specs::iter::IteratorSpec;

verus! {

broadcast use vstd::std_specs::hash::group_hash_axioms;

/// Simulation ticks per trial.
pub const MAX_TICKS: u64 = 120_000;

/// A simulated datagram.
#[derive(Debug, Clone, Copy, PartialEq, Eq, Structural)]
pub enum Message {
    /// `Ping(from, to)`.
    Ping(u64, u64),
    /// `Pong(from, to, recommended_peer)`.
    Pong(u64, u64, u64),
    /// `FindNode(from, to, target)`.
    FindNode(u64, u64, u64),
    /// `NodeFound(to, found)`.
    NodeFound(u64, u64),
}

impl Message {
    /// Bytes this message occupies on the simulated wire.
    pub open spec fn spec_wire_size(self) -> usize {
        match self {
            Message::Ping(..) => 24,
            Message::Pong(..) => 28,
            Message::FindNode(..) => 32,
            Message::NodeFound(..) => 28,
        }
    }

    /// The node a message is addressed to.
    pub open spec fn spec_to(self) -> u64 {
        match self {
            Message::Ping(_, to) => to,
            Message::Pong(_, to, _) => to,
            Message::FindNode(_, to, _) => to,
            Message::NodeFound(to, _) => to,
        }
    }

    /// Bytes this message occupies on the simulated wire.
    pub fn wire_size(&self) -> (n: usize)
        ensures
            n == self.spec_wire_size(),
    {
        match self {
            Message::Ping(..) => 24,
            Message::Pong(..) => 28,
            Message::FindNode(..) => 32,
            Message::NodeFound(..) => 28,
        }
    }

    /// The node a message is addressed to.
    pub fn to(&self) -> (t: u64)
        ensures
            t == self.spec_to(),
    {
        match *self {
            Message::Ping(_, to) => to,
            Message::Pong(_, to, _) => to,
            Message::FindNode(_, to, _) => to,
            Message::NodeFound(to, _) => to,
        }
    }
}

/// The total simulated wire size of a sequence of messages.
pub open spec fn total_wire(msgs: Seq<Message>) -> int
    decreases msgs.len(),
{
    if msgs.len() == 0 {
        0
    } else {
        total_wire(msgs.drop_last()) + msgs.last().spec_wire_size()
    }
}

/// The peer order after offering peer `p` to a node `id` whose table holds
/// `order` (oldest first): nothing changes for the node itself or a known
/// peer; a full bounded table drops its oldest peer; then `p` is appended.
pub open spec fn spec_insert_order(order: Seq<u64>, id: u64, max_peers: usize, p: u64) -> Seq<u64> {
    if p == id || order.contains(p) {
        order
    } else if max_peers > 0 && order.len() >= max_peers {
        order.drop_first().push(p)
    } else {
        order.push(p)
    }
}

/// `v` lists the elements of `s`, each once.
pub open spec fn is_listing(v: Seq<u64>, s: Set<u64>) -> bool {
    &&& v.to_set() == s
    &&& v.no_duplicates()
}

/// The peers of a set, in the set's iteration order.
fn peer_list(peers: &HashSet<u64>) -> (v: Vec<u64>)
    ensures
        is_listing(v@, peers@),
        v@.len() == peers@.len(),
{
    let mut v: Vec<u64> = Vec::new();
    for x in it: peers.iter()
        invariant
            v@ == it.seq().take(it.index()).map_values(|r: &u64| *r),
    {
        v.push(*x);
        assert(v@ =~= it.seq().take(it.index() + 1).map_values(|r: &u64| *r));
    }
    proof {
        let s = vstd::std_specs::hash::spec_hash_keys_iter(peers).remaining().unref();
        assert(v@ =~= s);
    }
    v
}


/// Multiplier of the simulator's linear congruential seed.
pub const SEED_MUL: u64 = 6364136223846793005;

/// Increment of the simulator's linear congruential sequence.
pub const SEED_INC: u64 = 1442695040888963407;

/// The bootstrap pings of node `id` among `all` nodes, for probe indices
/// `0..n`: probe `i` pings `(id * SEED_MUL + i * SEED_INC) mod 2^64 mod
/// all` unless that is the node itself.
pub open spec fn bootstrap_pings(id: u64, all: u32, n: nat) -> Seq<Message>
    decreases n,
{
    if n == 0 {
        Seq::empty()
    } else {
        let i = (n - 1) as u64;
        let seed = vstd::wrapping::u64_specs::wrapping_mul(id, SEED_MUL);
        let rnd = vstd::wrapping::u64_specs::wrapping_add(
            seed,
            vstd::wrapping::u64_specs::wrapping_mul(i, SEED_INC),
        );
        let other = (rnd % (all as u64)) as u64;
        let prev = bootstrap_pings(id, all, (n - 1) as nat);
        if other != id {
            prev.push(Message::Ping(id, other))
        } else {
            prev
        }
    }
}

/// The periodic pings of node `id`: ping `pi` goes to
/// `v[(pi * 73 + tick) % |v|]`, for `pi` in `0..n`.
pub open spec fn periodic_pings(id: u64, v: Seq<u64>, tick: u64, n: nat) -> Seq<Message>
    decreases n,
{
    if n == 0 {
        Seq::empty()
    } else {
        let pi = n - 1;
        periodic_pings(id, v, tick, (n - 1) as nat).push(
            Message::Ping(id, v[(pi * 73 + tick) % v.len() as int]),
        )
    }
}

/// The first of up to `tries` candidates `start, start + 1, ...` (modulo
/// `all`) that is neither the node itself nor a known peer.
pub open spec fn find_target(id: u64, peers: Set<u64>, start: u64, all: u32, tries: nat) -> Option<
    u64,
>
    decreases tries,
{
    if tries == 0 {
        None
    } else if start != id && !peers.contains(start) {
        Some(start)
    } else {
        find_target(id, peers, ((start + 1) % (all as int)) as u64, all, (tries - 1) as nat)
    }
}

/// The messages of a periodic round of node `id` whose peers are listed by
/// `v`: up to 15 pings, then (with at least 5 peers) ten identical
/// FIND_NODE requests for the first unknown node found from a seeded start
/// within 200 candidates, all sent to peer `v[(tick + 7) % |v|]`.
pub open spec fn periodic_msgs(id: u64, v: Seq<u64>, peers: Set<u64>, tick: u64, all: u32) -> Seq<
    Message,
> {
    let count = v.len();
    let pings = periodic_pings(id, v, tick, if count < 15 { count } else { 15 });
    if count >= 5 {
        let start = (vstd::wrapping::u64_specs::wrapping_mul(
            vstd::wrapping::u64_specs::wrapping_add(id, tick),
            SEED_MUL,
        ) % (all as u64)) as u64;
        match find_target(id, peers, start, all, 200) {
            Some(t) => pings + Seq::new(
                10,
                |k: int| Message::FindNode(id, v[(tick + 7) % count as int], t),
            ),
            None => pings,
        }
    } else {
        pings
    }
}

/// The pongs answering a ping from `from`: three recommendations taken
/// from `v` at `(tick * 3 + r) % |v|` (with `usize` wrap-around), each
/// unless it is the node itself.
pub open spec fn pong_msgs(id: u64, from: u64, v: Seq<u64>, tick: u64, n: nat) -> Seq<Message>
    decreases n,
{
    if n == 0 {
        Seq::empty()
    } else {
        let r = (n - 1) as usize;
        let len = if v.len() == 0 { 1 } else { v.len() };
        let idx = vstd::wrapping::usize_specs::wrapping_add(
            vstd::wrapping::usize_specs::wrapping_mul(tick as usize, 3),
            r,
        ) % (len as usize);
        let prev = pong_msgs(id, from, v, tick, (n - 1) as nat);
        if v[idx as int] != id {
            prev.push(Message::Pong(id, from, v[idx as int]))
        } else {
            prev
        }
    }
}

/// The first unknown node among up to 200 candidates from `start` (see
/// [`find_target`]).
fn seek_target(id: u64, peers: &HashSet<u64>, start: u64, all_count: u32) -> (r: Option<u64>)
    requires
        all_count > 0,
        start < all_count,
    ensures
        r == find_target(id, peers@, start, all_count, 200),
{
    let mut target: u64 = start;
    let mut tries: u64 = 0;
    while tries < 200
        invariant
            all_count > 0,
            target < all_count,
            tries <= 200,
            find_target(id, peers@, start, all_count, 200) == find_target(
                id,
                peers@,
                target,
                all_count,
                (200 - tries) as nat,
            ),
        decreases 200 - tries,
    {
        if target != id && !peers.contains(&target) {
            return Some(target);
        }
        target = (target + 1) % (all_count as u64);
        tries = tries + 1;
    }
    None
}

/// The peer order after a node `id` has received `msg`: the sender (and a
/// recommended or found peer) is offered to the table; messages for other
/// nodes change nothing.
pub open spec fn spec_recv_order(order: Seq<u64>, id: u64, max_peers: usize, msg: Message) -> Seq<
    u64,
> {
    match msg {
        Message::Ping(from, to) => if to == id {
            spec_insert_order(order, id, max_peers, from)
        } else {
            order
        },
        Message::Pong(from, to, rec) => if to == id {
            let o1 = spec_insert_order(order, id, max_peers, from);
            if rec != id && rec != 0 {
                spec_insert_order(o1, id, max_peers, rec)
            } else {
                o1
            }
        } else {
            order
        },
        Message::FindNode(from, to, _) => if to == id {
            spec_insert_order(order, id, max_peers, from)
        } else {
            order
        },
        Message::NodeFound(to, found) => if to == id && found != id {
            spec_insert_order(order, id, max_peers, found)
        } else {
            order
        },
    }
}

/// Law: offering a peer other than the node itself leaves it in the
/// table, whatever the bound; an unbounded table loses no peer.
pub proof fn lemma_insert_order_learns(order: Seq<u64>, id: u64, max_peers: usize, p: u64)
    ensures
        p != id ==> spec_insert_order(order, id, max_peers, p).contains(p),
        max_peers == 0 ==> forall|q: u64|
            order.contains(q) ==> #[trigger] spec_insert_order(order, id, max_peers, p).contains(q),
{
    let r = spec_insert_order(order, id, max_peers, p);
    if p != id && !order.contains(p) {
        if max_peers > 0 && order.len() >= max_peers {
            assert(r[r.len() - 1] == p);
        } else {
            assert(r[r.len() - 1] == p);
        }
    }
    if max_peers == 0 {
        assert forall|q: u64| order.contains(q) implies #[trigger] r.contains(q) by {
            if !(p == id || order.contains(p)) {
                let k = choose|k: int| 0 <= k < order.len() && order[k] == q;
                assert(r[k] == q);
            }
        }
    }
}

/// Law: a pong addressed to a node teaches it the recommended peer (when
/// that is neither the node itself nor 0), whatever its table bound; an
/// unbounded table also keeps the sender and every peer it had.
pub proof fn lemma_pong_learns(order: Seq<u64>, id: u64, max_peers: usize, from: u64, rec: u64)
    ensures
        rec != id && rec != 0 ==> spec_recv_order(
            order,
            id,
            max_peers,
            Message::Pong(from, id, rec),
        ).contains(rec),
        max_peers == 0 && from != id ==> spec_recv_order(
            order,
            id,
            max_peers,
            Message::Pong(from, id, rec),
        ).contains(from),
        max_peers == 0 ==> forall|q: u64|
            order.contains(q) ==> #[trigger] spec_recv_order(
                order,
                id,
                max_peers,
                Message::Pong(from, id, rec),
            ).contains(q),
{
    let o1 = spec_insert_order(order, id, max_peers, from);
    lemma_insert_order_learns(order, id, max_peers, from);
    lemma_insert_order_learns(o1, id, max_peers, rec);
    if max_peers == 0 {
        assert forall|q: u64| order.contains(q) implies #[trigger] spec_recv_order(
            order,
            id,
            max_peers,
            Message::Pong(from, id, rec),
        ).contains(q) by {
            assert(o1.contains(q));
        }
    }
}

/// Law: a node learns whom a message addressed to it names: the sender of
/// a ping or a FIND_NODE, the node found by a FIND_NODE answer (each
/// unless it is the node itself); a message addressed to another node
/// leaves the table as it was.
pub proof fn lemma_recv_learns(order: Seq<u64>, id: u64, max_peers: usize, msg: Message)
    ensures
        msg matches Message::Ping(from, to) ==> (to == id && from != id ==> spec_recv_order(
            order,
            id,
            max_peers,
            msg,
        ).contains(from)),
        msg matches Message::FindNode(from, to, t) ==> (to == id && from != id ==> spec_recv_order(
            order,
            id,
            max_peers,
            msg,
        ).contains(from)),
        msg matches Message::NodeFound(to, found) ==> (to == id && found != id ==> spec_recv_order(
            order,
            id,
            max_peers,
            msg,
        ).contains(found)),
        msg.spec_to() != id ==> spec_recv_order(order, id, max_peers, msg) == order,
{
    match msg {
        Message::Ping(from, to) => {
            lemma_insert_order_learns(order, id, max_peers, from);
        },
        Message::FindNode(from, to, t) => {
            lemma_insert_order_learns(order, id, max_peers, from);
        },
        Message::NodeFound(to, found) => {
            lemma_insert_order_learns(order, id, max_peers, found);
        },
        Message::Pong(from, to, rec) => {},
    }
}

/// The messages a node `id` sends on receiving `msg`, given a listing `v`
/// of its peers after the table update: three pong recommendations for a
/// ping; for a FIND_NODE, the answer when the target is known (or is the
/// node itself), else a forward to the first listed peer; nothing otherwise.
pub open spec fn spec_recv_sent(
    id: u64,
    peers: Set<u64>,
    v: Seq<u64>,
    msg: Message,
    tick: u64,
) -> Seq<Message> {
    match msg {
        Message::Ping(from, to) => if to == id {
            pong_msgs(id, from, v, tick, 3)
        } else {
            Seq::empty()
        },
        Message::FindNode(from, to, target) => if to == id {
            if peers.contains(target) || target == id {
                seq![Message::NodeFound(from, target)]
            } else if v.len() > 0 {
                seq![Message::FindNode(from, v[0], target)]
            } else {
                Seq::empty()
            }
        } else {
            Seq::empty()
        },
        _ => Seq::empty(),
    }
}

/// The replies and counters after `recv` agree with a listing `v` of the
/// final peer set.
pub open spec fn recv_outcome(
    id: u64,
    peers: Set<u64>,
    v: Seq<u64>,
    msg: Message,
    tick: u64,
    q0: Seq<Message>,
    q1: Seq<Message>,
    out0: u64,
    out1: u64,
    bytes0: u64,
    bytes1: u64,
) -> bool {
    let sent = spec_recv_sent(id, peers, v, msg, tick);
    &&& is_listing(v, peers)
    &&& q1 == q0 + sent
    &&& out1 == out0 + sent.len()
    &&& bytes1 == bytes0 + total_wire(sent)
}

/// A simulated node.
pub struct Node {
    id: u64,
    peers: HashSet<u64>,
    peer_order: VecDeque<u64>,
    max_peers: usize,
    pkts_out: u64,
    pkts_in: u64,
    bytes_out: u64,
    bytes_in: u64,
    converged: bool,
}

impl Node {
    /// The node's id.
    pub closed spec fn spec_id(&self) -> u64 {
        self.id
    }

    /// The known peers, oldest first.
    pub closed spec fn spec_order(&self) -> Seq<u64> {
        self.peer_order@
    }

    /// The known peers.
    pub closed spec fn spec_peers(&self) -> Set<u64> {
        self.peers@
    }

    /// The routing-table bound (0 = unbounded).
    pub closed spec fn spec_max_peers(&self) -> usize {
        self.max_peers
    }

    /// Packets sent, packets received, bytes sent, bytes received.
    pub closed spec fn spec_counters(&self) -> (u64, u64, u64, u64) {
        (self.pkts_out, self.pkts_in, self.bytes_out, self.bytes_in)
    }

    /// Whether the node has been counted as converged.
    pub closed spec fn spec_converged(&self) -> bool {
        self.converged
    }

    /// The peer table is consistent: the set and the order hold the same
    /// peers, each once, never the node itself, and a bounded table holds
    /// at most `max_peers` of them.
    pub open spec fn wf(&self) -> bool {
        &&& self.spec_peers() == self.spec_order().to_set()
        &&& self.spec_order().no_duplicates()
        &&& !self.spec_order().contains(self.spec_id())
        &&& self.spec_max_peers() > 0 ==> self.spec_order().len() <= self.spec_max_peers()
    }

    /// A node with no peers and zeroed counters.
    pub fn new(id: u64, max_peers: usize) -> (n: Self)
        ensures
            n.wf(),
            n.spec_id() == id,
            n.spec_max_peers() == max_peers,
            n.spec_order() == Seq::<u64>::empty(),
            n.spec_counters() == (0u64, 0u64, 0u64, 0u64),
            !n.spec_converged(),
    {
        let n = Node {
            id,
            peers: HashSet::new(),
            peer_order: VecDeque::new(),
            max_peers,
            pkts_out: 0,
            pkts_in: 0,
            bytes_out: 0,
            bytes_in: 0,
            converged: false,
        };
        assert(n.peer_order@.to_set() =~= Set::<u64>::empty());
        n
    }

    /// Insert a peer, honouring the routing-table bound by evicting the
    /// oldest peer (FIFO); unbounded tables only grow.
    pub fn insert_peer(&mut self, p: u64)
        requires
            old(self).wf(),
        ensures
            final(self).wf(),
            final(self).spec_order() == spec_insert_order(
                old(self).spec_order(),
                old(self).spec_id(),
                old(self).spec_max_peers(),
                p,
            ),
            final(self).spec_id() == old(self).spec_id(),
            final(self).spec_max_peers() == old(self).spec_max_peers(),
            final(self).spec_counters() == old(self).spec_counters(),
            final(self).spec_converged() == old(self).spec_converged(),
    {
        let ghost before = self.peer_order@;
        proof {
            before.unique_seq_to_set();
        }
        if p == self.id || self.peers.contains(&p) {
            return;
        }
        assert(!before.contains(p)) by {
            assert(!before.to_set().contains(p));
        }
        if self.max_peers > 0 && self.peers.len() >= self.max_peers {
            if let Some(oldest) = self.peer_order.pop_front() {
                self.peers.remove(&oldest);
                proof {
                    assert(before[0] == oldest);
                    assert(self.peer_order@ == before.drop_first());
                    assert forall|x: u64| self.peers@.contains(x) <==> self.peer_order@.contains(x) by {
                        if before.contains(x) && x != oldest {
                            let k = choose|k: int| 0 <= k < before.len() && before[k] == x;
                            assert(k != 0);
                            assert(self.peer_order@[k - 1] == x);
                        }
                        if self.peer_order@.contains(x) {
                            let k = choose|k: int| 0 <= k < self.peer_order@.len() && self.peer_order@[k] == x;
                            assert(before[k + 1] == x);
                            assert(x != oldest);
                        }
                    }
                    assert(self.peers@ =~= self.peer_order@.to_set());
                }
            }
        }
        let ghost mid = self.peer_order@;
        assert(!mid.contains(p));
        self.peers.insert(p);
        self.peer_order.push_back(p);
        proof {
            mid.lemma_push_to_set_commute(p);
            assert(self.peers@ =~= self.peer_order@.to_set());
            assert(self.peer_order@ =~= spec_insert_order(before, self.id, self.max_peers, p));
            assert(self.peer_order@.no_duplicates()) by {
                assert forall|a: int, b: int| 0 <= a < b < self.peer_order@.len() implies self.peer_order@[a] != self.peer_order@[b] by {
                    if b == self.peer_order@.len() - 1 {
                        assert(mid.contains(mid[a]));
                    } else {
                        assert(mid[a] != mid[b]);
                    }
                }
            }
            assert(!self.peer_order@.contains(self.id)) by {
                if self.peer_order@.contains(self.id) {
                    let k = choose|k: int| 0 <= k < self.peer_order@.len() && self.peer_order@[k] == self.id;
                    if k < mid.len() {
                        assert(mid[k] == self.id);
                        if mid.len() < before.len() {
                            assert(before[k + 1] == self.id);
                        }
                    }
                }
            }
        }
    }

    /// The peer order lists the peer set.
    proof fn listing_witness(&self)
        requires
            self.wf(),
        ensures
            is_listing(self.spec_order(), self.spec_peers()),
    {
    }

    /// Messages of a node without peers: the seeded bootstrap pings.
    fn bootstrap(&mut self, all_count: u32, msgq: &mut Vec<Message>)
        requires
            old(self).wf(),
            all_count > 0,
            old(self).spec_counters().0 + 30 <= u64::MAX,
            old(self).spec_counters().2 + 30 * 32 <= u64::MAX,
        ensures
            final(self).spec_order() == old(self).spec_order(),
            final(self).spec_peers() == old(self).spec_peers(),
            final(self).spec_id() == old(self).spec_id(),
            final(self).spec_max_peers() == old(self).spec_max_peers(),
            final(self).spec_converged() == old(self).spec_converged(),
            final(self).spec_counters().1 == old(self).spec_counters().1,
            final(self).spec_counters().3 == old(self).spec_counters().3,
            final(msgq)@ == old(msgq)@ + bootstrap_pings(old(self).spec_id(), all_count, 30),
            final(self).spec_counters().0 == old(self).spec_counters().0 + bootstrap_pings(
                old(self).spec_id(),
                all_count,
                30,
            ).len(),
            final(self).spec_counters().2 == old(self).spec_counters().2 + total_wire(
                bootstrap_pings(old(self).spec_id(), all_count, 30),
            ),
    {
        let ghost q0 = msgq@;
        let ghost out0 = self.pkts_out;
        let ghost bytes0 = self.bytes_out;
        let seed: u64 = self.id.wrapping_mul(SEED_MUL);
        let mut i: u64 = 0;
        while i < 30
            invariant
                i <= 30,
                all_count > 0,
                seed == vstd::wrapping::u64_specs::wrapping_mul(self.id, SEED_MUL),
                msgq@ == q0 + bootstrap_pings(self.id, all_count, i as nat),
                self.pkts_out == out0 + bootstrap_pings(self.id, all_count, i as nat).len(),
                self.bytes_out == bytes0 + total_wire(bootstrap_pings(self.id, all_count, i as nat)),
                bootstrap_pings(self.id, all_count, i as nat).len() <= i,
                total_wire(bootstrap_pings(self.id, all_count, i as nat)) <= 24 * i,
                out0 + 30 <= u64::MAX,
                bytes0 + 30 * 32 <= u64::MAX,
                self.id == old(self).id,
                self.peers@ == old(self).peers@,
                self.peer_order@ == old(self).peer_order@,
                self.max_peers == old(self).max_peers,
                self.converged == old(self).converged,
                self.pkts_in == old(self).pkts_in,
                self.bytes_in == old(self).bytes_in,
            decreases 30 - i,
        {
            let rnd: u64 = seed.wrapping_add(i.wrapping_mul(SEED_INC));
            let other: u64 = rnd % (all_count as u64);
            let ghost prev = bootstrap_pings(self.id, all_count, i as nat);
            if other != self.id {
                msgq.push(Message::Ping(self.id, other));
                self.pkts_out = self.pkts_out + 1;
                self.bytes_out = self.bytes_out + 24;
                assert(prev.push(Message::Ping(self.id, other)).drop_last() =~= prev);
            }
            i = i + 1;
            assert(msgq@ =~= q0 + bootstrap_pings(self.id, all_count, i as nat));
        }
    }

    /// Messages of a periodic round (see [`periodic_msgs`]) for the peer
    /// listing `v`.
    fn periodic(&mut self, v: &Vec<u64>, tick: u64, all_count: u32, msgq: &mut Vec<Message>)
        requires
            old(self).wf(),
            is_listing(v@, old(self).spec_peers()),
            v@.len() > 0,
            all_count > 0,
            tick + 2000 <= usize::MAX,
            old(self).spec_counters().0 + 30 <= u64::MAX,
            old(self).spec_counters().2 + 30 * 32 <= u64::MAX,
        ensures
            final(self).spec_order() == old(self).spec_order(),
            final(self).spec_peers() == old(self).spec_peers(),
            final(self).spec_id() == old(self).spec_id(),
            final(self).spec_max_peers() == old(self).spec_max_peers(),
            final(self).spec_converged() == old(self).spec_converged(),
            final(self).spec_counters().1 == old(self).spec_counters().1,
            final(self).spec_counters().3 == old(self).spec_counters().3,
            final(msgq)@ == old(msgq)@ + periodic_msgs(
                old(self).spec_id(),
                v@,
                old(self).spec_peers(),
                tick,
                all_count,
            ),
            final(self).spec_counters().0 == old(self).spec_counters().0 + periodic_msgs(
                old(self).spec_id(),
                v@,
                old(self).spec_peers(),
                tick,
                all_count,
            ).len(),
            final(self).spec_counters().2 == old(self).spec_counters().2 + total_wire(
                periodic_msgs(old(self).spec_id(), v@, old(self).spec_peers(), tick, all_count),
            ),
    {
        let ghost q0 = msgq@;
        let ghost out0 = self.pkts_out;
        let ghost bytes0 = self.bytes_out;
        let count: usize = v.len();
        let np: usize = if count < 15 { count } else { 15 };
        let mut pi: usize = 0;
        while pi < np
            invariant
                np <= 15,
                np <= count,
                count == v@.len(),
                count > 0,
                tick + 2000 <= usize::MAX,
                pi <= np,
                msgq@ == q0 + periodic_pings(self.id, v@, tick, pi as nat),
                self.pkts_out == out0 + pi,
                self.bytes_out == bytes0 + 24 * pi,
                total_wire(periodic_pings(self.id, v@, tick, pi as nat)) == 24 * pi,
                periodic_pings(self.id, v@, tick, pi as nat).len() == pi,
                out0 + 30 <= u64::MAX,
                bytes0 + 30 * 32 <= u64::MAX,
                self.id == old(self).id,
                self.peers@ == old(self).peers@,
                self.peer_order@ == old(self).peer_order@,
                self.max_peers == old(self).max_peers,
                self.converged == old(self).converged,
                self.pkts_in == old(self).pkts_in,
                self.bytes_in == old(self).bytes_in,
            decreases np - pi,
        {
            let peer: u64 = v[(pi * 73 + tick as usize) % count];
            msgq.push(Message::Ping(self.id, peer));
            self.pkts_out = self.pkts_out + 1;
            self.bytes_out = self.bytes_out + 24;
            let ghost prev = periodic_pings(self.id, v@, tick, pi as nat);
            pi = pi + 1;
            assert(periodic_pings(self.id, v@, tick, pi as nat).drop_last() =~= prev);
            assert(msgq@ =~= q0 + periodic_pings(self.id, v@, tick, pi as nat));
        }
        let ghost pings = periodic_pings(self.id, v@, tick, np as nat);
        let ghost after_pings = msgq@;
        if count >= 5 {
            let ask_peer: u64 = v[(tick as usize + 7) % count];
            let start: u64 = (self.id.wrapping_add(tick).wrapping_mul(SEED_MUL)) % (
            all_count as u64);
            if let Some(target) = seek_target(self.id, &self.peers, start, all_count) {
                let ghost finds = Seq::new(
                    10,
                    |j: int| Message::FindNode(self.id, ask_peer, target),
                );
                let mut k: u64 = 0;
                while k < 10
                    invariant
                        k <= 10,
                        msgq@ == after_pings + finds.take(k as int),
                        after_pings == q0 + pings,
                        finds == Seq::new(10, |j: int| Message::FindNode(self.id, ask_peer, target)),
                        self.pkts_out == out0 + np + k,
                        self.bytes_out == bytes0 + 24 * np + 32 * k,
                        total_wire(pings + finds.take(k as int)) == 24 * np + 32 * k,
                        pings.len() == np,
                        np <= 15,
                        out0 + 30 <= u64::MAX,
                        bytes0 + 30 * 32 <= u64::MAX,
                        self.id == old(self).id,
                        self.peers@ == old(self).peers@,
                        self.peer_order@ == old(self).peer_order@,
                        self.max_peers == old(self).max_peers,
                        self.converged == old(self).converged,
                        self.pkts_in == old(self).pkts_in,
                        self.bytes_in == old(self).bytes_in,
                    decreases 10 - k,
                {
                    msgq.push(Message::FindNode(self.id, ask_peer, target));
                    self.pkts_out = self.pkts_out + 1;
                    self.bytes_out = self.bytes_out + 32;
                    let ghost before_total = pings + finds.take(k as int);
                    k = k + 1;
                    assert((pings + finds.take(k as int)).drop_last() =~= before_total);
                    assert(msgq@ =~= after_pings + finds.take(k as int));
                }
                assert(finds.take(10) =~= finds);
            }
        }
        proof {
            let sent = periodic_msgs(self.id, v@, self.peers@, tick, all_count);
            assert(msgq@ =~= q0 + sent);
        }
    }

    /// Generate this tick's messages. A node without peers pings 30 seeded
    /// nodes; every 1000th tick (but the first) a node with peers runs a
    /// periodic round (see [`periodic_msgs`]); otherwise nothing is sent.
    pub fn tick(&mut self, tick: u64, all_count: u32, msgq: &mut Vec<Message>)
        requires
            old(self).wf(),
            all_count > 0,
            tick + 2000 <= usize::MAX,
            old(self).spec_counters().0 + 30 <= u64::MAX,
            old(self).spec_counters().2 + 30 * 32 <= u64::MAX,
        ensures
            final(self).wf(),
            final(self).spec_id() == old(self).spec_id(),
            final(self).spec_order() == old(self).spec_order(),
            final(self).spec_max_peers() == old(self).spec_max_peers(),
            final(self).spec_converged() == old(self).spec_converged(),
            final(self).spec_counters().1 == old(self).spec_counters().1,
            final(self).spec_counters().3 == old(self).spec_counters().3,
            exists|sent: Seq<Message>|
                {
                    &&& final(msgq)@ == old(msgq)@ + sent
                    &&& final(self).spec_counters().0 == old(self).spec_counters().0 + sent.len()
                    &&& final(self).spec_counters().2 == old(self).spec_counters().2 + total_wire(
                        sent,
                    )
                    &&& if old(self).spec_order().len() == 0 {
                        sent == bootstrap_pings(old(self).spec_id(), all_count, 30)
                    } else if tick > 0 && tick % 1000 == 0 {
                        exists|v: Seq<u64>|
                            is_listing(v, old(self).spec_peers()) && sent == periodic_msgs(
                                old(self).spec_id(),
                                v,
                                old(self).spec_peers(),
                                tick,
                                all_count,
                            )
                    } else {
                        sent == Seq::<Message>::empty()
                    }
                },
    {
        proof {
            self.peer_order@.unique_seq_to_set();
        }
        if self.peers.is_empty() {
            assert(self.peer_order@.len() == 0);
            self.bootstrap(all_count, msgq);
            return;
        }
        if tick > 0 && tick.is_multiple_of(1000) {
            let v = peer_list(&self.peers);
            self.periodic(&v, tick, all_count, msgq);
            assert(is_listing(v@, old(self).spec_peers()));
        } else {
            assert(msgq@ =~= old(msgq)@ + Seq::<Message>::empty());
        }
    }

    /// Answer a ping from `from` with pongs recommending peers of the
    /// listing `v`.
    fn send_pongs(&mut self, from: u64, v: &Vec<u64>, tick: u64, msgq: &mut Vec<Message>)
        requires
            v@.len() > 0,
            old(self).spec_counters().0 + 3 <= u64::MAX,
            old(self).spec_counters().2 + 3 * 28 <= u64::MAX,
        ensures
            final(self).spec_order() == old(self).spec_order(),
            final(self).spec_peers() == old(self).spec_peers(),
            final(self).spec_id() == old(self).spec_id(),
            final(self).spec_max_peers() == old(self).spec_max_peers(),
            final(self).spec_converged() == old(self).spec_converged(),
            final(self).spec_counters().1 == old(self).spec_counters().1,
            final(self).spec_counters().3 == old(self).spec_counters().3,
            final(msgq)@ == old(msgq)@ + pong_msgs(old(self).spec_id(), from, v@, tick, 3),
            final(self).spec_counters().0 == old(self).spec_counters().0 + pong_msgs(
                old(self).spec_id(),
                from,
                v@,
                tick,
                3,
            ).len(),
            final(self).spec_counters().2 == old(self).spec_counters().2 + total_wire(
                pong_msgs(old(self).spec_id(), from, v@, tick, 3),
            ),
    {
        let ghost q0 = msgq@;
        let ghost out0 = self.pkts_out;
        let ghost bytes0 = self.bytes_out;
        let len: usize = v.len();
        let mut r: usize = 0;
        while r < 3
            invariant
                r <= 3,
                len == v@.len(),
                len > 0,
                msgq@ == q0 + pong_msgs(self.id, from, v@, tick, r as nat),
                self.pkts_out == out0 + pong_msgs(self.id, from, v@, tick, r as nat).len(),
                self.bytes_out == bytes0 + total_wire(pong_msgs(self.id, from, v@, tick, r as nat)),
                pong_msgs(self.id, from, v@, tick, r as nat).len() <= r,
                total_wire(pong_msgs(self.id, from, v@, tick, r as nat)) <= 28 * r,
                out0 + 3 <= u64::MAX,
                bytes0 + 3 * 28 <= u64::MAX,
                self.id == old(self).id,
                self.peers@ == old(self).peers@,
                self.peer_order@ == old(self).peer_order@,
                self.max_peers == old(self).max_peers,
                self.converged == old(self).converged,
                self.pkts_in == old(self).pkts_in,
                self.bytes_in == old(self).bytes_in,
            decreases 3 - r,
        {
            let idx: usize = (tick as usize).wrapping_mul(3).wrapping_add(r) % len;
            let rec: u64 = v[idx];
            let ghost prev = pong_msgs(self.id, from, v@, tick, r as nat);
            if rec != self.id {
                msgq.push(Message::Pong(self.id, from, rec));
                self.pkts_out = self.pkts_out + 1;
                self.bytes_out = self.bytes_out + 28;
                assert(prev.push(Message::Pong(self.id, from, rec)).drop_last() =~= prev);
            }
            r = r + 1;
            assert(msgq@ =~= q0 + pong_msgs(self.id, from, v@, tick, r as nat));
        }
    }

    /// Count one sent message.
    fn count_sent(&mut self, msg: Message)
        requires
            old(self).spec_counters().0 + 1 <= u64::MAX,
            old(self).spec_counters().2 + msg.spec_wire_size() <= u64::MAX,
        ensures
            final(self).spec_order() == old(self).spec_order(),
            final(self).spec_peers() == old(self).spec_peers(),
            final(self).spec_id() == old(self).spec_id(),
            final(self).spec_max_peers() == old(self).spec_max_peers(),
            final(self).spec_converged() == old(self).spec_converged(),
            final(self).spec_counters() == (
                (old(self).spec_counters().0 + 1) as u64,
                old(self).spec_counters().1,
                (old(self).spec_counters().2 + msg.spec_wire_size()) as u64,
                old(self).spec_counters().3,
            ),
    {
        self.pkts_out = self.pkts_out + 1;
        self.bytes_out = self.bytes_out + msg.wire_size() as u64;
    }

    /// Receive one message: update the peer table (see
    /// [`spec_recv_order`]) and send the replies (see [`spec_recv_sent`]).
    pub fn recv(&mut self, msg: &Message, msgq: &mut Vec<Message>, tick: u64, all_count: u32)
        requires
            old(self).wf(),
            old(self).spec_counters().0 + 3 <= u64::MAX,
            old(self).spec_counters().1 + 1 <= u64::MAX,
            old(self).spec_counters().2 + 3 * 32 <= u64::MAX,
            old(self).spec_counters().3 + 32 <= u64::MAX,
            *msg matches Message::Ping(from, to) ==> (to == old(self).spec_id() ==> (from
                != old(self).spec_id() || old(self).spec_order().len() > 0)),
        ensures
            final(self).wf(),
            final(self).spec_id() == old(self).spec_id(),
            final(self).spec_max_peers() == old(self).spec_max_peers(),
            final(self).spec_converged() == old(self).spec_converged(),
            final(self).spec_order() == spec_recv_order(
                old(self).spec_order(),
                old(self).spec_id(),
                old(self).spec_max_peers(),
                *msg,
            ),
            final(self).spec_counters().1 == old(self).spec_counters().1 + 1,
            final(self).spec_counters().3 == old(self).spec_counters().3 + msg.spec_wire_size(),
            *msg matches Message::Pong(from, to, rec) ==> (to == old(self).spec_id() && rec
                != old(self).spec_id() && rec != 0 ==> final(self).spec_peers().contains(rec)),
            *msg matches Message::Pong(from, to, rec) ==> (to == old(self).spec_id() && from
                != old(self).spec_id() && old(self).spec_max_peers() == 0 ==> final(
                self).spec_peers().contains(from)),
            exists|v: Seq<u64>|
                recv_outcome(
                    old(self).spec_id(),
                    final(self).spec_peers(),
                    v,
                    *msg,
                    tick,
                    old(msgq)@,
                    final(msgq)@,
                    old(self).spec_counters().0,
                    final(self).spec_counters().0,
                    old(self).spec_counters().2,
                    final(self).spec_counters().2,
                ),
    {
        self.pkts_in = self.pkts_in + 1;
        self.bytes_in = self.bytes_in + msg.wire_size() as u64;
        match *msg {
            Message::Ping(from, to) => {
                if to == self.id {
                    let ghost ord0 = self.peer_order@;
                    self.insert_peer(from);
                    let v = peer_list(&self.peers);
                    proof {
                        self.peer_order@.unique_seq_to_set();
                        if from != self.id && !ord0.contains(from) {
                            let o = self.peer_order@;
                            assert(o[o.len() - 1] == from);
                        }
                    }
                    self.send_pongs(from, &v, tick, msgq);
                    assert(is_listing(v@, self.spec_peers()));
                    assert(spec_recv_sent(self.id, self.peers@, v@, *msg, tick) == pong_msgs(
                        self.id,
                        from,
                        v@,
                        tick,
                        3,
                    ));
                    assert(recv_outcome(
                        old(self).spec_id(),
                        self.spec_peers(),
                        v@,
                        *msg,
                        tick,
                        old(msgq)@,
                        msgq@,
                        old(self).spec_counters().0,
                        self.spec_counters().0,
                        old(self).spec_counters().2,
                        self.spec_counters().2,
                    ));
                } else {
                    proof {
                        self.listing_witness();
                    }
                    assert(spec_recv_sent(self.id, self.peers@, self.peer_order@, *msg, tick)
                        =~= Seq::<Message>::empty());
                    assert(msgq@ =~= old(msgq)@ + Seq::<Message>::empty());
                    assert(recv_outcome(
                        old(self).spec_id(),
                        self.spec_peers(),
                        self.spec_order(),
                        *msg,
                        tick,
                        old(msgq)@,
                        msgq@,
                        old(self).spec_counters().0,
                        self.spec_counters().0,
                        old(self).spec_counters().2,
                        self.spec_counters().2,
                    ));
                }
            },
            Message::Pong(from, to, rec) => {
                if to == self.id {
                    self.insert_peer(from);
                    if rec != self.id && rec != 0 {
                        self.insert_peer(rec);
                    }
                }
                proof {
                    self.listing_witness();
                    if to == self.id {
                        lemma_pong_learns(
                            old(self).spec_order(),
                            old(self).spec_id(),
                            old(self).spec_max_peers(),
                            from,
                            rec,
                        );
                        let o = spec_recv_order(
                            old(self).spec_order(),
                            old(self).spec_id(),
                            old(self).spec_max_peers(),
                            *msg,
                        );
                        assert(self.spec_order() == o);
                        if rec != self.id && rec != 0 {
                            assert(o.contains(rec));
                            assert(self.spec_peers().contains(rec));
                        }
                        if from != self.id && old(self).spec_max_peers() == 0 {
                            assert(o.contains(from));
                            assert(self.spec_peers().contains(from));
                        }
                    }
                }
                assert(msgq@ =~= old(msgq)@ + Seq::<Message>::empty());
                    assert(recv_outcome(
                        old(self).spec_id(),
                        self.spec_peers(),
                        self.spec_order(),
                        *msg,
                        tick,
                        old(msgq)@,
                        msgq@,
                        old(self).spec_counters().0,
                        self.spec_counters().0,
                        old(self).spec_counters().2,
                        self.spec_counters().2,
                    ));
            },
            Message::FindNode(from, to, target) => {
                if to == self.id {
                    self.insert_peer(from);
                    if self.peers.contains(&target) || target == self.id {
                        let m = Message::NodeFound(from, target);
                        msgq.push(m);
                        self.count_sent(m);
                        assert(seq![m].drop_last() =~= Seq::<Message>::empty());
                        assert(msgq@ =~= old(msgq)@ + seq![m]);
                        assert(total_wire(seq![m]) == m.spec_wire_size()) by {
                            assert(total_wire(Seq::<Message>::empty()) == 0);
                            assert(seq![m].last() == m);
                            assert(seq![m].len() == 1);
                        }
                        proof {
                            self.listing_witness();
                        }
                        assert(recv_outcome(
                        old(self).spec_id(),
                        self.spec_peers(),
                        self.spec_order(),
                        *msg,
                        tick,
                        old(msgq)@,
                        msgq@,
                        old(self).spec_counters().0,
                        self.spec_counters().0,
                        old(self).spec_counters().2,
                        self.spec_counters().2,
                    ));
                    } else {
                        let v = peer_list(&self.peers);
                        if v.len() > 0 {
                            let m = Message::FindNode(from, v[0], target);
                            msgq.push(m);
                            self.count_sent(m);
                            assert(seq![m].drop_last() =~= Seq::<Message>::empty());
                            assert(msgq@ =~= old(msgq)@ + seq![m]);
                            assert(total_wire(seq![m]) == m.spec_wire_size()) by {
                            assert(total_wire(Seq::<Message>::empty()) == 0);
                            assert(seq![m].last() == m);
                            assert(seq![m].len() == 1);
                        }
                            assert(is_listing(v@, self.spec_peers()));
                            assert(recv_outcome(
                        old(self).spec_id(),
                        self.spec_peers(),
                        v@,
                        *msg,
                        tick,
                        old(msgq)@,
                        msgq@,
                        old(self).spec_counters().0,
                        self.spec_counters().0,
                        old(self).spec_counters().2,
                        self.spec_counters().2,
                    ));
                        } else {
                            assert(msgq@ =~= old(msgq)@ + Seq::<Message>::empty());
                            assert(is_listing(v@, self.spec_peers()));
                    assert(recv_outcome(
                        old(self).spec_id(),
                        self.spec_peers(),
                        v@,
                        *msg,
                        tick,
                        old(msgq)@,
                        msgq@,
                        old(self).spec_counters().0,
                        self.spec_counters().0,
                        old(self).spec_counters().2,
                        self.spec_counters().2,
                    ));
                        }
                    }
                } else {
                    proof {
                        self.listing_witness();
                    }
                    assert(msgq@ =~= old(msgq)@ + Seq::<Message>::empty());
                    assert(recv_outcome(
                        old(self).spec_id(),
                        self.spec_peers(),
                        self.spec_order(),
                        *msg,
                        tick,
                        old(msgq)@,
                        msgq@,
                        old(self).spec_counters().0,
                        self.spec_counters().0,
                        old(self).spec_counters().2,
                        self.spec_counters().2,
                    ));
                }
            },
            Message::NodeFound(to, found) => {
                if to == self.id && found != self.id {
                    self.insert_peer(found);
                }
                proof {
                    self.listing_witness();
                }
                assert(msgq@ =~= old(msgq)@ + Seq::<Message>::empty());
                    assert(recv_outcome(
                        old(self).spec_id(),
                        self.spec_peers(),
                        self.spec_order(),
                        *msg,
                        tick,
                        old(msgq)@,
                        msgq@,
                        old(self).spec_counters().0,
                        self.spec_counters().0,
                        old(self).spec_counters().2,
                        self.spec_counters().2,
                    ));
            },
        }
    }

    /// Number of known peers.
    pub fn peer_count(&self) -> (n: usize)
        requires
            self.wf(),
        ensures
            n == self.spec_order().len(),
    {
        proof {
            self.peer_order@.unique_seq_to_set();
        }
        self.peers.len()
    }

    /// Packets sent so far.
    pub fn packets_out(&self) -> (n: u64)
        ensures
            n == self.spec_counters().0,
    {
        self.pkts_out
    }

    /// Bytes sent so far.
    pub fn bytes_out(&self) -> (n: u64)
        ensures
            n == self.spec_counters().2,
    {
        self.bytes_out
    }

    /// Packets received so far.
    pub fn packets_in(&self) -> (n: u64)
        ensures
            n == self.spec_counters().1,
    {
        self.pkts_in
    }

    /// Bytes received so far.
    pub fn bytes_in(&self) -> (n: u64)
        ensures
            n == self.spec_counters().3,
    {
        self.bytes_in
    }

    /// The routing-table bound (0 = unbounded).
    pub fn max_peers(&self) -> (n: usize)
        ensures
            n == self.spec_max_peers(),
    {
        self.max_peers
    }

    /// Convergence bookkeeping: a node with at least `min_peers` peers is
    /// marked converged (and stays so); returns whether it is converged.
    pub fn update_converged(&mut self, min_peers: usize) -> (c: bool)
        requires
            old(self).wf(),
        ensures
            final(self).wf(),
            final(self).spec_id() == old(self).spec_id(),
            final(self).spec_order() == old(self).spec_order(),
            final(self).spec_max_peers() == old(self).spec_max_peers(),
            final(self).spec_counters() == old(self).spec_counters(),
            c == final(self).spec_converged(),
            c == (old(self).spec_converged() || old(self).spec_order().len() >= min_peers),
    {
        proof {
            self.peer_order@.unique_seq_to_set();
        }
        if !self.converged && self.peers.len() >= min_peers {
            self.converged = true;
        }
        self.converged
    }
}

// ─── Rounds and trials ─────────────────────────────────────────

/// Whether `m` is a ping a node sends itself.
pub open spec fn self_ping(m: Message) -> bool {
    match m {
        Message::Ping(from, to) => from == to,
        _ => false,
    }
}

/// A sequence of messages is no larger on the wire than 32 bytes each.
proof fn lemma_wire_bound(msgs: Seq<Message>)
    ensures
        0 <= total_wire(msgs) <= 32 * msgs.len(),
    decreases msgs.len(),
{
    if msgs.len() > 0 {
        lemma_wire_bound(msgs.drop_last());
    }
}

/// Bootstrap pings: at most one per probe, none to the node itself.
proof fn lemma_bootstrap_pings(id: u64, all: u32, n: nat)
    ensures
        bootstrap_pings(id, all, n).len() <= n,
        forall|k: int|
            0 <= k < bootstrap_pings(id, all, n).len() ==> !self_ping(
                #[trigger] bootstrap_pings(id, all, n)[k],
            ),
    decreases n,
{
    if n > 0 {
        lemma_bootstrap_pings(id, all, (n - 1) as nat);
    }
}

/// Periodic pings: one per index, each to a listed peer.
proof fn lemma_periodic_pings(id: u64, v: Seq<u64>, tick: u64, n: nat)
    requires
        v.len() > 0,
        !v.contains(id),
    ensures
        periodic_pings(id, v, tick, n).len() == n,
        forall|k: int|
            0 <= k < n ==> !self_ping(#[trigger] periodic_pings(id, v, tick, n)[k]),
    decreases n,
{
    if n > 0 {
        lemma_periodic_pings(id, v, tick, (n - 1) as nat);
        let pi = n - 1;
        let j = (pi * 73 + tick) % v.len() as int;
        assert(v[j] != id) by {
            assert(v.contains(v[j]));
        }
    }
}

/// A periodic round sends at most 25 messages, none a ping to the node
/// itself.
proof fn lemma_periodic_msgs(id: u64, v: Seq<u64>, peers: Set<u64>, tick: u64, all: u32)
    requires
        v.len() > 0,
        !v.contains(id),
    ensures
        periodic_msgs(id, v, peers, tick, all).len() <= 25,
        forall|k: int|
            0 <= k < periodic_msgs(id, v, peers, tick, all).len() ==> !self_ping(
                #[trigger] periodic_msgs(id, v, peers, tick, all)[k],
            ),
{
    let count = v.len();
    let np: nat = if count < 15 { count } else { 15 };
    lemma_periodic_pings(id, v, tick, np);
    let pings = periodic_pings(id, v, tick, np);
    let sent = periodic_msgs(id, v, peers, tick, all);
    assert forall|k: int| 0 <= k < sent.len() implies !self_ping(#[trigger] sent[k]) by {
        if k < pings.len() {
            assert(sent[k] == pings[k]);
        }
    }
}

/// Pong replies: at most one per recommendation.
proof fn lemma_pong_msgs(id: u64, from: u64, v: Seq<u64>, tick: u64, n: nat)
    ensures
        pong_msgs(id, from, v, tick, n).len() <= n,
    decreases n,
{
    if n > 0 {
        lemma_pong_msgs(id, from, v, tick, (n - 1) as nat);
    }
}

/// What one node's tick adds: at most 30 messages and 30 × 32 bytes, no
/// ping to itself.
proof fn lemma_tick_step(
    node: Node,
    tick: u64,
    all: u32,
    q0: Seq<Message>,
    q1: Seq<Message>,
    out0: u64,
    out1: u64,
    bytes0: u64,
    bytes1: u64,
)
    requires
        node.wf(),
        exists|sent: Seq<Message>|
            {
                &&& q1 == q0 + sent
                &&& out1 == out0 + sent.len()
                &&& bytes1 == bytes0 + total_wire(sent)
                &&& if node.spec_order().len() == 0 {
                    sent == bootstrap_pings(node.spec_id(), all, 30)
                } else if tick > 0 && tick % 1000 == 0 {
                    exists|v: Seq<u64>|
                        is_listing(v, node.spec_peers()) && sent == periodic_msgs(
                            node.spec_id(),
                            v,
                            node.spec_peers(),
                            tick,
                            all,
                        )
                } else {
                    sent == Seq::<Message>::empty()
                }
            },
    ensures
        q1.len() <= q0.len() + 30,
        out0 <= out1 <= out0 + 30,
        bytes0 <= bytes1 <= bytes0 + 30 * 32,
        forall|k: int| 0 <= k < q0.len() ==> q1[k] == q0[k],
        forall|k: int| q0.len() <= k < q1.len() ==> !self_ping(#[trigger] q1[k]),
{
    let sent = choose|sent: Seq<Message>|
        {
            &&& q1 == q0 + sent
            &&& out1 == out0 + sent.len()
            &&& bytes1 == bytes0 + total_wire(sent)
            &&& if node.spec_order().len() == 0 {
                sent == bootstrap_pings(node.spec_id(), all, 30)
            } else if tick > 0 && tick % 1000 == 0 {
                exists|v: Seq<u64>|
                    is_listing(v, node.spec_peers()) && sent == periodic_msgs(
                        node.spec_id(),
                        v,
                        node.spec_peers(),
                        tick,
                        all,
                    )
            } else {
                sent == Seq::<Message>::empty()
            }
        };
    lemma_wire_bound(sent);
    if node.spec_order().len() == 0 {
        lemma_bootstrap_pings(node.spec_id(), all, 30);
    } else if tick > 0 && tick % 1000 == 0 {
        let v = choose|v: Seq<u64>|
            is_listing(v, node.spec_peers()) && sent == periodic_msgs(
                node.spec_id(),
                v,
                node.spec_peers(),
                tick,
                all,
            );
        assert(node.spec_order().contains(node.spec_order()[0]));
        assert(v.to_set().contains(node.spec_order()[0]));
        assert(!v.contains(node.spec_id())) by {
            if v.contains(node.spec_id()) {
                assert(v.to_set().contains(node.spec_id()));
            }
        }
        lemma_periodic_msgs(node.spec_id(), v, node.spec_peers(), tick, all);
    }
    assert forall|k: int| q0.len() <= k < q1.len() implies !self_ping(#[trigger] q1[k]) by {
        assert(q1[k] == sent[k - q0.len()]);
    }
}

/// What one delivery adds to the receiver: at most three replies, of at
/// most 32 bytes each.
proof fn lemma_recv_step(
    id: u64,
    peers: Set<u64>,
    msg: Message,
    tick: u64,
    q0: Seq<Message>,
    q1: Seq<Message>,
    out0: u64,
    out1: u64,
    bytes0: u64,
    bytes1: u64,
)
    requires
        exists|v: Seq<u64>|
            recv_outcome(id, peers, v, msg, tick, q0, q1, out0, out1, bytes0, bytes1),
    ensures
        out0 <= out1 <= out0 + 3,
        bytes0 <= bytes1 <= bytes0 + 3 * 32,
        forall|k: int| 0 <= k < q0.len() ==> q1[k] == q0[k],
{
    let v = choose|v: Seq<u64>|
        recv_outcome(id, peers, v, msg, tick, q0, q1, out0, out1, bytes0, bytes1);
    let sent = spec_recv_sent(id, peers, v, msg, tick);
    lemma_wire_bound(sent);
    match msg {
        Message::Ping(from, to) => {
            lemma_pong_msgs(id, from, v, tick, 3);
        },
        _ => {},
    }
    assert forall|k: int| 0 <= k < q0.len() implies q1[k] == q0[k] by {
        assert(q1 == q0 + sent);
    }
}

/// Whether `nodes` is the simulated network: node `j` has identifier `j`
/// and a consistent peer table.
pub open spec fn is_network(nodes: Seq<Node>) -> bool {
    forall|j: int| 0 <= j < nodes.len() ==> (#[trigger] nodes[j]).wf() && nodes[j].spec_id() == j
}

/// Room in a node's counters (packets out, in, bytes out, in) for one more
/// tick of a network of `n` nodes: the node sends at most 30 messages of
/// its own and three replies to each of the at most `30 n` messages of the
/// round, and receives at most all of them.
pub open spec fn tick_room(c: (u64, u64, u64, u64), n: nat) -> bool {
    &&& c.0 + 30 + 90 * n <= u64::MAX
    &&& c.1 + 30 * n <= u64::MAX
    &&& c.2 + 32 * (30 + 90 * n) <= u64::MAX
    &&& c.3 + 32 * (30 * n) <= u64::MAX
}

/// Node `k` of `nodes` is node `k` of `start` after some steps: same
/// identity, table bound and convergence flag, consistent, with counters
/// grown by at most `d` (packets out, in, bytes out, in).
pub open spec fn stepped(start: Seq<Node>, nodes: Seq<Node>, k: int, d: (int, int, int, int)) -> bool {
    let c0 = start[k].spec_counters();
    let c1 = nodes[k].spec_counters();
    &&& nodes[k].wf()
    &&& nodes[k].spec_id() == start[k].spec_id()
    &&& nodes[k].spec_max_peers() == start[k].spec_max_peers()
    &&& nodes[k].spec_converged() == start[k].spec_converged()
    &&& c0.0 <= c1.0 <= c0.0 + d.0
    &&& c0.1 <= c1.1 <= c0.1 + d.1
    &&& c0.2 <= c1.2 <= c0.2 + d.2
    &&& c0.3 <= c1.3 <= c0.3 + d.3
}

/// What generating its messages adds to a node's counters at most.
pub open spec fn own_sends() -> (int, int, int, int) {
    (30, 0, 960, 0)
}

/// What a node's counters grow by at most once the first `i` messages of
/// a round are delivered.
pub open spec fn after_deliveries(i: int) -> (int, int, int, int) {
    (30 + 3 * i, i, 960 + 96 * i, 32 * i)
}

/// What one tick of a network of `n` nodes adds to a node's counters at
/// most (the round holds at most `30 n` messages).
pub open spec fn tick_bound(n: int) -> (int, int, int, int) {
    after_deliveries(30 * n)
}

/// Every node of `nodes` stepped from `start` by at most `d`.
pub open spec fn all_stepped(start: Seq<Node>, nodes: Seq<Node>, d: (int, int, int, int)) -> bool {
    &&& nodes.len() == start.len()
    &&& forall|k: int| 0 <= k < start.len() ==> #[trigger] stepped(start, nodes, k, d)
}

/// Stepping is monotone in the bound.
proof fn lemma_stepped_weaken(
    start: Seq<Node>,
    nodes: Seq<Node>,
    d: (int, int, int, int),
    e: (int, int, int, int),
)
    requires
        all_stepped(start, nodes, d),
        d.0 <= e.0 && d.1 <= e.1 && d.2 <= e.2 && d.3 <= e.3,
    ensures
        all_stepped(start, nodes, e),
{
    assert forall|k: int| 0 <= k < start.len() implies #[trigger] stepped(start, nodes, k, e) by {
        assert(stepped(start, nodes, k, d));
    }
}

/// Replacing node `t` by one stepped within `e` keeps the others as they
/// were.
proof fn lemma_stepped_update(
    start: Seq<Node>,
    pre: Seq<Node>,
    t: int,
    post: Seq<Node>,
    d: (int, int, int, int),
    e: (int, int, int, int),
)
    requires
        all_stepped(start, pre, d),
        0 <= t < pre.len(),
        post == pre.update(t, post[t]),
        stepped(start, post, t, e),
        d.0 <= e.0 && d.1 <= e.1 && d.2 <= e.2 && d.3 <= e.3,
    ensures
        all_stepped(start, post, e),
{
    assert forall|k: int| 0 <= k < start.len() implies #[trigger] stepped(start, post, k, e) by {
        if k != t {
            assert(post[k] == pre[k]);
            assert(stepped(start, pre, k, d));
        }
    }
}

/// What one node's tick did (see [`Node::tick`]): the node went from `n0`
/// to `n1` and the queue from `q0` to `q1`.
#[verifier::opaque]
pub open spec fn tick_outcome(
    n0: Node,
    n1: Node,
    tick: u64,
    all: u32,
    q0: Seq<Message>,
    q1: Seq<Message>,
) -> bool {
    &&& n1.wf()
    &&& n1.spec_id() == n0.spec_id()
    &&& n1.spec_order() == n0.spec_order()
    &&& n1.spec_max_peers() == n0.spec_max_peers()
    &&& n1.spec_converged() == n0.spec_converged()
    &&& n1.spec_counters().1 == n0.spec_counters().1
    &&& n1.spec_counters().3 == n0.spec_counters().3
    &&& exists|sent: Seq<Message>|
        {
            &&& q1 == q0 + sent
            &&& n1.spec_counters().0 == n0.spec_counters().0 + sent.len()
            &&& n1.spec_counters().2 == n0.spec_counters().2 + total_wire(sent)
            &&& if n0.spec_order().len() == 0 {
                sent == bootstrap_pings(n0.spec_id(), all, 30)
            } else if tick > 0 && tick % 1000 == 0 {
                exists|v: Seq<u64>|
                    is_listing(v, n0.spec_peers()) && sent == periodic_msgs(
                        n0.spec_id(),
                        v,
                        n0.spec_peers(),
                        tick,
                        all,
                    )
            } else {
                sent == Seq::<Message>::empty()
            }
        }
}

/// The first `m` nodes ticked in order: node `k` went from `start[k]` to
/// `nodes[k]`, appending `q[ends[k]..ends[k + 1]]` to the queue, which
/// started empty.
pub open spec fn ticked_in_order(
    start: Seq<Node>,
    nodes: Seq<Node>,
    q: Seq<Message>,
    ends: Seq<int>,
    m: int,
    tick: u64,
    all: u32,
) -> bool {
    &&& ends.len() == m + 1
    &&& ends[0] == 0
    &&& ends[m] == q.len()
    &&& forall|k: int|
        0 <= k < m ==> 0 <= ends[k] <= ends[k + 1] <= q.len() && #[trigger] tick_outcome(
            start[k],
            nodes[k],
            tick,
            all,
            q.take(ends[k]),
            q.take(ends[k + 1]),
        )
}

/// Ticking node `j` next extends the record by one step.
proof fn lemma_ticked_extend(
    start: Seq<Node>,
    pre: Seq<Node>,
    post: Seq<Node>,
    q0: Seq<Message>,
    q1: Seq<Message>,
    ends: Seq<int>,
    j: int,
    tick: u64,
    all: u32,
)
    requires
        ticked_in_order(start, pre, q0, ends, j, tick, all),
        0 <= j < pre.len(),
        post == pre.update(j, post[j]),
        q0.len() <= q1.len(),
        q1.take(q0.len() as int) == q0,
        tick_outcome(start[j], post[j], tick, all, q0, q1),
    ensures
        ticked_in_order(start, post, q1, ends.push(q1.len() as int), j + 1, tick, all),
{
    let e = ends.push(q1.len() as int);
    assert(e.len() == j + 2);
    assert(e[0] == ends[0]);
    assert(e[j + 1] == q1.len());
    assert(e[j] == q0.len());
    assert forall|k: int| 0 <= k < j + 1 implies 0 <= #[trigger] e[k] <= e[k + 1] <= q1.len() by {
        if k < j {
            assert(tick_outcome(start[k], pre[k], tick, all, q0.take(ends[k]), q0.take(ends[k + 1])));
            assert(e[k] == ends[k]);
            assert(e[k + 1] == ends[k + 1]);
        }
    }
    assert forall|k: int| 0 <= k < j + 1 implies #[trigger] tick_outcome(
        start[k],
        post[k],
        tick,
        all,
        q1.take(e[k]),
        q1.take(e[k + 1]),
    ) by {
        if k < j {
            assert(tick_outcome(start[k], pre[k], tick, all, q0.take(ends[k]), q0.take(ends[k + 1])));
            assert(e[k] == ends[k]);
            assert(e[k + 1] == ends[k + 1]);
            assert(post[k] == pre[k]);
            assert(q1.take(e[k]) =~= q0.take(ends[k]));
            assert(q1.take(e[k + 1]) =~= q0.take(ends[k + 1]));
        } else {
            assert(q1.take(e[k]) =~= q0);
            assert(q1.take(e[k + 1]) =~= q1);
        }
    }
}

/// Every node in turn generates its messages into `msgq` (see
/// [`Node::tick`]).
fn tick_all(nodes: &mut Vec<Node>, tick: u64, msgq: &mut Vec<Message>)
    requires
        is_network(old(nodes)@),
        old(nodes)@.len() <= u32::MAX,
        tick + 2000 <= usize::MAX,
        old(msgq)@.len() == 0,
        forall|j: int|
            0 <= j < old(nodes)@.len() ==> tick_room(
                #[trigger] old(nodes)@[j].spec_counters(),
                old(nodes)@.len(),
            ),
    ensures
        exists|ends: Seq<int>|
            #[trigger] ticked_in_order(
                old(nodes)@,
                final(nodes)@,
                final(msgq)@,
                ends,
                old(nodes)@.len() as int,
                tick,
                old(nodes)@.len() as u32,
            ),
        all_stepped(old(nodes)@, final(nodes)@, own_sends()),
        final(msgq)@.len() <= 30 * old(nodes)@.len(),
        forall|k: int| 0 <= k < final(msgq)@.len() ==> !self_ping(#[trigger] final(msgq)@[k]),
{
    let ghost start = nodes@;
    let n: usize = nodes.len();
    let all: u32 = n as u32;
    let mut j: usize = 0;
    let ghost mut ends: Seq<int> = seq![0int];
    proof {
        assert forall|k: int| 0 <= k < n implies #[trigger] stepped(start, nodes@, k, (0, 0, 0, 0)) by {}
    }
    while j < n
        invariant
            n == start.len(),
            all == n,
            n <= u32::MAX,
            tick + 2000 <= usize::MAX,
            j <= n,
            is_network(start),
            forall|k: int| 0 <= k < n ==> tick_room(#[trigger] start[k].spec_counters(), n as nat),
            all_stepped(start, nodes@, own_sends()),
            forall|k: int| j <= k < n ==> #[trigger] nodes@[k] == start[k],
            msgq@.len() <= 30 * j,
            forall|k: int| 0 <= k < msgq@.len() ==> !self_ping(#[trigger] msgq@[k]),
            ticked_in_order(start, nodes@, msgq@, ends, j as int, tick, all),
        decreases n - j,
    {
        let ghost pre = nodes@;
        let ghost before = nodes@[j as int];
        let ghost q0 = msgq@;
        proof {
            assert(before == start[j as int]);
            assert(tick_room(start[j as int].spec_counters(), n as nat));
        }
        nodes[j].tick(tick, all, msgq);
        proof {
            let after = nodes@[j as int];
            lemma_tick_step(
                before,
                tick,
                all,
                q0,
                msgq@,
                before.spec_counters().0,
                after.spec_counters().0,
                before.spec_counters().2,
                after.spec_counters().2,
            );
            assert(nodes@ == pre.update(j as int, after));
            assert(after.wf());
            assert(after.spec_id() == before.spec_id());
            assert(after.spec_max_peers() == before.spec_max_peers());
            assert(after.spec_converged() == before.spec_converged());
            assert(after.spec_counters().1 == before.spec_counters().1);
            assert(after.spec_counters().3 == before.spec_counters().3);
            assert(before.spec_counters().0 <= after.spec_counters().0);
            assert(before.spec_counters().2 <= after.spec_counters().2);
            assert(stepped(start, nodes@, j as int, own_sends()));
            lemma_stepped_update(start, pre, j as int, nodes@, own_sends(), own_sends());
            assert forall|k: int| j + 1 <= k < n implies #[trigger] nodes@[k] == start[k] by {
                assert(nodes@[k] == pre[k]);
            }
            assert forall|k: int| 0 <= k < msgq@.len() implies !self_ping(#[trigger] msgq@[k]) by {
                if k < q0.len() {
                    assert(msgq@[k] == q0[k]);
                }
            }
            assert(msgq@.take(q0.len() as int) =~= q0);
            assert(tick_outcome(before, after, tick, all, q0, msgq@)) by {
                reveal(tick_outcome);
            }
            lemma_ticked_extend(start, pre, nodes@, q0, msgq@, ends, j as int, tick, all);
            ends = ends.push(msgq@.len() as int);
        }
        j = j + 1;
    }
}

/// What receiving `msg` did to a node (see [`Node::recv`]): the node went
/// from `n0` to `n1`, its table offered the sender, and its counters took
/// the message in and the replies out.
#[verifier::opaque]
pub open spec fn recv_step(n0: Node, n1: Node, msg: Message, tick: u64) -> bool {
    &&& n1.wf()
    &&& n1.spec_id() == n0.spec_id()
    &&& n1.spec_max_peers() == n0.spec_max_peers()
    &&& n1.spec_converged() == n0.spec_converged()
    &&& n1.spec_order() == spec_recv_order(
        n0.spec_order(),
        n0.spec_id(),
        n0.spec_max_peers(),
        msg,
    )
    &&& n1.spec_counters().1 == n0.spec_counters().1 + 1
    &&& n1.spec_counters().3 == n0.spec_counters().3 + msg.spec_wire_size()
    &&& exists|v: Seq<u64>|
        #[trigger] is_listing(v, n1.spec_peers()) && n1.spec_counters().0 == n0.spec_counters().0
            + spec_recv_sent(n0.spec_id(), n1.spec_peers(), v, msg, tick).len()
            && n1.spec_counters().2 == n0.spec_counters().2 + total_wire(
            spec_recv_sent(n0.spec_id(), n1.spec_peers(), v, msg, tick),
        )
}

/// Delivering `msg` took the network from `before` to `after`: a node of
/// the network it is addressed to received it; otherwise nothing changed.
#[verifier::opaque]
pub open spec fn delivery(before: Seq<Node>, after: Seq<Node>, msg: Message, tick: u64) -> bool {
    let t = msg.spec_to() as int;
    if t < before.len() {
        &&& after == before.update(t, after[t])
        &&& recv_step(before[t], after[t], msg, tick)
    } else {
        after == before
    }
}

/// The first `m` messages of `round` delivered in order, taking the
/// network from `from` to `to`: `hist[k]` is the network before message
/// `k`.
pub open spec fn delivered_prefix(
    hist: Seq<Seq<Node>>,
    from: Seq<Node>,
    to: Seq<Node>,
    round: Seq<Message>,
    m: int,
    tick: u64,
) -> bool {
    &&& hist.len() == m + 1
    &&& 0 <= m <= round.len()
    &&& hist[0] == from
    &&& hist[m] == to
    &&& forall|k: int| 0 <= k < m ==> #[trigger] delivery(hist[k], hist[k + 1], round[k], tick)
}

/// One tick of the network (see [`simulate_tick`]): from `pre`, every node
/// ticked in turn into a round of messages, and the whole round was then
/// delivered in order, giving `post`.
#[verifier::opaque]
pub open spec fn sim_step(pre: Seq<Node>, post: Seq<Node>, tick: u64) -> bool {
    exists|mid: Seq<Node>, q: Seq<Message>, ends: Seq<int>, hist: Seq<Seq<Node>>|
        #![trigger ticked_in_order(pre, mid, q, ends, pre.len() as int, tick, pre.len() as u32), delivered_prefix(hist, mid, post, q, q.len() as int, tick)]
        mid.len() == pre.len() && ticked_in_order(
            pre,
            mid,
            q,
            ends,
            pre.len() as int,
            tick,
            pre.len() as u32,
        ) && delivered_prefix(hist, mid, post, q, q.len() as int, tick)
}

/// Delivering message `i` next extends the record by one step.
proof fn lemma_delivered_extend(
    hist: Seq<Seq<Node>>,
    from: Seq<Node>,
    pre: Seq<Node>,
    post: Seq<Node>,
    round: Seq<Message>,
    i: int,
    tick: u64,
)
    requires
        delivered_prefix(hist, from, pre, round, i, tick),
        i < round.len(),
        delivery(pre, post, round[i], tick),
    ensures
        delivered_prefix(hist.push(post), from, post, round, i + 1, tick),
{
    let h = hist.push(post);
    assert forall|k: int| 0 <= k < i + 1 implies #[trigger] delivery(h[k], h[k + 1], round[k], tick) by {
        if k < i {
            assert(h[k] == hist[k] && h[k + 1] == hist[k + 1]);
        } else {
            assert(h[k] == pre && h[k + 1] == post);
        }
    }
}

/// Deliver the first `len` messages of `msgq` to their addressees in the
/// network (see [`Node::recv`]); replies are appended behind them.
fn deliver_all(nodes: &mut Vec<Node>, tick: u64, msgq: &mut Vec<Message>, Ghost(start): Ghost<Seq<Node>>)
    requires
        is_network(start),
        start.len() <= u32::MAX,
        all_stepped(start, old(nodes)@, own_sends()),
        forall|j: int| 0 <= j < start.len() ==> tick_room(#[trigger] start[j].spec_counters(), start.len()),
        old(msgq)@.len() <= 30 * start.len(),
        forall|k: int| 0 <= k < old(msgq)@.len() ==> !self_ping(#[trigger] old(msgq)@[k]),
    ensures
        all_stepped(
            start,
            final(nodes)@,
            tick_bound(start.len() as int),
        ),
        exists|hist: Seq<Seq<Node>>|
            #[trigger] delivered_prefix(
                hist,
                old(nodes)@,
                final(nodes)@,
                old(msgq)@,
                old(msgq)@.len() as int,
                tick,
            ),
{
    let n: usize = nodes.len();
    let all: u32 = n as u32;
    let len: usize = msgq.len();
    let ghost round = msgq@;
    let ghost first = nodes@;
    let ghost mut hist: Seq<Seq<Node>> = seq![nodes@];
    let mut i: usize = 0;
    while i < len
        invariant
            delivered_prefix(hist, first, nodes@, round, i as int, tick),
            n == start.len(),
            all == n,
            n <= u32::MAX,
            is_network(start),
            forall|j: int| 0 <= j < n ==> tick_room(#[trigger] start[j].spec_counters(), n as nat),
            len == round.len(),
            len <= 30 * n,
            i <= len,
            msgq@.len() >= len,
            forall|k: int| 0 <= k < len ==> #[trigger] msgq@[k] == round[k],
            forall|k: int| 0 <= k < len ==> !self_ping(#[trigger] round[k]),
            all_stepped(start, nodes@, after_deliveries(i as int)),
        decreases len - i,
    {
        let msg: Message = msgq[i];
        let to: u64 = msg.to();
        let ghost d = after_deliveries(i as int);
        let ghost e = after_deliveries(i + 1);
        if to < n as u64 {
            let t: usize = to as usize;
            let ghost pre = nodes@;
            let ghost before = nodes@[t as int];
            let ghost q0 = msgq@;
            proof {
                assert(stepped(start, pre, t as int, d));
                assert(before.wf() && before.spec_id() == t);
                assert(msgq@[i as int] == round[i as int]);
                let c0 = start[t as int].spec_counters();
                let c1 = before.spec_counters();
                assert(tick_room(c0, n as nat));
                assert(c1.2 + 3 * 32 <= c0.2 + 32 * (30 + 90 * n)) by (nonlinear_arith)
                    requires
                        c1.2 <= c0.2 + 960 + 96 * i,
                        i + 1 <= 30 * n,
                ;
                assert(c1.0 + 3 <= c0.0 + 30 + 90 * n) by (nonlinear_arith)
                    requires
                        c1.0 <= c0.0 + 30 + 3 * i,
                        i + 1 <= 30 * n,
                ;
                assert(c1.3 + 32 <= c0.3 + 32 * (30 * n)) by (nonlinear_arith)
                    requires
                        c1.3 <= c0.3 + 32 * i,
                        i + 1 <= 30 * n,
                ;
            }
            nodes[t].recv(&msg, msgq, tick, all);
            proof {
                let after = nodes@[t as int];
                lemma_recv_step(
                    before.spec_id(),
                    after.spec_peers(),
                    msg,
                    tick,
                    q0,
                    msgq@,
                    before.spec_counters().0,
                    after.spec_counters().0,
                    before.spec_counters().2,
                    after.spec_counters().2,
                );
                assert(nodes@ == pre.update(t as int, after));
                assert(d == after_deliveries(i as int));
                assert(e == after_deliveries(i + 1));
                assert(d.0 == 30 + 3 * i);
                assert(e.0 == 30 + 3 * (i + 1));
                assert(d.0 <= e.0);
                assert(d.1 <= e.1);
                assert(d.2 <= e.2);
                assert(d.3 <= e.3);
                assert(after.wf());
                assert(after.spec_id() == before.spec_id());
                assert(after.spec_counters().1 == before.spec_counters().1 + 1);
                assert(after.spec_counters().3 <= before.spec_counters().3 + 32);
                assert(stepped(start, nodes@, t as int, e));
                lemma_stepped_update(start, pre, t as int, nodes@, d, e);
                assert forall|k: int| 0 <= k < len implies #[trigger] msgq@[k] == round[k] by {
                    assert(q0[k] == round[k]);
                }
                let v = choose|v: Seq<u64>|
                    recv_outcome(
                        before.spec_id(),
                        after.spec_peers(),
                        v,
                        msg,
                        tick,
                        q0,
                        msgq@,
                        before.spec_counters().0,
                        after.spec_counters().0,
                        before.spec_counters().2,
                        after.spec_counters().2,
                    );
                assert(is_listing(v, after.spec_peers()));
                assert(recv_step(before, after, msg, tick)) by {
                    reveal(recv_step);
                }
                assert(delivery(pre, nodes@, round[i as int], tick)) by {
                    reveal(delivery);
                }
                lemma_delivered_extend(hist, first, pre, nodes@, round, i as int, tick);
                hist = hist.push(nodes@);
            }
        } else {
            proof {
                lemma_stepped_weaken(start, nodes@, d, e);
                assert(delivery(nodes@, nodes@, round[i as int], tick)) by {
                    reveal(delivery);
                }
                lemma_delivered_extend(hist, first, nodes@, nodes@, round, i as int, tick);
                hist = hist.push(nodes@);
            }
        }
        i = i + 1;
    }
    proof {
        lemma_stepped_weaken(
            start,
            nodes@,
            after_deliveries(i as int),
            tick_bound(n as int),
        );
    }
}

/// One tick of the simulated network: every node in turn generates its
/// messages (see [`Node::tick`]); then each message of the round addressed
/// to a node of the network is delivered to it (see [`Node::recv`]).
/// Replies produced by the deliveries are counted by their senders but not
/// delivered; the queue is left empty.
pub fn simulate_tick(nodes: &mut Vec<Node>, tick: u64, msgq: &mut Vec<Message>)
    requires
        is_network(old(nodes)@),
        old(nodes)@.len() <= u32::MAX,
        tick + 2000 <= usize::MAX,
        forall|j: int|
            0 <= j < old(nodes)@.len() ==> tick_room(
                #[trigger] old(nodes)@[j].spec_counters(),
                old(nodes)@.len(),
            ),
    ensures
        is_network(final(nodes)@),
        final(msgq)@.len() == 0,
        all_stepped(
            old(nodes)@,
            final(nodes)@,
            tick_bound(old(nodes)@.len() as int),
        ),
        sim_step(old(nodes)@, final(nodes)@, tick),
{
    let ghost start = nodes@;
    msgq.clear();
    tick_all(nodes, tick, msgq);
    let ghost mid = nodes@;
    let ghost q = msgq@;
    deliver_all(nodes, tick, msgq, Ghost(start));
    msgq.clear();
    proof {
        let n = start.len();
        let ends = choose|ends: Seq<int>|
            #[trigger] ticked_in_order(start, mid, q, ends, n as int, tick, n as u32);
        let hist = choose|hist: Seq<Seq<Node>>|
            #[trigger] delivered_prefix(hist, mid, nodes@, q, q.len() as int, tick);
        assert(mid.len() == n);
        assert(sim_step(start, nodes@, tick)) by {
            reveal(sim_step);
            assert(ticked_in_order(start, mid, q, ends, n as int, tick, n as u32));
            assert(delivered_prefix(hist, mid, nodes@, q, q.len() as int, tick));
        }
    }
    proof {
        let n = start.len();
        let d = tick_bound(n as int);
        assert forall|j: int| 0 <= j < nodes@.len() implies (#[trigger] nodes@[j]).wf()
            && nodes@[j].spec_id() == j by {
            assert(stepped(start, nodes@, j, d));
        }
    }
}

/// Ticks between convergence checks of a trial.
pub const CHECK_INTERVAL: u64 = 500;

/// Ticks a trial runs on once the network has converged.
pub const SETTLE_TICKS: u64 = 5000;

/// Number of nodes flagged converged.
pub open spec fn converged_count(nodes: Seq<Node>) -> nat
    decreases nodes.len(),
{
    if nodes.len() == 0 {
        0
    } else {
        converged_count(nodes.drop_last()) + if nodes.last().spec_converged() {
            1nat
        } else {
            0nat
        }
    }
}

/// The count only depends on the flags, and is at most the length.
proof fn lemma_converged_count(a: Seq<Node>, b: Seq<Node>)
    requires
        a.len() == b.len(),
        forall|k: int| 0 <= k < a.len() ==> (#[trigger] a[k]).spec_converged() == b[k].spec_converged(),
    ensures
        converged_count(a) == converged_count(b),
        converged_count(a) <= a.len(),
    decreases a.len(),
{
    if a.len() > 0 {
        assert forall|k: int| 0 <= k < a.drop_last().len() implies (
        #[trigger] a.drop_last()[k]).spec_converged() == b.drop_last()[k].spec_converged() by {
            assert(a.drop_last()[k] == a[k] && b.drop_last()[k] == b[k]);
        }
        lemma_converged_count(a.drop_last(), b.drop_last());
    }
}

/// No node flagged: the count is zero.
proof fn lemma_none_converged(a: Seq<Node>)
    requires
        forall|k: int| 0 <= k < a.len() ==> !(#[trigger] a[k]).spec_converged(),
    ensures
        converged_count(a) == 0,
    decreases a.len(),
{
    if a.len() > 0 {
        assert forall|k: int| 0 <= k < a.drop_last().len() implies !(
        #[trigger] a.drop_last()[k]).spec_converged() by {
            assert(a.drop_last()[k] == a[k]);
        }
        lemma_none_converged(a.drop_last());
    }
}

/// A node of a network that has run `t` ticks from fresh counters: still
/// consistent, in its place, with its table bound, and counters within `t`
/// ticks' worth.
pub open spec fn aged(start: Seq<Node>, nodes: Seq<Node>, k: int, t: int) -> bool {
    let c = nodes[k].spec_counters();
    let d = tick_bound(start.len() as int);
    &&& nodes[k].wf()
    &&& nodes[k].spec_id() == k
    &&& nodes[k].spec_max_peers() == start[k].spec_max_peers()
    &&& c.0 <= t * d.0
    &&& c.1 <= t * d.1
    &&& c.2 <= t * d.2
    &&& c.3 <= t * d.3
}

/// A trial's counters never run out: `MAX_TICKS` ticks of up to 2^32 - 1
/// nodes fit in 64 bits.
proof fn lemma_trial_room(t: int, n: int, c: (u64, u64, u64, u64))
    requires
        0 <= t < MAX_TICKS,
        0 <= n <= u32::MAX,
        c.0 <= t * tick_bound(n).0,
        c.1 <= t * tick_bound(n).1,
        c.2 <= t * tick_bound(n).2,
        c.3 <= t * tick_bound(n).3,
    ensures
        tick_room(c, n as nat),
{
    let d = tick_bound(n);
    assert(d.0 == 30 + 90 * n && d.1 == 30 * n && d.2 == 960 + 2880 * n && d.3 == 960 * n);
    assert((t + 1) * d.0 <= u64::MAX) by (nonlinear_arith)
        requires
            0 <= t < 120_000,
            0 <= n <= 0xffff_ffff,
            d.0 == 30 + 90 * n,
    ;
    assert((t + 1) * d.2 <= u64::MAX) by (nonlinear_arith)
        requires
            0 <= t < 120_000,
            0 <= n <= 0xffff_ffff,
            d.2 == 960 + 2880 * n,
    ;
    assert((t + 1) * d.1 <= u64::MAX) by (nonlinear_arith)
        requires
            0 <= t < 120_000,
            0 <= n <= 0xffff_ffff,
            d.1 == 30 * n,
    ;
    assert((t + 1) * d.3 <= u64::MAX) by (nonlinear_arith)
        requires
            0 <= t < 120_000,
            0 <= n <= 0xffff_ffff,
            d.3 == 960 * n,
    ;
    assert(t * d.0 + d.0 == (t + 1) * d.0 && t * d.1 + d.1 == (t + 1) * d.1 && t * d.2 + d.2 == (t
        + 1) * d.2 && t * d.3 + d.3 == (t + 1) * d.3) by (nonlinear_arith);
}

/// Flag the nodes with at least `min_peers` peers as converged (see
/// [`Node::update_converged`]) and count the flagged nodes.
pub fn check_convergence(nodes: &mut Vec<Node>, min_peers: usize) -> (count: u32)
    requires
        old(nodes)@.len() <= u32::MAX,
        forall|k: int| 0 <= k < old(nodes)@.len() ==> (#[trigger] old(nodes)@[k]).wf(),
    ensures
        final(nodes)@.len() == old(nodes)@.len(),
        count == converged_count(final(nodes)@),
        forall|k: int|
            0 <= k < old(nodes)@.len() ==> {
                &&& (#[trigger] final(nodes)@[k]).wf()
                &&& final(nodes)@[k].spec_id() == old(nodes)@[k].spec_id()
                &&& final(nodes)@[k].spec_order() == old(nodes)@[k].spec_order()
                &&& final(nodes)@[k].spec_max_peers() == old(nodes)@[k].spec_max_peers()
                &&& final(nodes)@[k].spec_counters() == old(nodes)@[k].spec_counters()
                &&& final(nodes)@[k].spec_converged() == (old(nodes)@[k].spec_converged()
                    || old(nodes)@[k].spec_order().len() >= min_peers)
            },
{
    let ghost start = nodes@;
    let n: usize = nodes.len();
    let mut count: u32 = 0;
    let mut k: usize = 0;
    while k < n
        invariant
            n == start.len(),
            n <= u32::MAX,
            k <= n,
            nodes@.len() == n,
            count == converged_count(nodes@.take(k as int)),
            count <= k,
            forall|q: int| 0 <= q < n ==> (#[trigger] start[q]).wf(),
            forall|q: int| k <= q < n ==> #[trigger] nodes@[q] == start[q],
            forall|q: int|
                0 <= q < k ==> {
                    &&& (#[trigger] nodes@[q]).wf()
                    &&& nodes@[q].spec_id() == start[q].spec_id()
                    &&& nodes@[q].spec_order() == start[q].spec_order()
                    &&& nodes@[q].spec_max_peers() == start[q].spec_max_peers()
                    &&& nodes@[q].spec_counters() == start[q].spec_counters()
                    &&& nodes@[q].spec_converged() == (start[q].spec_converged()
                        || start[q].spec_order().len() >= min_peers)
                },
        decreases n - k,
    {
        let ghost pre = nodes@;
        proof {
            assert(pre[k as int] == start[k as int]);
        }
        let c: bool = nodes[k].update_converged(min_peers);
        proof {
            assert(nodes@ == pre.update(k as int, nodes@[k as int]));
            assert(nodes@.take(k + 1).drop_last() =~= nodes@.take(k as int));
            assert(nodes@.take(k as int) =~= pre.take(k as int));
            assert(nodes@.take(k + 1).last() == nodes@[k as int]);
        }
        if c {
            count = count + 1;
        }
        proof {
            assert forall|q: int| k + 1 <= q < n implies #[trigger] nodes@[q] == start[q] by {
                assert(nodes@[q] == pre[q]);
            }
            assert forall|q: int| 0 <= q < k + 1 implies {
                &&& (#[trigger] nodes@[q]).wf()
                &&& nodes@[q].spec_id() == start[q].spec_id()
                &&& nodes@[q].spec_order() == start[q].spec_order()
                &&& nodes@[q].spec_max_peers() == start[q].spec_max_peers()
                &&& nodes@[q].spec_counters() == start[q].spec_counters()
                &&& nodes@[q].spec_converged() == (start[q].spec_converged()
                    || start[q].spec_order().len() >= min_peers)
            } by {
                if q != k {
                    assert(nodes@[q] == pre[q]);
                }
            }
        }
        k = k + 1;
    }
    proof {
        assert(nodes@.take(n as int) =~= nodes@);
    }
    count
}

/// Where a trial stands before a tick: the network, the tick of
/// convergence if any, and the number of nodes flagged at the last check.
pub type TrialState = (Seq<Node>, Option<u64>, u32);

/// Whether a trial stops before tick `t`: at [`MAX_TICKS`], or more than
/// [`SETTLE_TICKS`] ticks after convergence.
pub open spec fn trial_stops(s: TrialState, t: int) -> bool {
    t >= MAX_TICKS || (s.1 matches Some(c) && t - c > SETTLE_TICKS)
}

/// The network `post` is `pre` with every node that has at least
/// `min_peers` peers flagged converged (see [`check_convergence`]).
pub open spec fn checked(pre: Seq<Node>, post: Seq<Node>, min_peers: usize) -> bool {
    &&& post.len() == pre.len()
    &&& forall|k: int|
        0 <= k < pre.len() ==> {
            &&& (#[trigger] post[k]).wf()
            &&& post[k].spec_id() == pre[k].spec_id()
            &&& post[k].spec_order() == pre[k].spec_order()
            &&& post[k].spec_max_peers() == pre[k].spec_max_peers()
            &&& post[k].spec_counters() == pre[k].spec_counters()
            &&& post[k].spec_converged() == (pre[k].spec_converged() || pre[k].spec_order().len()
                >= min_peers)
        }
}

/// Tick `t` of a trial, from `s0` to `s1`: the network runs one tick (see
/// [`sim_step`]); before convergence, at every [`CHECK_INTERVAL`]th tick,
/// the nodes are then checked and counted, and the trial has converged at
/// `t` once `needed` nodes are flagged.
#[verifier::opaque]
pub open spec fn trial_step(s0: TrialState, s1: TrialState, t: int, min_peers: usize, needed: u32) -> bool {
    exists|mid: Seq<Node>|
        #[trigger] sim_step(s0.0, mid, t as u64) && if s0.1 is None && t % (CHECK_INTERVAL as int) == 0 {
            &&& checked(mid, s1.0, min_peers)
            &&& s1.2 == converged_count(s1.0)
            &&& s1.1 == if s1.2 >= needed {
                Some(t as u64)
            } else {
                None::<u64>
            }
        } else {
            s1 == (mid, s0.1, s0.2)
        }
}

/// Tick `t` of the trial recorded in `trace` ran: the trial had not
/// stopped, and `trace[t + 1]` is where tick `t` took it from `trace[t]`.
pub open spec fn ran_tick(trace: Seq<TrialState>, t: int, min_peers: usize, needed: u32) -> bool {
    !trial_stops(trace[t], t) && trial_step(trace[t], trace[t + 1], t, min_peers, needed)
}

/// A whole trial from the network `start`: `trace[t]` is where it stood
/// before tick `t`; each tick ran while the trial had not stopped, and it
/// stopped at the end.
pub open spec fn trial_trace(start: Seq<Node>, trace: Seq<TrialState>, min_peers: usize, needed: u32) -> bool {
    &&& trace.len() >= 1
    &&& trace[0] == (start, None::<u64>, 0u32)
    &&& forall|t: int| 0 <= t < trace.len() - 1 ==> #[trigger] ran_tick(trace, t, min_peers, needed)
    &&& trial_stops(trace.last(), trace.len() - 1)
}

/// The network `a` has the shape of `b`: as many nodes, each consistent,
/// with the identity and table bound of the node in its place in `b`.
pub open spec fn same_shape(a: Seq<Node>, b: Seq<Node>) -> bool {
    &&& a.len() == b.len()
    &&& forall|k: int|
        0 <= k < b.len() ==> (#[trigger] a[k]).wf() && a[k].spec_id() == b[k].spec_id()
            && a[k].spec_max_peers() == b[k].spec_max_peers()
}

/// Delivering the first `j` messages of a round keeps the network's shape.
proof fn lemma_delivered_shape(
    hist: Seq<Seq<Node>>,
    from: Seq<Node>,
    to: Seq<Node>,
    round: Seq<Message>,
    m: int,
    tick: u64,
    j: int,
)
    requires
        delivered_prefix(hist, from, to, round, m, tick),
        forall|k: int| 0 <= k < from.len() ==> (#[trigger] from[k]).wf(),
        0 <= j <= m,
    ensures
        same_shape(hist[j], from),
    decreases j,
{
    if j > 0 {
        lemma_delivered_shape(hist, from, to, round, m, tick, j - 1);
        let i = j - 1;
        assert(delivery(hist[i], hist[i + 1], round[i], tick));
        let a = hist[i];
        let b = hist[j];
        reveal(delivery);
        let t = round[j - 1].spec_to() as int;
        if t < a.len() {
            reveal(recv_step);
            assert(recv_step(a[t], b[t], round[j - 1], tick));
            assert forall|k: int| 0 <= k < from.len() implies (#[trigger] b[k]).wf() && b[k].spec_id()
                == from[k].spec_id() && b[k].spec_max_peers() == from[k].spec_max_peers() by {
                if k != t {
                    assert(b[k] == a[k]);
                }
            }
        }
    }
}

/// Law: one tick of a network (see [`sim_step`]) keeps every node
/// consistent, in its place, with its table bound.
pub proof fn lemma_sim_step_shape(pre: Seq<Node>, post: Seq<Node>, tick: u64)
    requires
        is_network(pre),
        sim_step(pre, post, tick),
    ensures
        same_shape(post, pre),
        is_network(post),
{
    reveal(sim_step);
    let (mid, q, ends, hist) = choose|mid: Seq<Node>, q: Seq<Message>, ends: Seq<int>, hist: Seq<
        Seq<Node>,
    >|
        #![trigger ticked_in_order(pre, mid, q, ends, pre.len() as int, tick, pre.len() as u32), delivered_prefix(hist, mid, post, q, q.len() as int, tick)]
        mid.len() == pre.len() && ticked_in_order(
            pre,
            mid,
            q,
            ends,
            pre.len() as int,
            tick,
            pre.len() as u32,
        ) && delivered_prefix(hist, mid, post, q, q.len() as int, tick);
    assert forall|k: int| 0 <= k < pre.len() implies (#[trigger] mid[k]).wf() && mid[k].spec_id()
        == pre[k].spec_id() && mid[k].spec_max_peers() == pre[k].spec_max_peers() by {
        assert(tick_outcome(
            pre[k],
            mid[k],
            tick,
            pre.len() as u32,
            q.take(ends[k]),
            q.take(ends[k + 1]),
        ));
        reveal(tick_outcome);
    }
    lemma_delivered_shape(hist, mid, post, q, q.len() as int, tick, q.len() as int);
    assert(same_shape(post, pre)) by {
        assert forall|k: int| 0 <= k < pre.len() implies (#[trigger] post[k]).wf() && post[k].spec_id()
            == pre[k].spec_id() && post[k].spec_max_peers() == pre[k].spec_max_peers() by {
            assert(hist[q.len() as int][k] == post[k]);
            assert(mid[k].wf());
        }
    }
    assert forall|j: int| 0 <= j < post.len() implies (#[trigger] post[j]).wf() && post[j].spec_id()
        == j by {
        assert(pre[j].wf() && pre[j].spec_id() == j);
    }
}

/// Law: throughout a trial (see [`run_ticks`]) every node stays
/// consistent, in its place, with its table bound; in particular a node
/// with a bounded table never holds more than `max_peers` peers.
pub proof fn lemma_trial_shape(start: Seq<Node>, trace: Seq<TrialState>, min_peers: usize, needed: u32)
    requires
        is_network(start),
        trial_trace(start, trace, min_peers, needed),
    ensures
        forall|t: int| 0 <= t < trace.len() ==> is_network(#[trigger] trace[t].0) && same_shape(
            trace[t].0,
            start,
        ),
        forall|t: int, k: int|
            0 <= t < trace.len() && 0 <= k < start.len() && start[k].spec_max_peers() > 0 ==> (
            #[trigger] trace[t].0[k]).spec_order().len() <= start[k].spec_max_peers(),
{
    assert forall|t: int| 0 <= t < trace.len() implies is_network(#[trigger] trace[t].0) && same_shape(
        trace[t].0,
        start,
    ) by {
        lemma_trace_shape(start, trace, min_peers, needed, t);
    }
    assert forall|t: int, k: int|
        0 <= t < trace.len() && 0 <= k < start.len() && start[k].spec_max_peers() > 0 implies (
        #[trigger] trace[t].0[k]).spec_order().len() <= start[k].spec_max_peers() by {
        lemma_trace_shape(start, trace, min_peers, needed, t);
        assert(trace[t].0[k].wf());
    }
}

/// The shape holds at every tick of the trace, by induction on the tick.
proof fn lemma_trace_shape(
    start: Seq<Node>,
    trace: Seq<TrialState>,
    min_peers: usize,
    needed: u32,
    t: int,
)
    requires
        is_network(start),
        trial_trace(start, trace, min_peers, needed),
        0 <= t < trace.len(),
    ensures
        is_network(trace[t].0),
        same_shape(trace[t].0, start),
    decreases t,
{
    if t == 0 {
        assert(trace[0].0 == start);
    } else {
        lemma_trace_shape(start, trace, min_peers, needed, t - 1);
        let s0 = trace[t - 1];
        let s1 = trace[t];
        assert(ran_tick(trace, t - 1, min_peers, needed));
        assert(trial_step(s0, s1, t - 1, min_peers, needed));
        reveal(trial_step);
        let mid = choose|mid: Seq<Node>|
            #[trigger] sim_step(s0.0, mid, (t - 1) as u64) && if s0.1 is None && (t - 1) % (
            CHECK_INTERVAL as int) == 0 {
                &&& checked(mid, s1.0, min_peers)
                &&& s1.2 == converged_count(s1.0)
                &&& s1.1 == if s1.2 >= needed {
                    Some((t - 1) as u64)
                } else {
                    None::<u64>
                }
            } else {
                s1 == (mid, s0.1, s0.2)
            };
        lemma_sim_step_shape(s0.0, mid, (t - 1) as u64);
        assert forall|k: int| 0 <= k < start.len() implies (#[trigger] s1.0[k]).wf()
            && s1.0[k].spec_id() == start[k].spec_id() && s1.0[k].spec_max_peers()
            == start[k].spec_max_peers() by {
            assert(mid[k].wf() && s0.0[k].wf());
        }
        assert forall|j: int| 0 <= j < s1.0.len() implies (#[trigger] s1.0[j]).wf()
            && s1.0[j].spec_id() == j by {
            assert(start[j].wf() && start[j].spec_id() == j);
        }
    }
}

/// How a trial ended: the tick of convergence, if any, and the number of
/// nodes flagged converged at the last check.
#[derive(Debug, Clone, Copy)]
pub struct TrialEnd {
    /// The check at which `needed` nodes were first flagged converged.
    pub converged_at: Option<u64>,
    /// Nodes flagged converged at the last check.
    pub conv_count: u32,
}

/// Run a trial on a fresh network: ticks 0, 1, ... up to [`MAX_TICKS`]
/// (see [`simulate_tick`]); every [`CHECK_INTERVAL`] ticks until the
/// network has converged, flag the nodes with at least `min_peers` peers
/// and count the flagged nodes (see [`check_convergence`]); the network
/// has converged once `needed` nodes are flagged, and the trial stops
/// [`SETTLE_TICKS`] ticks after that. The run is recorded tick by tick in
/// a [`trial_trace`] that ends at the final network and the result.
pub fn run_ticks(nodes: &mut Vec<Node>, min_peers: usize, needed: u32) -> (r: TrialEnd)
    requires
        is_network(old(nodes)@),
        old(nodes)@.len() <= u32::MAX,
        forall|k: int|
            0 <= k < old(nodes)@.len() ==> (#[trigger] old(nodes)@[k]).spec_counters() == (
            0u64,
            0u64,
            0u64,
            0u64,
        ) && !old(nodes)@[k].spec_converged(),
    ensures
        is_network(final(nodes)@),
        final(nodes)@.len() == old(nodes)@.len(),
        forall|k: int|
            0 <= k < old(nodes)@.len() ==> (#[trigger] final(nodes)@[k]).spec_max_peers() == old(
                nodes,
            )@[k].spec_max_peers(),
        r.conv_count == converged_count(final(nodes)@),
        match r.converged_at {
            Some(t) => t < MAX_TICKS && t % CHECK_INTERVAL == 0 && r.conv_count >= needed,
            None => r.conv_count < needed,
        },
        exists|trace: Seq<TrialState>|
            #[trigger] trial_trace(old(nodes)@, trace, min_peers, needed) && trace.last() == (
                final(nodes)@,
                r.converged_at,
                r.conv_count,
            ),
{
    let ghost start = nodes@;
    let n: usize = nodes.len();
    let mut msgq: Vec<Message> = Vec::new();
    let mut converged_at: Option<u64> = None;
    let mut conv_count: u32 = 0;
    let mut done: bool = false;
    let mut tick: u64 = 0;
    let ghost mut trace: Seq<TrialState> = seq![(nodes@, None::<u64>, 0u32)];
    proof {
        lemma_none_converged(nodes@);
        assert forall|k: int| 0 <= k < n implies #[trigger] aged(start, nodes@, k, 0) by {}
    }
    while tick < MAX_TICKS && !done
        invariant
            n == start.len(),
            n <= u32::MAX,
            tick <= MAX_TICKS,
            nodes@.len() == n,
            is_network(nodes@),
            forall|k: int| 0 <= k < n ==> #[trigger] aged(start, nodes@, k, tick as int),
            conv_count == converged_count(nodes@),
            match converged_at {
                Some(t) => t < tick && t < MAX_TICKS && t % CHECK_INTERVAL == 0 && conv_count
                    >= needed,
                None => (conv_count < needed || tick == 0) && !done,
            },
            trace.len() == tick + 1,
            trace[0] == (start, None::<u64>, 0u32),
            trace.last() == (nodes@, converged_at, conv_count),
            forall|t: int| 0 <= t < trace.len() - 1 ==> #[trigger] ran_tick(trace, t, min_peers, needed),
            done ==> trial_stops(trace.last(), tick as int),
        decreases MAX_TICKS - tick, if done { 0int } else { 1int },
    {
        let settled: bool = match converged_at {
            Some(c) => tick - c > SETTLE_TICKS,
            None => false,
        };
        if settled {
            done = true;
        } else {
            let ghost pre = nodes@;
            let ghost s0: TrialState = (nodes@, converged_at, conv_count);
            proof {
                assert forall|j: int| 0 <= j < n implies tick_room(
                    #[trigger] pre[j].spec_counters(),
                    n as nat,
                ) by {
                    assert(aged(start, pre, j, tick as int));
                    lemma_trial_room(tick as int, n as int, pre[j].spec_counters());
                }
            }
            simulate_tick(nodes, tick, &mut msgq);
            let ghost mid = nodes@;
            proof {
                let d = tick_bound(n as int);
                assert forall|k: int| 0 <= k < n implies #[trigger] aged(
                    start,
                    nodes@,
                    k,
                    tick + 1,
                ) by {
                    assert(stepped(pre, nodes@, k, d));
                    assert(aged(start, pre, k, tick as int));
                    assert((tick + 1) * d.0 == tick * d.0 + d.0 && (tick + 1) * d.1 == tick * d.1
                        + d.1 && (tick + 1) * d.2 == tick * d.2 + d.2 && (tick + 1) * d.3 == tick
                        * d.3 + d.3) by (nonlinear_arith);
                }
                assert forall|k: int| 0 <= k < n implies (#[trigger] pre[k]).spec_converged()
                    == nodes@[k].spec_converged() by {
                    assert(stepped(pre, nodes@, k, d));
                }
                lemma_converged_count(pre, nodes@);
            }
            if converged_at.is_none() && tick % CHECK_INTERVAL == 0 {
                let ghost mid = nodes@;
                conv_count = check_convergence(nodes, min_peers);
                proof {
                    assert forall|k: int| 0 <= k < n implies #[trigger] aged(
                        start,
                        nodes@,
                        k,
                        tick + 1,
                    ) by {
                        assert(aged(start, mid, k, tick + 1));
                    }
                    assert forall|k: int| 0 <= k < n implies (#[trigger] nodes@[k]).wf()
                        && nodes@[k].spec_id() == k by {
                        assert(aged(start, mid, k, tick + 1));
                    }
                }
                if conv_count >= needed {
                    converged_at = Some(tick);
                }
                proof {
                    assert(checked(mid, nodes@, min_peers));
                }
            }
            proof {
                let s1: TrialState = (nodes@, converged_at, conv_count);
                assert(!trial_stops(s0, tick as int));
                assert(trial_step(s0, s1, tick as int, min_peers, needed)) by {
                    reveal(trial_step);
                    assert(sim_step(s0.0, mid, tick as u64));
                }
                let old_trace = trace;
                trace = trace.push(s1);
                assert forall|t: int| 0 <= t < trace.len() - 1 implies #[trigger] ran_tick(
                    trace,
                    t,
                    min_peers,
                    needed,
                ) by {
                    if t < old_trace.len() - 1 {
                        assert(ran_tick(old_trace, t, min_peers, needed));
                        assert(trace[t] == old_trace[t] && trace[t + 1] == old_trace[t + 1]);
                    } else {
                        assert(trace[t] == s0 && trace[t + 1] == s1);
                    }
                }
            }
            tick = tick + 1;
        }
    }
    proof {
        assert forall|k: int| 0 <= k < n implies (#[trigger] nodes@[k]).spec_max_peers()
            == start[k].spec_max_peers() by {
            assert(aged(start, nodes@, k, tick as int));
        }
        assert(trial_stops(trace.last(), trace.len() - 1));
        assert(trial_trace(start, trace, min_peers, needed));
    }
    TrialEnd { converged_at, conv_count }
}

} // verus!
