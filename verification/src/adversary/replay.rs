//! The replay attack's bookkeeping: which outbound packets the adversary
//! captures, and which captured packets it sends again on a tick.
//! Clocks are read by the simulator and handed in as milliseconds.

use vstd::prelude::*;

use crate::dht::NodeAddr;

verus! {

/// A packet captured for replay: its bytes, its destination, when it was
/// captured (ms), how often it was replayed, how often it may be, and the
/// delay between replays (ms).
#[derive(Debug)]
pub struct CapturedPacket {
    /// The datagram bytes.
    pub data: Vec<u8>,
    /// The original recipient.
    pub dst: NodeAddr,
    /// Capture time (ms).
    pub captured_at_ms: u64,
    /// Replays so far.
    pub replay_count: u32,
    /// Replays allowed.
    pub max_replays: u32,
    /// Delay before each further replay (ms).
    pub delay_ms: u64,
}

/// A captured packet as plain values.
pub type CapturedView = (Seq<u8>, NodeAddr, u64, u32, u32, u64);

impl View for CapturedPacket {
    type V = CapturedView;

    open spec fn view(&self) -> CapturedView {
        (self.data@, self.dst, self.captured_at_ms, self.replay_count, self.max_replays, self.delay_ms)
    }
}

/// Time elapsed from `then` to `now`, zero if the clock went back.
pub open spec fn elapsed(now: u64, then: u64) -> int {
    if now >= then {
        now - then
    } else {
        0
    }
}

/// Whether a packet has been replayed as often as allowed.
pub open spec fn exhausted(p: CapturedView) -> bool {
    p.3 >= p.4
}

/// Whether a packet is due for its next replay at `now_ms`: not exhausted,
/// and one delay per replay so far, plus one, has passed since capture.
pub open spec fn replay_due(p: CapturedView, now_ms: u64) -> bool {
    !exhausted(p) && elapsed(now_ms, p.2) >= p.5 * (p.3 + 1)
}

/// A packet after a tick: one more replay when it was due.
pub open spec fn stepped(p: CapturedView, now_ms: u64) -> CapturedView {
    if replay_due(p, now_ms) {
        (p.0, p.1, p.2, (p.3 + 1) as u32, p.4, p.5)
    } else {
        p
    }
}

/// Whether the delays of every allowed replay of a packet fit in a `u64`.
pub open spec fn delays_fit(p: CapturedView) -> bool {
    p.5 * p.4 <= u64::MAX
}

/// The positions of the exhausted packets, in increasing order.
pub open spec fn exhausted_positions(s: Seq<CapturedView>) -> Seq<int>
    decreases s.len(),
{
    if s.len() == 0 {
        Seq::empty()
    } else {
        exhausted_positions(s.drop_last()) + if exhausted(s.last()) {
            seq![s.len() - 1]
        } else {
            Seq::empty()
        }
    }
}

/// Remove position `i` by moving the last element into it.
pub open spec fn swap_removed<A>(s: Seq<A>, i: int) -> Seq<A> {
    s.update(i, s.last()).drop_last()
}

/// Remove the positions `idxs` (increasing) one at a time, the last
/// first, each by moving the last element into it.
pub open spec fn swap_removed_all<A>(s: Seq<A>, idxs: Seq<int>) -> Seq<A>
    decreases idxs.len(),
{
    if idxs.len() == 0 {
        s
    } else {
        swap_removed_all(swap_removed(s, idxs.last()), idxs.drop_last())
    }
}

/// What a replay tick at `now_ms` makes of the captured packets: due
/// packets count one more replay, then the packets that were already
/// exhausted before the tick are removed.
pub open spec fn after_replay_tick(s: Seq<CapturedView>, now_ms: u64) -> Seq<CapturedView> {
    swap_removed_all(s.map_values(|p: CapturedView| stepped(p, now_ms)), exhausted_positions(s))
}

/// What a replay tick at `now_ms` sends: the bytes and destination of each
/// due packet, in capture order.
pub open spec fn replays_sent(s: Seq<CapturedView>, now_ms: u64) -> Seq<(Seq<u8>, NodeAddr)> {
    s.filter(|p: CapturedView| replay_due(p, now_ms)).map_values(
        |p: CapturedView| (p.0, p.1),
    )
}

/// What to do with an outbound packet the adversary sees.
#[derive(Debug, Clone, Copy, PartialEq, Eq, Structural)]
pub enum CaptureDecision {
    /// Leave it.
    Skip,
    /// The capture window has passed: stop capturing.
    CloseWindow,
    /// Keep a copy for replay.
    Capture,
}

/// The port of an address.
pub open spec fn port_of(a: NodeAddr) -> u16 {
    match a {
        NodeAddr::V4(_, p) => p,
        NodeAddr::V6(_, p) => p,
    }
}

/// The capture rule (see [`capture_decision`]).
pub open spec fn capture_rule(
    active: bool,
    replay_mode: bool,
    capture_done: bool,
    past_window: bool,
    dst_port: u16,
    sample_percent: u64,
) -> CaptureDecision {
    if !active || !replay_mode || capture_done {
        CaptureDecision::Skip
    } else if past_window {
        CaptureDecision::CloseWindow
    } else if (dst_port as int) % 100 < sample_percent {
        CaptureDecision::Capture
    } else {
        CaptureDecision::Skip
    }
}

/// Decide about an outbound packet: nothing unless a replay attack is
/// active and still capturing; past the capture window, capturing stops;
/// otherwise a packet is kept when its destination port, modulo 100, is
/// below `sample_percent`.
pub fn capture_decision(
    active: bool,
    replay_mode: bool,
    capture_done: bool,
    past_window: bool,
    dst_port: u16,
    sample_percent: u64,
) -> (d: CaptureDecision)
    ensures
        d == capture_rule(active, replay_mode, capture_done, past_window, dst_port, sample_percent),
{
    if !active || !replay_mode {
        return CaptureDecision::Skip;
    }
    if capture_done {
        return CaptureDecision::Skip;
    }
    if past_window {
        return CaptureDecision::CloseWindow;
    }
    let hash: u64 = dst_port as u64;
    if hash % 100 < sample_percent {
        CaptureDecision::Capture
    } else {
        CaptureDecision::Skip
    }
}

/// The packets captured for replay, and whether capturing is over.
pub struct ReplayQueue {
    packets: Vec<CapturedPacket>,
    capture_done: bool,
}

impl ReplayQueue {
    /// The captured packets, in capture order (as moved by removals).
    pub closed spec fn spec_packets(&self) -> Seq<CapturedView> {
        self.packets@.map_values(|p: CapturedPacket| p@)
    }

    /// Whether capturing is over.
    pub closed spec fn spec_capture_done(&self) -> bool {
        self.capture_done
    }

    /// Every packet's replay delays fit in a `u64`.
    pub open spec fn wf(&self) -> bool {
        forall|i: int| 0 <= i < self.spec_packets().len() ==> delays_fit(#[trigger] self.spec_packets()[i])
    }

    /// Nothing captured yet; capturing open.
    pub fn new() -> (q: Self)
        ensures
            q.wf(),
            q.spec_packets() == Seq::<CapturedView>::empty(),
            !q.spec_capture_done(),
    {
        let q = ReplayQueue { packets: Vec::new(), capture_done: false };
        assert(q.spec_packets() =~= Seq::<CapturedView>::empty());
        q
    }

    /// Whether capturing is over.
    pub fn capture_done(&self) -> (b: bool)
        ensures
            b == self.spec_capture_done(),
    {
        self.capture_done
    }

    /// Number of packets held.
    pub fn len(&self) -> (n: usize)
        ensures
            n == self.spec_packets().len(),
    {
        self.packets.len()
    }

    /// Act on an outbound packet seen at `now_ms` (see [`capture_decision`]):
    /// keep a copy allowed `max_replays` replays `delay_ms` apart, or close
    /// the capture window, or do nothing.
    pub fn observe(
        &mut self,
        data: &[u8],
        dst: NodeAddr,
        now_ms: u64,
        active: bool,
        replay_mode: bool,
        past_window: bool,
        sample_percent: u64,
        max_replays: u32,
        delay_ms: u64,
    ) -> (d: CaptureDecision)
        requires
            old(self).wf(),
            delay_ms * max_replays <= u64::MAX,
        ensures
            final(self).wf(),
            d == capture_rule(
                active,
                replay_mode,
                old(self).spec_capture_done(),
                past_window,
                port_of(dst),
                sample_percent,
            ),
            final(self).spec_packets() == if d == CaptureDecision::Capture {
                old(self).spec_packets().push((data@, dst, now_ms, 0u32, max_replays, delay_ms))
            } else {
                old(self).spec_packets()
            },
            final(self).spec_capture_done() == (old(self).spec_capture_done() || d
                == CaptureDecision::CloseWindow),
    {
        let port: u16 = match dst {
            NodeAddr::V4(_, p) => p,
            NodeAddr::V6(_, p) => p,
        };
        let d = capture_decision(active, replay_mode, self.capture_done, past_window, port, sample_percent);
        match d {
            CaptureDecision::CloseWindow => {
                self.capture_done = true;
                assert(self.spec_packets() == old(self).spec_packets());
            },
            CaptureDecision::Capture => {
                let mut copy: Vec<u8> = Vec::new();
                crate::wire::push_bytes(&mut copy, data);
                assert(copy@ == data@);
                let p = CapturedPacket {
                    data: copy,
                    dst,
                    captured_at_ms: now_ms,
                    replay_count: 0,
                    max_replays,
                    delay_ms,
                };
                let ghost before = self.packets@;
                self.packets.push(p);
                proof {
                    assert(self.packets@ == before.push(p));
                    assert(self.packets@.map_values(|p: CapturedPacket| p@) =~= before.map_values(
                        |p: CapturedPacket| p@,
                    ).push(p@));
                    let old_s = before.map_values(|p: CapturedPacket| p@);
                    assert(old_s == old(self).spec_packets());
                    assert(p@ == (data@, dst, now_ms, 0u32, max_replays, delay_ms));
                    assert(delays_fit(p@));
                    assert forall|i: int| 0 <= i < self.spec_packets().len() implies delays_fit(
                        #[trigger] self.spec_packets()[i],
                    ) by {
                        if i < old_s.len() {
                            assert(self.spec_packets()[i] == old_s[i]);
                        } else {
                            assert(self.spec_packets()[i] == p@);
                        }
                    }
                }
            },
            CaptureDecision::Skip => {
                assert(self.spec_packets() == old(self).spec_packets());
            },
        }
        d
    }

    /// One replay tick at `now_ms`: returns the bytes and destination of
    /// every due packet (see [`replays_sent`]) and leaves the packets as
    /// [`after_replay_tick`] says.
    pub fn due_replays(&mut self, now_ms: u64) -> (sent: Vec<(Vec<u8>, NodeAddr)>)
        requires
            old(self).wf(),
        ensures
            final(self).wf(),
            final(self).spec_capture_done() == old(self).spec_capture_done(),
            sent@.map_values(|x: (Vec<u8>, NodeAddr)| (x.0@, x.1)) == replays_sent(
                old(self).spec_packets(),
                now_ms,
            ),
            final(self).spec_packets() == after_replay_tick(old(self).spec_packets(), now_ms),
    {
        let ghost pre = self.spec_packets();
        let ghost done = self.capture_done;
        let ghost pred = |p: CapturedView| replay_due(p, now_ms);
        let ghost fst = |x: (Vec<u8>, NodeAddr)| (x.0@, x.1);
        let ghost pick = |p: CapturedView| (p.0, p.1);
        let ghost stp = |p: CapturedView| stepped(p, now_ms);
        let mut to_remove: Vec<usize> = Vec::new();
        let mut sent: Vec<(Vec<u8>, NodeAddr)> = Vec::new();
        let n: usize = self.packets.len();
        let mut i: usize = 0;
        while i < n
            invariant
                n == pre.len(),
                i <= n,
                self.packets@.len() == n,
                pred == (|p: CapturedView| replay_due(p, now_ms)),
                fst == (|x: (Vec<u8>, NodeAddr)| (x.0@, x.1)),
                pick == (|p: CapturedView| (p.0, p.1)),
                stp == (|p: CapturedView| stepped(p, now_ms)),
                forall|j: int| 0 <= j < n ==> delays_fit(#[trigger] pre[j]),
                forall|j: int| 0 <= j < i ==> self.packets@[j]@ == stepped(#[trigger] pre[j], now_ms),
                forall|j: int| i <= j < n ==> self.packets@[j]@ == #[trigger] pre[j],
                sent@.map_values(fst) == pre.take(i as int).filter(pred).map_values(pick),
                to_remove@.map_values(|x: usize| x as int) == exhausted_positions(
                    pre.take(i as int),
                ),
                self.capture_done == done,
            decreases n - i,
        {
            let ghost p = pre[i as int];
            proof {
                assert(pre.take(i + 1) =~= pre.take(i as int).push(p));
                pre.take(i as int).lemma_filter_push(p, pred);
                assert(pre.take(i + 1).drop_last() =~= pre.take(i as int));
                assert(self.packets@[i as int]@ == p);
            }
            let count: u32 = self.packets[i].replay_count;
            let max: u32 = self.packets[i].max_replays;
            if count >= max {
                to_remove.push(i);
                proof {
                    assert(to_remove@.map_values(|x: usize| x as int) =~= exhausted_positions(
                        pre.take(i as int),
                    ).push(i as int));
                    assert(exhausted_positions(pre.take(i + 1)) =~= exhausted_positions(
                        pre.take(i as int),
                    ) + seq![i as int]);
                    assert(sent@.map_values(fst) =~= pre.take(i + 1).filter(pred).map_values(pick));
                }
            } else {
                let captured: u64 = self.packets[i].captured_at_ms;
                let delay: u64 = self.packets[i].delay_ms;
                proof {
                    assert(delays_fit(p));
                    assert(delay * (count + 1) <= delay * max) by (nonlinear_arith)
                        requires
                            count < max,
                    ;
                }
                let expected: u64 = delay * (count as u64 + 1);
                let age: u64 = now_ms.saturating_sub(captured);
                if age >= expected {
                    let data = self.packets[i].data.clone();
                    let dst = self.packets[i].dst;
                    proof {
                        assert(data@ =~= self.packets@[i as int].data@);
                    }
                    let ghost before_sent = sent@;
                    sent.push((data, dst));
                    proof {
                        assert(sent@.map_values(fst) =~= before_sent.map_values(fst).push(
                            pick(p),
                        ));
                    }
                    let mut pk = self.packets.remove(i);
                    pk.replay_count = pk.replay_count + 1;
                    self.packets.insert(i, pk);
                } else {
                    proof {
                        assert(sent@.map_values(fst) =~= pre.take(i + 1).filter(pred).map_values(
                            pick,
                        ));
                    }
                }
                proof {
                    assert(exhausted_positions(pre.take(i + 1)) =~= exhausted_positions(
                        pre.take(i as int),
                    ));
                }
            }
            i = i + 1;
        }
        proof {
            assert(pre.take(n as int) =~= pre);
            assert(self.spec_packets() =~= pre.map_values(stp));
        }
        let ghost idxs = exhausted_positions(pre);
        let ghost stepped_all = pre.map_values(stp);
        proof {
            lemma_exhausted_positions_increasing(pre);
            assert(to_remove@.map_values(|x: usize| x as int).len() == to_remove@.len());
            assert(idxs.take(to_remove@.len() as int) =~= idxs);
        }
        let mut j: usize = to_remove.len();
        while j > 0
            invariant
                j <= to_remove@.len(),
                to_remove@.map_values(|x: usize| x as int) == idxs,
                forall|a: int, b: int| 0 <= a < b < idxs.len() ==> idxs[a] < idxs[b],
                forall|a: int| 0 <= a < idxs.len() ==> 0 <= #[trigger] idxs[a] < stepped_all.len(),
                self.spec_packets().len() == stepped_all.len() - (idxs.len() - j),
                swap_removed_all(self.spec_packets(), idxs.take(j as int)) == swap_removed_all(
                    stepped_all,
                    idxs,
                ),
                forall|k: int|
                    0 <= k < self.spec_packets().len() ==> delays_fit(
                        #[trigger] self.spec_packets()[k],
                    ),
                self.capture_done == done,
            decreases j,
        {
            let idx: usize = to_remove[j - 1];
            proof {
                assert(idxs[j - 1] == idx as int);
                lemma_increasing_room(idxs, stepped_all.len() as int, j - 1);
            }
            let ghost cur = self.spec_packets();
            let ghost before = self.packets@;
            self.packets.swap_remove(idx);
            proof {
                assert(self.spec_packets() =~= swap_removed(cur, idx as int));
                assert(idxs.take(j as int).drop_last() =~= idxs.take(j - 1));
                assert(idxs.take(j as int).last() == idx as int);
                assert forall|k: int| 0 <= k < self.spec_packets().len() implies delays_fit(
                    #[trigger] self.spec_packets()[k],
                ) by {
                    if k == idx as int {
                        assert(self.spec_packets()[k] == cur[cur.len() - 1]);
                    } else {
                        assert(self.spec_packets()[k] == cur[k]);
                    }
                }
            }
            j = j - 1;
        }
        proof {
            assert(idxs.take(0) =~= Seq::<int>::empty());
        }
        sent
    }
}

/// The positions of exhausted packets increase and lie inside the queue.
proof fn lemma_exhausted_positions_increasing(s: Seq<CapturedView>)
    ensures
        forall|a: int, b: int|
            0 <= a < b < exhausted_positions(s).len() ==> exhausted_positions(s)[a]
                < exhausted_positions(s)[b],
        forall|a: int|
            0 <= a < exhausted_positions(s).len() ==> 0 <= #[trigger] exhausted_positions(s)[a]
                < s.len(),
        exhausted_positions(s).len() <= s.len(),
    decreases s.len(),
{
    if s.len() > 0 {
        lemma_exhausted_positions_increasing(s.drop_last());
    }
}

/// In an increasing sequence of positions below `n`, the one at `j` leaves
/// room for the ones after it.
proof fn lemma_increasing_room(idxs: Seq<int>, n: int, j: int)
    requires
        0 <= j < idxs.len(),
        forall|a: int, b: int| 0 <= a < b < idxs.len() ==> idxs[a] < idxs[b],
        forall|a: int| 0 <= a < idxs.len() ==> 0 <= #[trigger] idxs[a] < n,
    ensures
        idxs[j] + (idxs.len() - 1 - j) < n,
    decreases idxs.len() - j,
{
    if j < idxs.len() - 1 {
        lemma_increasing_room(idxs, n, j + 1);
    }
}

} // verus!
