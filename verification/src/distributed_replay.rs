//! Bookkeeping of the experience replay buffer: where a new observation
//! goes in the fixed-capacity ring, which stored observations a replay
//! batch draws, and when a sharing round is due. The observations
//! themselves (vectors of floats) and the replay probability are held by
//! the caller; the slots and positions are decided here.

use vstd::prelude::*;

use crate::hebbian::select_gossip_targets;

verus! {

/// Store `obs` in the ring `items` of `capacity` slots whose write
/// position is `position`: appended while the ring has room, written over
/// the slot at `position` once it is full. Returns the next write position,
/// one further round the ring.
pub fn ring_push<T>(items: &mut Vec<T>, capacity: usize, position: usize, obs: T) -> (next: usize)
    requires
        position < capacity,
    ensures
        old(items)@.len() < capacity ==> final(items)@ == old(items)@.push(obs),
        old(items)@.len() >= capacity ==> final(items)@ == old(items)@.update(position as int, obs),
        next == (position + 1) % (capacity as int),
{
    if items.len() < capacity {
        items.push(obs);
    } else {
        items.set(position, obs);
    }
    (position + 1) % capacity
}

/// Draw a replay batch from `n` stored observations: `min(n, batch_size)`
/// distinct positions below `n`, chosen at random.
pub fn sample_indices(n: usize, batch_size: usize) -> (r: Vec<usize>)
    ensures
        r@.len() == if n < batch_size {
            n
        } else {
            batch_size
        },
        forall|k: int| 0 <= k < r@.len() ==> #[trigger] r@[k] < n,
        forall|a: int, b: int| 0 <= a < b < r@.len() ==> r@[a] != r@[b],
{
    let mut all: Vec<usize> = Vec::new();
    let mut i: usize = 0;
    while i < n
        invariant
            i <= n,
            all@.len() == i,
            forall|k: int| 0 <= k < i ==> all@[k] == k,
        decreases n - i,
    {
        all.push(i);
        i = i + 1;
    }
    let r = select_gossip_targets(all.as_slice(), batch_size);
    proof {
        let idx = choose|idx: Seq<int>|
            #![trigger idx.len()]
            {
                &&& idx.len() == r@.len()
                &&& forall|k: int| 0 <= k < idx.len() ==> 0 <= #[trigger] idx[k] < all@.len()
                    && r@[k] == all@[idx[k]]
                &&& forall|a: int, b: int| 0 <= a < b < idx.len() ==> idx[a] != idx[b]
            };
        assert forall|k: int| 0 <= k < r@.len() implies #[trigger] r@[k] < n && r@[k] == idx[k] by {
            assert(0 <= idx[k] < all@.len());
        }
        assert forall|a: int, b: int| 0 <= a < b < r@.len() implies r@[a] != r@[b] by {
            assert(r@[a] == idx[a] && r@[b] == idx[b]);
        }
    }
    r
}

/// Whether a sharing round falls on `tick`: every `share_interval` ticks,
/// never when the interval is 0.
pub fn should_share(share_interval: u64, tick: u64) -> (b: bool)
    ensures
        b == (share_interval > 0 && tick % share_interval == 0),
{
    share_interval > 0 && tick % share_interval == 0
}

} // verus!
