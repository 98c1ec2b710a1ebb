//! Slot choice of the external memory: a write goes to a new slot while
//! the memory has room, and otherwise replaces the least-used slot. The
//! keys, values and attention (floating point) are the caller's.

use vstd::prelude::*;

verus! {

/// Whether `i` is the first position of a smallest usage count.
pub open spec fn is_lru(usage: Seq<u64>, i: int) -> bool {
    &&& 0 <= i < usage.len()
    &&& forall|j: int| 0 <= j < usage.len() ==> usage[i] <= #[trigger] usage[j]
    &&& forall|j: int| 0 <= j < i ==> usage[i] < #[trigger] usage[j]
}

/// The least-used slot: the first position of the smallest usage count.
pub fn lru_slot(usage: &[u64]) -> (i: usize)
    requires
        usage@.len() > 0,
    ensures
        is_lru(usage@, i as int),
{
    let mut min_idx: usize = 0;
    let mut min_usage: u64 = usage[0];
    let mut i: usize = 1;
    while i < usage.len()
        invariant
            1 <= i <= usage@.len(),
            min_idx < i,
            min_usage == usage@[min_idx as int],
            forall|j: int| 0 <= j < i ==> min_usage <= #[trigger] usage@[j],
            forall|j: int| 0 <= j < min_idx ==> min_usage < #[trigger] usage@[j],
        decreases usage@.len() - i,
    {
        if usage[i] < min_usage {
            min_usage = usage[i];
            min_idx = i;
        }
        i = i + 1;
    }
    min_idx
}

/// Where a write goes in a memory holding `len` entries of `capacity`:
/// `None` for a new slot while there is room, else the least-used slot
/// (see [`lru_slot`]).
pub fn write_slot(len: usize, capacity: usize, usage: &[u64]) -> (slot: Option<usize>)
    requires
        len >= capacity ==> usage@.len() > 0,
    ensures
        slot is None <==> len < capacity,
        slot matches Some(i) ==> is_lru(usage@, i as int),
{
    if len < capacity {
        None
    } else {
        Some(lru_slot(usage))
    }
}

} // verus!
