//! Consensus message body: a vote between neurons, 24 bytes.
//!
//! Binary layout (little-endian):
//! ```text
//! [0-7]   proposal_id: u64    = unique proposal identifier
//! [8-15]  voter_id: u64       = voting neuron
//! [16-19] confidence_raw: u32 = voter's confidence in their vote
//! [20-23] flags: u32          = vote value (bits 0-1) + metadata
//! ```

use vstd::prelude::*;

use crate::flat::{read_u32, read_u64};
use crate::wire::{get_u32_le, get_u64_le};
use crate::NeuronId;

verus! {

/// Consensus message body.
#[derive(Debug, Clone, Copy)]
pub struct ConsensusBody {
    /// Proposal ID (hash of the proposal content).
    pub proposal_id: u64,
    /// Neuron ID of the voter.
    pub voter_id: NeuronId,
    /// Voter's confidence (0-1000000).
    pub confidence_raw: u32,
    /// Flags (bits 0-1: vote, rest: metadata).
    pub flags: u32,
}

impl ConsensusBody {
    /// Size in bytes.
    pub const SIZE: usize = 24;

    /// Vote value: no.
    pub const VOTE_NO: u32 = 0;

    /// Vote value: yes.
    pub const VOTE_YES: u32 = 1;

    /// Vote value: abstain.
    pub const VOTE_ABSTAIN: u32 = 2;

    /// The vote value: bits 0-1 of the flags.
    pub fn vote(&self) -> (v: u32)
        ensures
            v == self.flags % 4,
            v < 4,
    {
        let f: u32 = self.flags;
        assert(f & 3u32 == f % 4 && f & 3u32 < 4) by (bit_vector);
        f & 3u32
    }

    /// Read a consensus body from the first 24 bytes of `bytes`.
    pub fn from_bytes(bytes: &[u8]) -> (c: ConsensusBody)
        requires
            bytes@.len() >= 24,
        ensures
            c.proposal_id == get_u64_le(bytes@, 0),
            c.voter_id == get_u64_le(bytes@, 8),
            c.confidence_raw == get_u32_le(bytes@, 16),
            c.flags == get_u32_le(bytes@, 20),
    {
        ConsensusBody {
            proposal_id: read_u64(bytes, 0),
            voter_id: read_u64(bytes, 8),
            confidence_raw: read_u32(bytes, 16),
            flags: read_u32(bytes, 20),
        }
    }
}

} // verus!
