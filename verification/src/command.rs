//! Command message body: 32 bytes, from the command brain to regions.
//!
//! Binary layout (little-endian):
//! ```text
//! [0-3]   command_id: u32       = unique command identifier
//! [4-7]   prediction_code: u32  = which prediction (dictionary-encoded)
//! [8-11]  confidence_raw: u32   = 0-1000000 (0.0-1.0)
//! [12-15] context_hash: u32     = CRC32 of context for cache lookup
//! [16-19] deadline_us: u32      = deadline in microseconds from now
//! [20-27] source_id: u64        = command brain's neuron ID
//! [28-31] target_mask: u32      = bitmask of target regions
//! ```

use vstd::prelude::*;

use crate::flat::{read_u32, read_u64};
use crate::wire::{get_u32_le, get_u64_le};
use crate::NeuronId;

verus! {

/// Command message body.
#[derive(Debug, Clone, Copy)]
pub struct CommandBody {
    /// Unique command identifier.
    pub command_id: u32,
    /// Dictionary-encoded prediction type.
    pub prediction_code: u32,
    /// Prediction confidence (0 = 0.0, 1_000_000 = 1.0).
    pub confidence_raw: u32,
    /// CRC32 of context.
    pub context_hash: u32,
    /// Deadline in microseconds from message creation.
    pub deadline_us: u32,
    /// Neuron ID of the issuing command brain.
    pub source_id: NeuronId,
    /// Bitmask of target regions (0 = broadcast to all).
    pub target_mask: u32,
}

impl CommandBody {
    /// Size in bytes.
    pub const SIZE: usize = 32;

    /// Read a command body from the first 32 bytes of `bytes`.
    pub fn from_bytes(bytes: &[u8]) -> (c: CommandBody)
        requires
            bytes@.len() >= 32,
        ensures
            c.command_id == get_u32_le(bytes@, 0),
            c.prediction_code == get_u32_le(bytes@, 4),
            c.confidence_raw == get_u32_le(bytes@, 8),
            c.context_hash == get_u32_le(bytes@, 12),
            c.deadline_us == get_u32_le(bytes@, 16),
            c.source_id == get_u64_le(bytes@, 20),
            c.target_mask == get_u32_le(bytes@, 28),
    {
        CommandBody {
            command_id: read_u32(bytes, 0),
            prediction_code: read_u32(bytes, 4),
            confidence_raw: read_u32(bytes, 8),
            context_hash: read_u32(bytes, 12),
            deadline_us: read_u32(bytes, 16),
            source_id: read_u64(bytes, 20),
            target_mask: read_u32(bytes, 28),
        }
    }
}

} // verus!
