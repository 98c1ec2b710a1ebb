//! Region mask constants: which brain region(s) a command targets.

use vstd::prelude::*;

verus! {

/// Sensory region bit.
pub const SENSORY: u32 = 1u32 << 0u32;

/// Language region bit.
pub const LANGUAGE: u32 = 1u32 << 1u32;

/// Reasoning region bit.
pub const REASONING: u32 = 1u32 << 2u32;

/// Memory region bit.
pub const MEMORY: u32 = 1u32 << 3u32;

/// Motor region bit.
pub const MOTOR: u32 = 1u32 << 4u32;

/// Visual region bit.
pub const VISUAL: u32 = 1u32 << 5u32;

/// Audio region bit.
pub const AUDIO: u32 = 1u32 << 6u32;

/// Executive region bit.
pub const EXECUTIVE: u32 = 1u32 << 7u32;

/// Emotion region bit.
pub const EMOTION: u32 = 1u32 << 8u32;

/// All regions.
pub const ALL: u32 = 0xFFFFFFFFu32;

} // verus!
