//! Neuron Wire Protocol: framing, zero-copy body layout, integrity checks
//! and the bookkeeping that surrounds them, with their behaviour stated
//! as contracts and proved.
//!
//! Wire format of one frame:
//! ```text
//! [4 bytes]  frame_len: u32   (total frame size, little-endian)
//! [16 bytes] MessageHeader    (magic + version + type + flags + body_len + crc)
//! [N bytes]  Body             (flat body: fixed region + data region)
//! ```

use vstd::prelude::*;

pub mod wire;
pub mod clock;
pub mod crc;
pub mod header;
pub mod text;
pub mod flat;
pub mod dict;
pub mod components;
pub mod dht;
pub mod dht_sim;
pub mod dht_sim_compact;
pub mod data;
pub mod command;
pub mod consensus;
pub mod digest;
pub mod audit;
pub mod error;
pub mod forgetting_bench;
pub mod logger;
pub mod node_config;
pub mod io;
pub mod apoptosis;
pub mod adversary;
pub mod engine_loop;
pub mod gradient_compression;
pub mod health;
pub mod hebbian;
pub mod identity;
pub mod distributed_replay;
pub mod memory_module;
pub mod demo;

verus! {

/// Magic: "NWP\0"
pub const MAGIC: [u8; 4] = [0x4Eu8, 0x57u8, 0x50u8, 0x00u8];

/// Protocol version (currently 2).
pub const VERSION: u8 = 2;

/// Maximum allowed message body size in bytes.
pub const MAX_BODY_SIZE: u32 = 1_000_000_000;

/// Size of the message header in bytes.
pub const HEADER_SIZE: usize = 16;

/// 64-bit neuron identifier.
pub type NeuronId = u64;

} // verus!
