//! Field offsets inside DHT message frames (header included).

use vstd::prelude::*;

use crate::HEADER_SIZE;

verus! {

/// Start of the sender's identifier.
pub const SENDER_ID: usize = HEADER_SIZE;

/// End of the sender's identifier.
pub const SENDER_ID_END: usize = HEADER_SIZE + 32;

/// Offset of the sender's node type.
pub const NODE_TYPE: usize = HEADER_SIZE + 42;

/// Offset of the latency field.
pub const LATENCY_MS: usize = HEADER_SIZE + 44;

/// Offset of the ping sequence number.
pub const PING_SEQ: usize = HEADER_SIZE + 48;

/// Shortest ping message that is looked at.
pub const PING_BODY_SIZE: usize = 52;

/// Shortest pong message that is looked at.
pub const PONG_BODY_SIZE: usize = 52;

/// Start of the target identifier of a find-node request.
pub const TARGET_ID: usize = HEADER_SIZE;

/// Shortest find-node message that is looked at.
pub const FIND_BODY_SIZE: usize = 32;

} // verus!
