//! Message type codes of the DHT messages.

use vstd::prelude::*;

verus! {

/// Liveness probe carrying the sender's record and a sequence number.
pub const PING: u8 = 7;

/// Answer to a ping, echoing its sequence number.
pub const PONG: u8 = 8;

/// Request for the nodes nearest to a target identifier.
pub const FIND_NODE: u8 = 9;

/// Answer to a find-node request: a run of node records.
pub const NODES: u8 = 10;

} // verus!
