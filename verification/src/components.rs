//! Neuron identity component: the 256-bit entity identifier.

use vstd::prelude::*;

use crate::text::{short_hex, spec_short_hex};

verus! {

/// A globally unique neuron identifier (256 bits).
#[derive(Debug, Clone, Copy, PartialEq, Eq, Hash)]
pub struct EntityId(pub [u8; 32]);

impl EntityId {
    /// Wrap 32 bytes as an identifier.
    pub fn new(bytes: [u8; 32]) -> (id: Self)
        ensures
            id.0 == bytes,
    {
        EntityId(bytes)
    }

    /// Abbreviated hex: first four bytes, an ellipsis, last four bytes.
    pub fn hex(&self) -> (s: String)
        ensures
            s@ == spec_short_hex(self.0@),
    {
        short_hex(&self.0)
    }
}

} // verus!
