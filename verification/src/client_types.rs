use vstd::prelude::*;

verus! {

/// Packet delivery quality-of-service level.
#[derive(Clone, Copy, Debug, PartialEq, Eq, Structural)]
pub enum QoS {
    /// At most once; no acknowledgement needed.
    Level0,
    /// At least once; one acknowledgement needed.
    Level1,
    /// Exactly once; two acknowledgements needed.
    Level2,
}

/// Internal identifier the server assigns to a client.
/// A `u64` never runs out in practice, so identifiers are assumed unique.
pub type ClientId = u64;

} // verus!
