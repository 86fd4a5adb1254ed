//! What an endpoint keeps of the packets it exchanged, under the names that a packet layer
//! without messages uses.

use vstd::prelude::*;

verus! {

/// What is kept of a packet that was sent.
pub type SentData = crate::SentMeta;

/// What is kept of a packet that was received.
pub type RecvData = crate::ReceivedMeta;

/// Counters kept by an endpoint.
pub type PacketeerStats = crate::PicklebackStats;

} // verus!
