//! Errors reported by the packet layer.

use vstd::prelude::*;

verus! {

/// Why a packet could not be sent or was not accepted.
#[derive(Debug, Clone, Copy, PartialEq, Eq, Structural)]
pub enum ReliableError {
    /// There are fewer bytes than any packet has.
    PacketTooSmall,
    /// The header cannot be read.
    InvalidPacket,
    /// The packet is too old to tell whether it was received already.
    StalePacket,
    /// The packet was received already.
    DuplicatePacket,
    /// The sequence number is too old for the buffer.
    SequenceBufferFull,
    /// The payload is larger than a packet may be.
    ExceededMaxPacketSize,
}

} // verus!
