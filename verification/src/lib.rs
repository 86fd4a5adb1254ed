//! Multiplexes and coalesces messages over an unreliable stream of datagrams.

pub mod acking;
pub mod address;
pub mod buffer_pool;
pub mod channel;
pub mod client;
pub mod config;
pub mod cursor;
pub mod delivery;
pub mod dispatcher;
pub mod endpoint;
pub mod entropy;
pub mod error;
pub mod format;
pub mod handshake;
pub mod jitter_pipe;
pub mod message_reassembler;
pub mod packet;
pub mod pickleback;
pub mod prelude;
pub mod protocol;
pub mod queueing;
pub mod received_message;
pub mod receiving;
pub mod reliable;
pub mod sequence_buffer;
pub mod server;
pub mod sessions;
pub mod small_map;
pub mod test_utils;
pub mod testing;
pub mod time;
pub mod tracking;
pub mod upkeep;
pub mod wire;

use crate::time::Time;
use vstd::prelude::*;

verus! {

/// A message prefix byte has five bits for the channel id.
pub const MAX_CHANNELS: usize = 32;

/// With a fragment size of 1kB, this gives 1MB. Arbitrary, but anything more than this should
/// probably be transferred by other means.
pub const MAX_FRAGMENTS: usize = 1024;

/// The packet loss is worked out anew each time this many packets have been sent.
pub const PACKET_LOSS_RECALCULATE_INTERVAL: u16 = 100;

/// Identifies a packet: holds its sequence number.
#[derive(Debug, Clone, Copy, PartialEq, Eq, PartialOrd, Ord, Hash, Default, Structural)]
pub struct PacketId(pub u16);

/// A message, once sent, is identified by a `MessageId`. Use it to check for acks later.
#[derive(Debug, Clone, Copy, PartialEq, Eq, Hash, Default, Structural)]
pub struct MessageId(pub u16);

/// Counters kept by an endpoint. They wrap around at the end of their range.
#[derive(Debug, Clone, Copy, PartialEq, Eq, Structural)]
pub struct PicklebackStats {
    /// Number of packets sent.
    pub packets_sent: u64,
    /// Number of packets received.
    pub packets_received: u64,
    /// Number of packets acked.
    pub packets_acked: u64,
    /// Number of stale packets received (and discarded).
    pub packets_stale: u64,
    /// Number of duplicate packets received (and discarded).
    pub packets_duplicate: u64,
    /// Number of calls to `send_message`. Some of which result in several fragments being sent.
    pub message_sends: u64,
    /// Number of messages sent in packets. Some of which are fragments of larger messages.
    pub messages_sent: u64,
    /// Number of messages received.
    pub messages_received: u64,
}

impl PicklebackStats {
    /// All counters at zero.
    pub open spec fn zero() -> Self {
        PicklebackStats {
            packets_sent: 0,
            packets_received: 0,
            packets_acked: 0,
            packets_stale: 0,
            packets_duplicate: 0,
            message_sends: 0,
            messages_sent: 0,
            messages_received: 0,
        }
    }
}

impl Default for PicklebackStats {
    fn default() -> (r: Self)
        ensures
            r == PicklebackStats::zero(),
    {
        PicklebackStats {
            packets_sent: 0,
            packets_received: 0,
            packets_acked: 0,
            packets_stale: 0,
            packets_duplicate: 0,
            message_sends: 0,
            messages_sent: 0,
            messages_received: 0,
        }
    }
}

/// What is kept of a packet that was sent.
#[derive(Debug, Clone, Copy, PartialEq, Eq, Structural)]
pub struct SentMeta {
    /// When it was sent.
    pub time: Time,
    /// Whether the other side has acked it.
    pub acked: bool,
    /// How many bytes it had.
    pub size: usize,
    /// The most recent packet that it acked itself.
    pub acked_up_to: PacketId,
}

impl SentMeta {
    /// A packet sent just now.
    pub fn new(time: Time, size: usize, acked_up_to: PacketId) -> (r: Self)
        ensures
            r == (SentMeta { time, acked: false, size, acked_up_to }),
    {
        SentMeta { time, acked: false, size, acked_up_to }
    }

    /// Whether the other side has acked the packet.
    pub fn acked(&self) -> (r: bool)
        ensures
            r == self.acked,
    {
        self.acked
    }

    /// How many bytes the packet had.
    pub fn size(&self) -> (r: usize)
        ensures
            r == self.size,
    {
        self.size
    }
}

impl Default for SentMeta {
    fn default() -> (r: Self)
        ensures
            r == (SentMeta { time: 0, acked: false, size: 0, acked_up_to: PacketId(0) }),
    {
        SentMeta { time: 0, acked: false, size: 0, acked_up_to: PacketId(0) }
    }
}

/// What is kept of a packet that was received.
#[derive(Debug, Clone, Copy, PartialEq, Eq, Structural)]
pub struct ReceivedMeta {
    /// When it was received.
    pub time: Time,
    /// How many bytes it had.
    pub size: usize,
    /// Whether it was a keep alive, or a packet of no messages.
    pub empty: bool,
}

impl ReceivedMeta {
    /// A packet received just now, that is not empty.
    pub fn new(time: Time, size: usize) -> (r: Self)
        ensures
            r == (ReceivedMeta { time, size, empty: false }),
    {
        ReceivedMeta { time, size, empty: false }
    }
}

impl Default for ReceivedMeta {
    fn default() -> (r: Self)
        ensures
            r == (ReceivedMeta { time: 0, size: 0, empty: false }),
    {
        ReceivedMeta { time: 0, size: 0, empty: false }
    }
}

} // verus!
