//! Tunables of an endpoint.

use crate::buffer_pool::PoolConfig;
use crate::MAX_FRAGMENTS;
use vstd::prelude::*;

verus! {

/// Various tunables. Mostly buffer sizes.
#[derive(Debug)]
pub struct PicklebackConfig {
    /// Optionally specify buffer pool sizes and capacities.
    /// Default value of `None` will give sane defaults.
    pub buffer_pools_config: Option<Vec<PoolConfig>>,
    /// Maximum size of a message payload.
    /// Messages larger than a fragment are automatically fragmented.
    /// This must not exceed `MAX_FRAGMENTS * 1024`.
    pub max_message_size: usize,
    /// Max size of a packet you can send without fragmenting. ~1200 bytes or so.
    pub max_packet_size: usize,
    /// How many sent packets do we track state for?
    /// Only sent packets still in this buffer can be successfully acked.
    /// So consider how many packets will be in-flight/unacked between two endpoints.
    pub sent_packets_buffer_size: usize,
    /// This buffer prevents receiving duplicate packets, and is used for assembling the
    /// ack field sent to the remote endpoint.
    /// Also the number of previous packets we retain message id mappings for, for acks.
    pub received_packets_buffer_size: usize,
    /// An estimate of the header size used to transmit packets, used to calculate true bandwidth
    /// usage. UDP over IPv4 is ~28, and UDP over IPv6 is ~48.
    pub packet_header_size: usize,
    /// For senders to determine if a sent fragmented message is acked, they need to track the
    /// ack status of each fragment. Once all fragments are acked, so is the parent message id.
    /// This is the size of the sequence buffer that this is tracked in.
    ///
    /// It is sparsely filled, because unfragmented messages often make up the bulk of
    /// transmission and their ids use it up too. At 10,000 message ids per second it takes a size
    /// of 10,000 to support acks of fragmented messages up to a second after transmission.
    /// No more than 32767 of it is used: beyond that, old ids cannot be told from new ones.
    pub sent_frag_map_size: usize,
}

/// The settings of an endpoint.
#[verifier::ext_equal]
pub struct ConfigView {
    pub buffer_pools: Option<Seq<PoolConfig>>,
    pub max_message_size: usize,
    pub max_packet_size: usize,
    pub sent_packets_buffer_size: usize,
    pub received_packets_buffer_size: usize,
    pub packet_header_size: usize,
    pub sent_frag_map_size: usize,
}

impl ConfigView {
    /// Whether an endpoint can be run with these settings: there is a pool to take buffers from,
    /// messages have no more fragments than allowed, there is room to track those, and no other
    /// buffer has a size that sequence numbers cannot be reduced to.
    pub open spec fn valid(self) -> bool {
        &&& self.buffer_pools matches Some(pools) ==> pools.len() > 0
        &&& self.max_message_size <= 1024 * MAX_FRAGMENTS
        &&& self.sent_packets_buffer_size as int % 0x1_0000 != 0
        &&& self.received_packets_buffer_size as int % 0x1_0000 != 0
        &&& self.sent_frag_map_size > 0
    }

    /// The settings that there are by default.
    pub open spec fn default_settings() -> Self {
        ConfigView {
            buffer_pools: None,
            max_message_size: 1048576,
            max_packet_size: 1150,
            sent_packets_buffer_size: 512,
            received_packets_buffer_size: 512,
            packet_header_size: 28,
            sent_frag_map_size: 25000,
        }
    }
}

impl View for PicklebackConfig {
    type V = ConfigView;

    open spec fn view(&self) -> ConfigView {
        ConfigView {
            buffer_pools: match self.buffer_pools_config {
                Some(v) => Some(v@),
                None => None,
            },
            max_message_size: self.max_message_size,
            max_packet_size: self.max_packet_size,
            sent_packets_buffer_size: self.sent_packets_buffer_size,
            received_packets_buffer_size: self.received_packets_buffer_size,
            packet_header_size: self.packet_header_size,
            sent_frag_map_size: self.sent_frag_map_size,
        }
    }
}

impl PicklebackConfig {
    /// Whether an endpoint can be run with these settings.
    pub fn is_valid(&self) -> (r: bool)
        ensures
            r == self@.valid(),
    {
        let pools = match &self.buffer_pools_config {
            Some(v) => v.len() > 0,
            None => true,
        };
        pools && self.max_message_size <= 1024 * MAX_FRAGMENTS && self.sent_packets_buffer_size
            % 0x1_0000 != 0 && self.received_packets_buffer_size % 0x1_0000 != 0
            && self.sent_frag_map_size > 0
    }
}

impl Clone for PicklebackConfig {
    fn clone(&self) -> (r: Self)
        ensures
            r@ == self@,
    {
        let buffer_pools_config = match &self.buffer_pools_config {
            Some(v) => {
                let mut copy: Vec<PoolConfig> = Vec::with_capacity(v.len());
                copy.extend_from_slice(v.as_slice());
                assert(copy@ =~= v@);
                Some(copy)
            },
            None => None,
        };
        PicklebackConfig {
            buffer_pools_config,
            max_message_size: self.max_message_size,
            max_packet_size: self.max_packet_size,
            sent_packets_buffer_size: self.sent_packets_buffer_size,
            received_packets_buffer_size: self.received_packets_buffer_size,
            packet_header_size: self.packet_header_size,
            sent_frag_map_size: self.sent_frag_map_size,
        }
    }
}

impl Default for PicklebackConfig {
    fn default() -> (r: Self)
        ensures
            r@ == ConfigView::default_settings(),
            r@.valid(),
    {
        PicklebackConfig {
            buffer_pools_config: None,
            max_message_size: 1024 * MAX_FRAGMENTS,
            max_packet_size: 1150,
            sent_packets_buffer_size: 512,
            received_packets_buffer_size: 512,
            packet_header_size: 28,
            sent_frag_map_size: 25000,
        }
    }
}

} // verus!
