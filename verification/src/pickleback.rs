//! One end of a stream of datagrams between two peers.

use crate::acking;
use crate::buffer_pool::{self, BufPool, PoolConfig, PooledBuffer};
use crate::channel::{
    self, Channel, ChannelList, ChannelView, ReliableChannel, UnreliableChannel,
};
use crate::config::{ConfigView, PicklebackConfig};
use crate::cursor::{self, BufferLimitedWriter, Cursor};
use crate::dispatcher::{self, DispatcherView, MessageDispatcher, MessageHandle};
use crate::endpoint::{self, EndpointView, Filling};
use crate::error::{Backpressure, PicklebackError};
use crate::protocol::ack_header::{AckIter, MAX_UNACKED_PACKETS};
use crate::protocol::message::{self, Message};
use crate::protocol::packets::{
    self, HeaderView, PacketType, ProtocolPacket, ProtocolPacketHeader,
};
use crate::received_message::ReceivedMessage;
use crate::sequence_buffer::{self, SequenceBuffer, Window};
use crate::time::{self, Time};
use crate::wire;
use crate::{
    MessageId, PacketId, PicklebackStats, ReceivedMeta, SentMeta, PACKET_LOSS_RECALCULATE_INTERVAL,
};
use std::collections::VecDeque;
use vstd::prelude::*;

verus! {

/// An instance of Pickleback represents one of the two endpoints at either side of a link.
pub struct Pickleback {
    time: Time,
    config: PicklebackConfig,
    sequence_id: u16,
    newest_ack: Option<u16>,
    /// The other side has seen our acks up to this point, so when constructing the ack field in
    /// outbound packet headers, there is no need to ack anything lower than this id.
    ack_low_watermark: Option<PacketId>,
    dispatcher: MessageDispatcher,
    channels: ChannelList,
    sent_buffer: SequenceBuffer<SentMeta>,
    received_buffer: SequenceBuffer<ReceivedMeta>,
    stats: PicklebackStats,
    outbox: VecDeque<PooledBuffer>,
    pool: BufPool,
    xor_salt: Option<u64>,
    rtt_samples: Vec<i128>,
    packet_loss_due: bool,
}

impl View for Pickleback {
    type V = EndpointView;

    closed spec fn view(&self) -> EndpointView {
        EndpointView {
            time: self.time,
            config: self.config@,
            sequence_id: self.sequence_id,
            newest_ack: self.newest_ack,
            ack_low_watermark: self.ack_low_watermark,
            dispatcher: self.dispatcher@,
            channels: self.channels@,
            sent: self.sent_buffer@,
            received: self.received_buffer@,
            stats: self.stats,
            outbox: self.outbox@.map_values(|b: PooledBuffer| b@),
            xor_salt: self.xor_salt,
            rtt_samples: self.rtt_samples@.map_values(|t: i128| t as int),
            loss_due: self.packet_loss_due,
        }
    }
}

/// An endpoint with an unreliable channel 0 and a reliable channel 1, that has sent and received
/// nothing.
pub open spec fn fresh_endpoint(config: ConfigView, time: Time) -> EndpointView {
    EndpointView {
        time,
        config,
        sequence_id: 0,
        newest_ack: None,
        ack_low_watermark: None,
        dispatcher: DispatcherView::fresh(
            config.sent_frag_map_size as nat,
            config.received_packets_buffer_size as nat,
        ),
        channels: Map::empty().insert(0u8, ChannelView::fresh(0, false, time)).insert(
            1u8,
            ChannelView::fresh(1, true, time),
        ),
        sent: Window::fresh(config.sent_packets_buffer_size as nat),
        received: Window::fresh(config.received_packets_buffer_size as nat),
        stats: PicklebackStats::zero(),
        outbox: Seq::empty(),
        xor_salt: None,
        rtt_samples: Seq::empty(),
        loss_due: false,
    }
}

/// What the buffers of the first `n` messages hold, one after the other.
pub open spec fn parts_of(messages: Seq<ReceivedMessage>, n: int) -> Seq<Seq<u8>>
    decreases n,
{
    if n <= 0 {
        Seq::empty()
    } else {
        parts_of(messages, n - 1) + messages[n - 1].parts()
    }
}

/// Whether buffers hold what messages are made of.
pub open spec fn holds_parts(buffers: Seq<PooledBuffer>, messages: Seq<ReceivedMessage>) -> bool {
    buffers.map_values(|b: PooledBuffer| b@) == parts_of(messages, messages.len() as int)
}

impl Default for Pickleback {
    fn default() -> (r: Self)
        ensures
            r.wf(),
            r@ == fresh_endpoint(ConfigView::default_settings(), time::SECOND),
    {
        Pickleback::new(PicklebackConfig::default(), time::SECOND)
    }
}

impl Pickleback {
    /// The parts are whole, and the settings allow running.
    pub closed spec fn wf(&self) -> bool {
        &&& self.config@.valid()
        &&& self.dispatcher.wf()
        &&& self.channels.wf()
        &&& self.sent_buffer.wf()
        &&& self.received_buffer.wf()
        &&& buffer_pool::usable(self.pool@)
        &&& self@.wf()
    }

    /// What an endpoint that is whole can be relied on for.
    pub proof fn lemma_wf(&self)
        requires
            self.wf(),
        ensures
            self@.wf(),
            self@.config.valid(),
    {
    }

    /// Creates a new instance.
    ///
    /// `time` should probably match your game loop time. You'll be updating this with a `dt`
    /// every tick, via `update()`.
    pub fn new(config: PicklebackConfig, time: Time) -> (r: Self)
        requires
            config@.valid(),
        ensures
            r.wf(),
            r@ == fresh_endpoint(config@, time),
    {
        let mut channels = ChannelList::new();
        channels.insert(Channel::UnreliableChannel(UnreliableChannel::new(0, time)));
        channels.insert(Channel::ReliableChannel(ReliableChannel::new(1, time)));
        let pool = match &config.buffer_pools_config {
            Some(configs) => {
                let mut copy: Vec<PoolConfig> = Vec::with_capacity(configs.len());
                copy.extend_from_slice(configs.as_slice());
                BufPool::new(copy)
            },
            None => BufPool::default(),
        };
        let sent_buffer: SequenceBuffer<SentMeta> = SequenceBuffer::with_capacity(
            config.sent_packets_buffer_size,
        );
        let received_buffer: SequenceBuffer<ReceivedMeta> = SequenceBuffer::with_capacity(
            config.received_packets_buffer_size,
        );
        let dispatcher = MessageDispatcher::new(&config);
        let r = Pickleback {
            time,
            config,
            sequence_id: 0,
            newest_ack: None,
            ack_low_watermark: None,
            dispatcher,
            channels,
            sent_buffer,
            received_buffer,
            stats: PicklebackStats::default(),
            outbox: VecDeque::new(),
            pool,
            xor_salt: None,
            rtt_samples: Vec::new(),
            packet_loss_due: false,
        };
        proof {
            r.channels.lemma_wf();
            assert(r@ =~= fresh_endpoint(config@, time));
        }
        r
    }

    /// The pool of buffers. Used for testing.
    pub fn pool(&self) -> (r: &BufPool)
        ensures
            *r == self.buffers(),
    {
        &self.pool
    }

    /// The pool of buffers.
    pub closed spec fn buffers(&self) -> BufPool {
        self.pool
    }

    /// Sets the salt that goes into packets of messages.
    pub fn set_xor_salt(&mut self, xor_salt: Option<u64>)
        requires
            old(self).wf(),
        ensures
            final(self).wf(),
            final(self)@ == (EndpointView { xor_salt, ..old(self)@ }),
    {
        self.xor_salt = xor_salt;
    }

    /// Tracks metrics on packet and message counts, etc.
    pub fn stats(&self) -> (r: &PicklebackStats)
        ensures
            *r == self@.stats,
    {
        &self.stats
    }

    /// The current time, as advanced by calling `update()`.
    pub fn time(&self) -> (r: Time)
        ensures
            r == self@.time,
    {
        self.time
    }

    /// The settings passed to `new()`.
    pub fn config(&self) -> (r: &PicklebackConfig)
        ensures
            r@ == self@.config,
    {
        &self.config
    }

    /// How many packets are waiting in the outbound send queue.
    pub fn num_packets_to_send(&self) -> (r: usize)
        ensures
            r == self@.outbox.len(),
    {
        self.outbox.len()
    }

    /// Whether there are packets sitting in the outbox.
    pub fn has_packets_to_send(&self) -> (r: bool)
        ensures
            r == (self@.outbox.len() > 0),
    {
        self.outbox.len() > 0
    }

    /// What is kept of a packet that was sent.
    pub fn sent_info(&self, sent_handle: PacketId) -> (r: Option<&SentMeta>)
        requires
            self.wf(),
        ensures
            match r {
                Some(meta) => self@.sent.lookup(sent_handle.0) == Some(*meta),
                None => self@.sent.lookup(sent_handle.0) is None,
            },
    {
        self.sent_buffer.get(sent_handle.0)
    }

    /// How many packets were received that the other side may not have seen an ack of. This
    /// decides what range of acks to send with every outbound packet.
    pub fn received_unacked_packets(&self) -> (r: u16)
        ensures
            r == self@.received_unacked(),
    {
        match self.ack_low_watermark {
            Some(lowest_ack) => self.received_buffer.sequence().wrapping_sub(lowest_ack.0),
            None => self.received_buffer.sequence(),
        }
    }

    /// How many packets were received that the other side may not have seen an ack of, but ignoring
    /// keep alives and packets of no messages. Composing packets does not go by this: it sends one
    /// just for acks whenever `received_unacked_packets` is not zero.
    pub fn received_unacked_non_empty_packets(&self) -> (r: u16)
        requires
            self.wf(),
        ensures
            r == self@.received_unacked_non_empty(),
    {
        let newest = self.received_buffer.sequence();
        let unacked = self.received_unacked_packets();
        let mut count: u16 = 0;
        let mut i: u16 = 0;
        while i < unacked
            invariant
                self.wf(),
                newest == self@.received.sequence,
                i <= unacked,
                count <= i,
                count == endpoint::non_empty(self@.received, i as nat),
            decreases unacked - i,
        {
            match self.received_buffer.get(newest.wrapping_sub(i)) {
                Some(meta) => {
                    if !meta.empty {
                        count = count + 1;
                    }
                },
                None => {},
            }
            i = i + 1;
        }
        count
    }

    /// How many packets were sent that no acks were received for yet.
    pub fn sent_unacked_packets(&self) -> (r: u16)
        ensures
            r == self@.sent_unacked(),
    {
        let newest_ack = match self.newest_ack {
            Some(n) => n,
            None => 0,
        };
        self.sent_buffer.sequence().wrapping_sub(newest_ack)
    }

    /// Whether packets can be composed: the salt is known, or there are no messages to send.
    pub fn can_compose(&self) -> (r: bool)
        requires
            self.wf(),
        ensures
            r == self@.can_compose(),
    {
        self.xor_salt.is_some() || !self.channels.any_with_messages_to_send()
    }

    /// Advances the time by `dt`.
    ///
    /// When ticking in your game loop, you must advance the time here too, by passing in the delta
    /// time since you last called update. This is so it knows when to send again.
    pub fn update(&mut self, dt: Time)
        requires
            old(self).wf(),
        ensures
            final(self).wf(),
            final(self)@ == old(self)@.updated(dt),
    {
        self.time = time::advance(self.time, dt);
        // this may result in reliable channels having messages to retransmit
        self.channels.update(dt);
        proof {
            self.channels.lemma_wf();
        }
    }

    /// Makes the header of the next packet: it gets the next sequence number, and acks for the
    /// packets received recently.
    pub fn next_packet_header(&mut self, packet_type: PacketType) -> (r: Result<
        ProtocolPacketHeader,
        PicklebackError,
    >)
        requires
            old(self).wf(),
        ensures
            final(self).wf(),
            final(self)@ == old(self)@.next_begun(),
            match r {
                Ok(h) => h.wf() && old(self)@.next_begun().header(packet_type) == Ok::<
                    _,
                    PicklebackError,
                >(h@),
                Err(e) => old(self)@.next_begun().header(packet_type) == Err::<HeaderView, _>(e),
            },
    {
        self.sequence_id = self.sequence_id.wrapping_add(1);
        let id = PacketId(self.sequence_id);
        let num_acks_required = self.received_unacked_packets();
        if num_acks_required > MAX_UNACKED_PACKETS {
            return Err(PicklebackError::Backpressure(Backpressure::TooManyPending));
        }
        let ack_iter = AckIter::with_minimum_length(&self.received_buffer, num_acks_required);
        let acks = ack_iter.into_acks();
        ProtocolPacketHeader::new(id, acks.as_slice(), num_acks_required, packet_type)
    }

    /// Writes the header of the next packet of messages, and the salt.
    fn write_packet_header(&mut self, writer: &mut BufferLimitedWriter) -> (r: Result<
        (),
        PicklebackError,
    >)
        requires
            old(self).wf(),
            old(self)@.xor_salt is Some,
        ensures
            final(self).wf(),
            final(self)@ == old(self)@.next_begun(),
            match old(self)@.next_begun().header(PacketType::Messages) {
                Ok(h) => {
                    let head = final(self)@.messages_head(h);
                    &&& r == cursor::write_result(head.len(), old(writer)@.room)
                    &&& final(writer)@ == old(writer)@.after(head)
                },
                Err(e) => r == Err::<(), _>(e),
            },
    {
        let header = self.next_packet_header(PacketType::Messages)?;
        let salt = self.xor_salt.unwrap();
        proof {
            wire::lemma_be_bytes_len(salt as nat, 8);
            old(writer)@.lemma_after(header@.encoded(), wire::be_bytes(salt as nat, 8));
        }
        header.write(writer)?;
        writer.write_u64(salt)
    }

    /// "Sends" a fully written packet (headers and payload), by writing a record into the sent
    /// buffer, counting it, and placing the packet into the outbox. The consumer should fetch and
    /// dispatch it via whatever means they like.
    fn send_raw_packet(&mut self, packet: PooledBuffer) -> (r: Result<(), PicklebackError>)
        requires
            old(self).wf(),
        ensures
            final(self).wf(),
            final(self)@ == old(self)@.packet_sent(packet@).state,
            r == old(self)@.packet_sent(packet@).result,
    {
        let send_size = packet.len().saturating_add(self.config.packet_header_size);
        // the most recent packet acked in the header of this one: once this packet gets acked,
        // nothing up to there needs to be acked any more
        let acking_up_to = self.received_buffer.sequence();
        let meta = SentMeta::new(self.time, send_size, PacketId(acking_up_to));
        match self.sent_buffer.insert(self.sequence_id, meta) {
            Ok(_) => {},
            Err(e) => {
                return Err(e);
            },
        }
        self.dispatcher.packet_sent(PacketId(self.sequence_id));
        self.outbox.push_back(packet);
        self.stats.packets_sent = self.stats.packets_sent.wrapping_add(1);
        proof {
            old(self)@.sent.lemma_inserted(self.sequence_id, meta);
            old(self)@.dispatcher.packets.lemma_advanced_inserted(self.sequence_id, Seq::empty());
            self.dispatcher.lemma_wf();
            assert(self@ =~= old(self)@.packet_sent(packet@).state);
        }
        Ok(())
    }

    /// Writes a packet to a buffer and sends it.
    pub fn send_packet(&mut self, packet: ProtocolPacket) -> (r: Result<(), PicklebackError>)
        requires
            old(self).wf(),
            packet.header().wf(),
            !(packet@.body is Messages),
        ensures
            final(self).wf(),
            final(self)@ == old(self)@.protocol_sent(packet@).state,
            r == old(self)@.protocol_sent(packet@).result,
    {
        let buf = packets::write_packet(&mut self.pool, &self.config, packet)?;
        self.send_raw_packet(buf)
    }

    /// Writes messages of a channel into a packet, until there's no space left or the channel has
    /// no message that fits. Returns how many were written.
    fn write_channel_messages_to_packet(
        channel: &mut Channel,
        writer: &mut BufferLimitedWriter,
        message_handles: &mut Vec<MessageHandle>,
        pool: &mut BufPool,
        Ghost(start): Ghost<Filling>,
    ) -> (r: Result<usize, PicklebackError>)
        requires
            old(channel).wf(),
            buffer_pool::usable(old(pool)@),
            endpoint::channels_wf(start.channels),
            start.channels.contains_key(old(channel)@.id),
            start.channels[old(channel)@.id] == old(channel)@,
            start.out == old(writer)@,
            start.handles == old(message_handles)@,
        ensures
            final(channel).wf(),
            final(channel)@.id == old(channel)@.id,
            final(pool)@.len() == old(pool)@.len(),
            buffer_pool::usable(final(pool)@),
            start.with_channel(old(channel)@.id) == (Filling {
                channels: start.channels.insert(old(channel)@.id, final(channel)@),
                out: final(writer)@,
                handles: final(message_handles)@,
            }),
            r matches Ok(n) && n == final(message_handles)@.len() - old(message_handles)@.len(),
    {
        let ghost id = channel@.id;
        let ghost mut f = start;
        let space = writer.remaining();
        let mut num_written: usize = 0;
        let mut more = true;
        assert(start.channels.insert(id, channel@) =~= start.channels);
        while more
            invariant
                channel.wf(),
                channel@.id == id,
                id == old(channel)@.id,
                pool@.len() == old(pool)@.len(),
                buffer_pool::usable(pool@),
                endpoint::channels_wf(f.channels),
                f.channels.contains_key(id),
                f.channels =~= start.channels.insert(id, channel@),
                f.out == writer@,
                f.handles == message_handles@,
                more ==> start.with_channel(id) == f.with_channel(id),
                !more ==> start.with_channel(id) == f,
                num_written == message_handles@.len() - old(message_handles)@.len(),
                num_written + f.out.room <= space,
            decreases (if more {
                f.out.room + 1
            } else {
                0
            }),
        {
            match channel.get_message_to_write_to_a_packet(writer.remaining()) {
                None => {
                    more = false;
                },
                Some(msg) => {
                    proof {
                        f.lemma_with_message(id);
                    }
                    let ghost i = f.channels[id].first_fit(f.out.room, 0)->0;
                    num_written = num_written + 1;
                    writer.write_all(msg.as_slice())?;
                    let frag_index = match msg.fragment() {
                        Some(fragment) => Some(fragment.index),
                        None => None,
                    };
                    message_handles.push(
                        MessageHandle { id: msg.id(), frag_index, channel: channel.id() },
                    );
                    pool.return_buffer(msg.into_buffer());
                    proof {
                        let next = f.with_message(id, i);
                        assert(next.channels =~= start.channels.insert(id, channel@));
                        f = next;
                    }
                    if writer.remaining() < 3 {
                        more = false;
                    }
                },
            }
        }
        Ok(num_written)
    }

    /// Fills one packet with messages, and sends it.
    fn compose_packet(&mut self) -> (r: Result<(), PicklebackError>)
        requires
            old(self).wf(),
            old(self)@.xor_salt is Some,
        ensures
            final(self).wf(),
            final(self)@ == old(self)@.packet_composed().state,
            r == old(self)@.packet_composed().result,
    {
        proof {
            reveal(EndpointView::packet_composed);
        }
        // before allocating a new packet, ensure the ack system isn't going to break by having too
        // many unacked packets in flight
        if self.sent_unacked_packets() >= MAX_UNACKED_PACKETS {
            return Err(PicklebackError::Backpressure(Backpressure::TooManyPending));
        }
        let max_packet_size = self.config.max_packet_size;
        let packet = self.pool.get_buffer(max_packet_size);
        let buffer_id = packet.id;
        let mut writer = BufferLimitedWriter::new(packet.v, max_packet_size);
        let ghost blank = writer@;
        self.write_packet_header(&mut writer)?;
        let ghost begun = old(self)@.next_begun();
        let ghost head = begun.messages_head(begun.header(PacketType::Messages)->Ok_0);
        proof {
            blank.lemma_after(head, Seq::empty());
            assert(blank.out + head =~= head);
        }
        let mut message_handles: Vec<MessageHandle> = Vec::new();
        let ghost start = Filling {
            channels: self.channels@,
            out: writer@,
            handles: message_handles@,
        };
        let ghost mut f = start;
        let mut more = true;
        let ghost stats = self.stats;
        proof {
            self.channels.lemma_wf();
        }
        while more
            invariant
                self.wf(),
                endpoint::channels_wf(f.channels),
                f.channels == self.channels@,
                f.out == writer@,
                f.handles == message_handles@,
                more ==> start.filled() == f.filled(),
                !more ==> start.filled() == f,
                self.stats == (PicklebackStats {
                    messages_sent: ((stats.messages_sent + message_handles@.len())
                        % 0x1_0000_0000_0000_0000) as u64,
                    ..stats
                }),
                self@ == (EndpointView { channels: f.channels, stats: self.stats, ..begun }),
                stats == begun.stats,
            decreases (if more {
                f.out.room + 1
            } else {
                0
            }),
        {
            match self.channels.first_non_empty() {
                None => {
                    more = false;
                },
                Some(id) => {
                    proof {
                        channel::lemma_first_ready(f.channels, 0);
                        f.lemma_with_channel(id);
                    }
                    match self.channels.get_mut(id) {
                        None => {
                            more = false;
                        },
                        Some(channel) => {
                            let num_written = Self::write_channel_messages_to_packet(
                                channel,
                                &mut writer,
                                &mut message_handles,
                                &mut self.pool,
                                Ghost(f),
                            )?;
                            self.stats.messages_sent = self.stats.messages_sent.wrapping_add(
                                num_written as u64,
                            );
                            proof {
                                f = f.with_channel(id);
                                self.channels.lemma_wf();
                            }
                            if num_written == 0 || writer.remaining() < 3 {
                                more = false;
                            }
                        },
                    }
                },
            }
        }
        let sequence_id = self.sequence_id;
        self.send_raw_packet(PooledBuffer::new(buffer_id, writer.into_inner()))?;
        self.dispatcher.set_packet_message_handles(PacketId(sequence_id), message_handles)?;
        proof {
            if old(self)@.packet_composed().result is Ok {
                old(self)@.lemma_packet_composed();
            }
        }
        Ok(())
    }

    /// For all the channels, coalesces any outbound messages they have into packets, with packet
    /// headers written, and places these into the outbox. If there are none, but there are acks
    /// that the other side hasn't seen yet, a packet is sent just for those.
    fn compose_packets(&mut self) -> (r: Result<(), PicklebackError>)
        requires
            old(self).wf(),
            old(self)@.can_compose(),
        ensures
            final(self).wf(),
            final(self)@ == old(self)@.composed().state,
            r == old(self)@.composed().result,
    {
        if self.sent_unacked_packets() >= MAX_UNACKED_PACKETS {
            return Err(PicklebackError::Backpressure(Backpressure::TooManyPending));
        }
        let mut sent_something = false;
        while self.channels.any_with_messages_to_send()
            invariant
                self.wf(),
                old(self)@.messages_composed() == self@.messages_composed(),
                old(self)@.sent_unacked() < MAX_UNACKED_PACKETS,
                self@.can_compose(),
                sent_something == (self@.outbox.len() > old(self)@.outbox.len()),
                self@.outbox.len() >= old(self)@.outbox.len(),
                self@.xor_salt == old(self)@.xor_salt,
            decreases self@.sequence_lag(), MAX_UNACKED_PACKETS - self@.sent_unacked(),
        {
            proof {
                if self@.packet_composed().result is Ok {
                    self@.lemma_packet_composed();
                }
            }
            self.compose_packet()?;
            sent_something = true;
        }
        if !sent_something && self.received_unacked_packets() > 0 && self.xor_salt.is_some() {
            return self.send_empty_packet();
        }
        Ok(())
    }

    /// Sends a packet containing zero messages.
    ///
    /// The packet header contains the ack field, so it can be useful to send an empty packet just
    /// to send acks.
    fn send_empty_packet(&mut self) -> (r: Result<(), PicklebackError>)
        requires
            old(self).wf(),
            old(self)@.xor_salt is Some,
        ensures
            final(self).wf(),
            final(self)@ == old(self)@.empty_sent().state,
            r == old(self)@.empty_sent().result,
    {
        if self.sent_unacked_packets() >= MAX_UNACKED_PACKETS {
            return Err(PicklebackError::Backpressure(Backpressure::TooManyPending));
        }
        let packet = self.pool.get_buffer(1300);
        let buffer_id = packet.id;
        let mut writer = BufferLimitedWriter::new(packet.v, 1300);
        let ghost blank = writer@;
        proof {
            let begun = old(self)@.next_begun();
            if let Ok(h) = begun.header(PacketType::Messages) {
                lemma_head_len(old(self)@.next_begun(), h);
                let head = begun.messages_head(h);
                blank.lemma_after(head, Seq::empty());
                assert(blank.out + head =~= head);
            }
        }
        self.write_packet_header(&mut writer)?;
        self.send_raw_packet(PooledBuffer::new(buffer_id, writer.into_inner()))
    }

    /// Composes the packets to be sent, and takes all out of the outbox. Send them to the other
    /// endpoint via the network, and hand them to `return_buffers` after that.
    ///
    /// Backpressure is no failure here: some packets may have been composed before it was met.
    pub fn drain_packets_to_send(&mut self) -> (r: Result<Vec<PooledBuffer>, PicklebackError>)
        requires
            old(self).wf(),
            old(self)@.can_compose(),
        ensures
            final(self).wf(),
            final(self)@ == old(self)@.drained().0,
            match r {
                Ok(sent) => {
                    &&& old(self)@.drained().2 is None
                    &&& sent@.map_values(|b: PooledBuffer| b@) == old(self)@.drained().1
                },
                Err(e) => old(self)@.drained().2 == Some(e),
            },
    {
        match self.compose_packets() {
            Ok(_) => {},
            Err(e) => match e {
                PicklebackError::Backpressure(_) => {},
                _ => {
                    return Err(e);
                },
            },
        }
        Ok(self.take_outbox())
    }

    /// Takes all packets out of the outbox.
    fn take_outbox(&mut self) -> (r: Vec<PooledBuffer>)
        requires
            old(self).wf(),
        ensures
            final(self).wf(),
            r@.map_values(|b: PooledBuffer| b@) == old(self)@.outbox,
            final(self)@ == (EndpointView { outbox: Seq::empty(), ..old(self)@ }),
    {
        let ghost state = self@;
        let ghost bytes = |b: PooledBuffer| b@;
        let ghost all = self.outbox@;
        let mut ret: Vec<PooledBuffer> = Vec::with_capacity(self.outbox.len());
        loop
            invariant
                ret@ + self.outbox@ =~= all,
                self@ =~= (EndpointView { outbox: self@.outbox, ..state }),
                self.wf(),
            ensures
                self.outbox@.len() == 0,
                ret@ =~= all,
            decreases self.outbox@.len(),
        {
            match self.outbox.pop_front() {
                Some(packet) => {
                    ret.push(packet);
                },
                None => {
                    break ;
                },
            }
        }
        assert(self@.outbox =~= Seq::empty());
        assert(ret@.map_values(bytes) =~= state.outbox);
        ret
    }

    /// Takes copies of all packets out of the outbox, and nothing that would have to be composed
    /// first.
    pub fn collect_outbox(&mut self) -> (r: Vec<Vec<u8>>)
        requires
            old(self).wf(),
        ensures
            final(self).wf(),
            r@.map_values(|v: Vec<u8>| v@) == old(self)@.outbox,
            final(self)@ == (EndpointView { outbox: Seq::empty(), ..old(self)@ }),
    {
        let buffers = self.take_outbox();
        let r = copy_buffers(&buffers);
        self.return_buffers(buffers);
        r
    }

    /// Composes the packets to be sent, and takes copies of all out of the outbox. This is just
    /// for tests.
    pub fn collect_packets_to_send_inefficiently(&mut self) -> (r: Result<
        Vec<Vec<u8>>,
        PicklebackError,
    >)
        requires
            old(self).wf(),
            old(self)@.can_compose(),
        ensures
            final(self).wf(),
            final(self)@ == old(self)@.drained().0,
            match r {
                Ok(sent) => {
                    &&& old(self)@.drained().2 is None
                    &&& sent@.map_values(|v: Vec<u8>| v@) == old(self)@.drained().1
                },
                Err(e) => old(self)@.drained().2 == Some(e),
            },
    {
        let buffers = self.drain_packets_to_send()?;
        let ret = copy_buffers(&buffers);
        self.return_buffers(buffers);
        Ok(ret)
    }

    /// Returns buffers to the pool, so they can be reused.
    pub fn return_buffers(&mut self, buffers: Vec<PooledBuffer>)
        requires
            old(self).wf(),
        ensures
            final(self).wf(),
            final(self)@ == old(self)@,
            exists|capacities: Seq<usize>|
                buffer_pool::capacities_of(capacities, buffers@) && final(self).buffers()@
                    == #[trigger] buffer_pool::after_returns(
                    old(self).buffers()@,
                    buffers@,
                    capacities,
                    buffers@.len() as int,
                ),
    {
        let ghost all = buffers@;
        self.pool.return_buffers(buffers);
        proof {
            let capacities = choose|capacities: Seq<usize>|
                buffer_pool::capacities_of(capacities, all) && self.pool@
                    == #[trigger] buffer_pool::after_returns(
                    old(self).pool@,
                    all,
                    capacities,
                    all.len() as int,
                );
            assert(self.buffers()@ == buffer_pool::after_returns(
                old(self).buffers()@,
                all,
                capacities,
                all.len() as int,
            ));
        }
    }

    /// Takes out the messages received on a channel, which were parsed from received packets. Hand
    /// them to `return_messages` once done with them.
    pub fn drain_received_messages(&mut self, channel: u8) -> (r: Vec<ReceivedMessage>)
        requires
            old(self).wf(),
        ensures
            final(self).wf(),
            forall|i: int| 0 <= i < r@.len() ==> (#[trigger] r@[i]).wf(),
            r@.map_values(|m: ReceivedMessage| m@) == old(self)@.dispatcher.messages[channel],
            final(self)@ == (EndpointView {
                dispatcher: DispatcherView {
                    messages: old(self)@.dispatcher.messages.insert(channel, Seq::empty()),
                    ..old(self)@.dispatcher
                },
                ..old(self)@
            }),
    {
        self.dispatcher.drain_received_messages(channel)
    }

    /// Returns the buffers of received messages to the pool, so they can be reused.
    pub fn return_messages(&mut self, messages: Vec<ReceivedMessage>)
        requires
            old(self).wf(),
            forall|i: int| 0 <= i < messages@.len() ==> (#[trigger] messages@[i]).wf(),
        ensures
            final(self).wf(),
            final(self)@ == old(self)@,
            exists|buffers: Seq<PooledBuffer>, capacities: Seq<usize>|
                {
                    &&& holds_parts(buffers, messages@)
                    &&& buffer_pool::capacities_of(capacities, buffers)
                    &&& final(self).buffers()@ == #[trigger] buffer_pool::after_returns(
                        old(self).buffers()@,
                        buffers,
                        capacities,
                        buffers.len() as int,
                    )
                },
    {
        let mut buffers: Vec<PooledBuffer> = Vec::new();
        let ghost all = messages@;
        let ghost bytes = |b: PooledBuffer| b@;
        assert(buffers@.map_values(bytes) =~= Seq::empty());
        for message in it: messages
            invariant
                it.seq() == all,
                forall|i: int| 0 <= i < all.len() ==> (#[trigger] all[i]).wf(),
                buffers@.map_values(bytes) =~= parts_of(all, it.index() as int),
                bytes == (|b: PooledBuffer| b@),
        {
            let ghost before = buffers@;
            assert(all[it.index() as int].wf());
            let mut more = message.into_buffers();
            let ghost added = more@;
            buffers.append(&mut more);
            assert(buffers@.map_values(bytes) =~= before.map_values(bytes) + added.map_values(
                bytes,
            ));
        }
        assert(holds_parts(buffers@, all));
        self.return_buffers(buffers);
    }

    /// Takes out the ids of the messages acked on a channel.
    ///
    /// Once your `MessageId` is acked, it means a packet came back from the remote endpoint saying
    /// that message was received.
    pub fn drain_message_acks(&mut self, channel: u8) -> (r: Vec<MessageId>)
        requires
            old(self).wf(),
        ensures
            final(self).wf(),
            r@ == old(self)@.dispatcher.acks[channel],
            final(self)@ == (EndpointView {
                dispatcher: DispatcherView {
                    acks: old(self)@.dispatcher.acks.insert(channel, Seq::empty()),
                    ..old(self)@.dispatcher
                },
                ..old(self)@
            }),
    {
        self.dispatcher.drain_message_acks(channel)
    }

    /// Enqueues a message to be sent in the next available packet, via a channel.
    ///
    /// # Errors
    ///
    /// * `PayloadTooBig` if the size of the payload exceeds `max_message_size`.
    /// * `Backpressure` if too many packets are unacked.
    /// * `NoSuchChannel` if there is no such channel.
    pub fn send_message(&mut self, channel: u8, message_payload: &[u8]) -> (r: Result<
        MessageId,
        PicklebackError,
    >)
        requires
            old(self).wf(),
        ensures
            final(self).wf(),
            (final(self)@, r) == old(self)@.message_sent(channel, message_payload@),
            final(self).buffers()@ == (if final(self)@.channels == old(self)@.channels {
                old(self).buffers()@
            } else {
                dispatcher::taken_for(
                    old(self).buffers()@,
                    final(self)@.channels[channel].queue,
                    old(self)@.channels[channel].queue.len() as int,
                )
            }),
    {
        if message_payload.len() > self.config.max_message_size {
            return Err(PicklebackError::PayloadTooBig);
        }
        if self.sent_unacked_packets() >= MAX_UNACKED_PACKETS {
            return Err(PicklebackError::Backpressure(Backpressure::TooManyPending));
        }
        self.stats.message_sends = self.stats.message_sends.wrapping_add(1);
        proof {
            self.dispatcher@.lemma_sent(self.channels@[channel], message_payload@);
        }
        match self.channels.get_mut(channel) {
            None => Err(PicklebackError::NoSuchChannel),
            Some(ch) => {
                let r = self.dispatcher.add_message_to_channel(
                    &mut self.pool,
                    ch,
                    message_payload,
                );
                proof {
                    self.channels.lemma_wf();
                    self.dispatcher.lemma_wf();
                }
                r
            },
        }
    }

    /// The channels. Used by tests.
    pub fn channels_mut(&mut self) -> (r: &mut ChannelList)
        requires
            old(self).wf(),
        ensures
            r.wf(),
            r@ == old(self)@.channels,
            final(self)@ == (EndpointView { channels: final(r)@, ..old(self)@ }),
            final(r).wf() ==> final(self).wf(),
    {
        proof {
            assert forall|c: ChannelList| #[trigger] c.wf() implies endpoint::channels_wf(c@) by {
                c.lemma_wf();
            }
        }
        &mut self.channels
    }

    /// Takes a packet that was just read from the network: processes the acks in its header and,
    /// if it is a packet of messages, reads those from the rest of it. Messages are delivered to
    /// channels, acks are kept for later consumption.
    ///
    /// # Errors
    ///
    /// * `Io` or `InvalidMessage` if parsing messages fails.
    /// * `StalePacket` if the packet is too old.
    /// * `DuplicatePacket` if it was received already.
    pub fn process_incoming_packet(
        &mut self,
        header: &ProtocolPacketHeader,
        payload_reader: &mut Cursor,
    ) -> (r: Result<(), PicklebackError>)
        requires
            old(self).wf(),
            header.wf(),
            old(payload_reader).wf(),
        ensures
            final(self).wf(),
            final(payload_reader).wf(),
            final(payload_reader).all() == old(payload_reader).all(),
            final(self)@ == old(self)@.packet_received(header@, old(payload_reader).rest()).state,
            r == old(self)@.packet_received(header@, old(payload_reader).rest()).result,
    {
        self.stats.packets_received = self.stats.packets_received.wrapping_add(1);
        let id = header.id().0;
        // if this packet sequence is out of buffer range, reject as stale
        if !self.received_buffer.check_sequence(id) {
            self.stats.packets_stale = self.stats.packets_stale.wrapping_add(1);
            return Err(PicklebackError::StalePacket);
        }
        // if this packet was already received, reject as duplicate
        if self.received_buffer.contains(id) {
            self.stats.packets_duplicate = self.stats.packets_duplicate.wrapping_add(1);
            return Err(PicklebackError::DuplicatePacket);
        }
        let remaining = payload_reader.remaining_slice().len();
        let packet_len = header.size().saturating_add(remaining);
        let mut meta = ReceivedMeta::new(
            self.time,
            self.config.packet_header_size.saturating_add(packet_len),
        );
        meta.empty = match header.packet_type {
            PacketType::KeepAlive => true,
            PacketType::Messages => remaining == 0,
            _ => false,
        };
        proof {
            sequence_buffer::lemma_in_range_not_too_old(self.received_buffer@, id);
            self.received_buffer@.lemma_inserted(id, meta);
        }
        match self.received_buffer.insert(id, meta) {
            Ok(_) => {},
            Err(e) => {
                return Err(e);
            },
        }
        self.process_packet_acks_and_rtt(header);
        // only the messages packet type leaves stuff in the buffer to process
        match header.packet_type {
            PacketType::Messages => self.process_messages(payload_reader),
            _ => Ok(()),
        }
    }

    /// Reads all messages at the cursor. There should only be whole messages.
    fn process_messages(&mut self, payload_reader: &mut Cursor) -> (r: Result<(), PicklebackError>)
        requires
            old(self).wf(),
            old(payload_reader).wf(),
        ensures
            final(self).wf(),
            final(payload_reader).wf(),
            final(payload_reader).all() == old(payload_reader).all(),
            final(self)@ == old(self)@.messages_received(old(payload_reader).rest()).state,
            r == old(self)@.messages_received(old(payload_reader).rest()).result,
    {
        while !payload_reader.is_empty()
            invariant
                self.wf(),
                payload_reader.wf(),
                payload_reader.all() == old(payload_reader).all(),
                old(self)@.messages_received(old(payload_reader).rest()) == self@.messages_received(
                    payload_reader.rest(),
                ),
            decreases payload_reader.rest().len(),
        {
            proof {
                message::lemma_parse_consumes(payload_reader.rest());
            }
            let ghost before = self@;
            let msg = Message::parse(&mut self.pool, payload_reader)?;
            let ghost m = msg@;
            self.stats.messages_received = self.stats.messages_received.wrapping_add(1);
            match self.channels.get_mut(msg.channel()) {
                Some(channel) => {
                    if channel.accepts_message(&msg) {
                        self.dispatcher.process_received_message(msg);
                    }
                },
                None => {},
            }
            proof {
                self.channels.lemma_wf();
                if before.channels.contains_key(m.channel) {
                    let c = before.channels[m.channel];
                    assert(before.channels.insert(m.channel, c) =~= before.channels);
                }
                assert(self@ =~= before.message_received(m));
            }
        }
        Ok(())
    }

    /// Reads the ack header and checks for unseen acks, and reports them to the dispatcher so it
    /// can ack the message ids associated with the packet sequence number. Notes how long each
    /// packet took to be acked. No packet is ever counted as acked twice.
    pub fn process_packet_acks_and_rtt(&mut self, header: &ProtocolPacketHeader)
        requires
            old(self).wf(),
            header.wf(),
        ensures
            final(self).wf(),
            final(self)@ == old(self)@.header_noted(header@),
            acking::counted_once(old(self)@, header@, final(self)@),
    {
        proof {
            acking::lemma_header_counted(self@, header@);
        }
        let acks = match header.acks() {
            Some(acks) => acks,
            None => {
                return ;
            },
        };
        let mut i: usize = 0;
        while i < acks.len()
            invariant
                i <= acks@.len(),
                self.wf(),
                self@ == old(self)@.acks_noted(acks@, i as int),
            decreases acks@.len() - i,
        {
            let (ack_sequence, is_acked) = acks[i];
            if is_acked {
                self.process_ack(ack_sequence);
            }
            i = i + 1;
        }
        if self.sequence_id % PACKET_LOSS_RECALCULATE_INTERVAL == 0 {
            self.packet_loss_due = true;
        }
    }

    /// One of the packets sent was acked.
    fn process_ack(&mut self, ack_sequence: u16)
        requires
            old(self).wf(),
        ensures
            final(self).wf(),
            final(self)@ == old(self)@.ack_noted((ack_sequence, true)),
    {
        let sent_data = match self.sent_buffer.get_mut(ack_sequence) {
            None => {
                return ;
            },
            Some(meta) => {
                let before = *meta;
                meta.acked = true;
                before
            },
        };
        if sent_data.acked {
            proof {
                assert(self.sent_buffer@ =~= old(self).sent_buffer@);
            }
            return ;
        }
        // tracking the newest ack seen, so we know how many packets are unacked or in flight
        match self.newest_ack {
            Some(newest_ack) => {
                if SequenceBuffer::<SentMeta>::sequence_greater_than(ack_sequence, newest_ack) {
                    self.newest_ack = Some(ack_sequence);
                }
            },
            None => {
                self.newest_ack = Some(ack_sequence);
            },
        }
        // the record stores which of their packets were acked up to in our packet, so the low
        // watermark can potentially move up: they have effectively acked our acks up to this point
        self.ack_low_watermark = Self::raise(self.ack_low_watermark, sent_data.acked_up_to);
        self.stats.packets_acked = self.stats.packets_acked.wrapping_add(1);
        // this allows the dispatcher to ack the messages that were sent in this packet
        let returned_buffers = self.dispatcher.acked_packet(
            PacketId(ack_sequence),
            &mut self.channels,
        );
        self.rtt_samples.push(time::elapsed(self.time, sent_data.time));
        proof {
            self.channels.lemma_wf();
            self.dispatcher.lemma_wf();
            assert(self@ =~= old(self)@.ack_noted((ack_sequence, true)));
        }
        self.return_buffers(returned_buffers);
    }

    /// The higher of two watermarks, where there is one already.
    fn raise(mark: Option<PacketId>, to: PacketId) -> (r: Option<PacketId>)
        ensures
            r == endpoint::raised(mark, to),
    {
        match mark {
            Some(low) => if SequenceBuffer::<SentMeta>::sequence_greater_than(to.0, low.0) {
                Some(to)
            } else {
                Some(low)
            },
            None => Some(to),
        }
    }

    /// Takes out how long packets took to be acked, in nanoseconds, for an estimate of the round
    /// trip time. Call this regularly.
    pub fn take_rtt_samples(&mut self) -> (r: Vec<i128>)
        requires
            old(self).wf(),
        ensures
            final(self).wf(),
            r@.map_values(|t: i128| t as int) == old(self)@.rtt_samples,
            final(self)@ == (EndpointView { rtt_samples: Seq::empty(), ..old(self)@ }),
    {
        let mut r: Vec<i128> = Vec::new();
        std::mem::swap(&mut r, &mut self.rtt_samples);
        assert(self@.rtt_samples =~= Seq::empty());
        r
    }

    /// Whether the packet loss is due to be worked out anew. It is not any more after this.
    pub fn take_packet_loss_due(&mut self) -> (r: bool)
        requires
            old(self).wf(),
        ensures
            final(self).wf(),
            r == old(self)@.loss_due,
            final(self)@ == (EndpointView { loss_due: false, ..old(self)@ }),
    {
        let r = self.packet_loss_due;
        self.packet_loss_due = false;
        r
    }

    /// For an estimate of the packet loss: over the most recent packets sent by
    /// `sent_time_cutoff`, how many were acked, and how many that is out of.
    pub fn packet_loss_counts(&self, sent_time_cutoff: Time) -> (r: (u16, u16))
        requires
            self.wf(),
        ensures
            r == endpoint::loss_counts(
                self@.sent,
                self@.sent.sequence,
                sent_time_cutoff,
                (0, 0),
                0x1_0000,
            ),
            r.0 <= r.1 <= PACKET_LOSS_RECALCULATE_INTERVAL,
    {
        let mut num_acked: u16 = 0;
        let mut num_sampled: u16 = 0;
        let mut seq = self.sent_buffer.sequence();
        let mut left: u32 = 0x1_0000;
        loop
            invariant
                self.wf(),
                num_acked <= num_sampled < PACKET_LOSS_RECALCULATE_INTERVAL,
                endpoint::loss_counts(
                    self@.sent,
                    seq,
                    sent_time_cutoff,
                    (num_acked, num_sampled),
                    left as nat,
                ) == endpoint::loss_counts(
                    self@.sent,
                    self@.sent.sequence,
                    sent_time_cutoff,
                    (0, 0),
                    0x1_0000,
                ),
            decreases left,
        {
            if left == 0 {
                return (num_acked, num_sampled);
            }
            left = left - 1;
            match self.sent_buffer.get(seq) {
                None => {
                    return (num_acked, num_sampled);
                },
                Some(meta) => {
                    seq = seq.wrapping_sub(1);
                    if meta.time <= sent_time_cutoff {
                        num_sampled = num_sampled + 1;
                        if meta.acked() {
                            num_acked = num_acked + 1;
                        }
                        if num_sampled == PACKET_LOSS_RECALCULATE_INTERVAL {
                            return (num_acked, num_sampled);
                        }
                    }
                },
            }
        }
    }
}

/// Copies the bytes out of some buffers.
fn copy_buffers(buffers: &Vec<PooledBuffer>) -> (r: Vec<Vec<u8>>)
    ensures
        r@.map_values(|v: Vec<u8>| v@) == buffers@.map_values(|b: PooledBuffer| b@),
{
    let mut ret: Vec<Vec<u8>> = Vec::with_capacity(buffers.len());
    let mut i: usize = 0;
    while i < buffers.len()
        invariant
            i <= buffers@.len(),
            ret@.len() == i,
            forall|j: int| 0 <= j < i ==> (#[trigger] ret@[j])@ == buffers@[j]@,
        decreases buffers@.len() - i,
    {
        let mut copy: Vec<u8> = Vec::with_capacity(buffers[i].len());
        copy.extend_from_slice(buffers[i].as_slice());
        assert(copy@ =~= buffers@[i as int]@);
        ret.push(copy);
        i = i + 1;
    }
    assert(ret@.map_values(|v: Vec<u8>| v@) =~= buffers@.map_values(|b: PooledBuffer| b@));
    ret
}

/// The start of a packet of messages is short.
pub proof fn lemma_head_len(state: EndpointView, header: HeaderView)
    requires
        state.header(PacketType::Messages) == Ok::<_, PicklebackError>(header),
    ensures
        state.messages_head(header).len() <= 63,
{
    broadcast use wire::lemma_be_bytes_len;

}

} // verus!
