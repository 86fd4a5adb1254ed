//! A packet layer below messages: sends payloads, and says which of them have arrived.

pub mod buffers;
pub mod error;
pub mod headers;

use crate::sequence_buffer::{self, SequenceBuffer, Window};
use crate::time::{self, Time};
use error::ReliableError;
use headers::{HeaderParser, PacketHeader};
use std::collections::VecDeque;
use vstd::prelude::*;

verus! {

/// Tunables of an endpoint.
#[derive(Debug, Clone, Copy, PartialEq, Eq, Structural)]
pub struct EndpointConfig {
    pub max_payload_size: usize,
    pub max_packet_size: usize,
    pub sent_packets_buffer_size: usize,
    pub received_packets_buffer_size: usize,
    /// UDP over IPv4 is 20 + 8 bytes, UDP over IPv6 is 40 + 8 bytes.
    pub packet_header_size: usize,
}

impl EndpointConfig {
    /// Whether an endpoint can be run with these settings: no buffer has a size that sequence
    /// numbers cannot be reduced to.
    pub open spec fn valid(self) -> bool {
        &&& self.sent_packets_buffer_size as int % 0x1_0000 != 0
        &&& self.received_packets_buffer_size as int % 0x1_0000 != 0
    }
}

impl Default for EndpointConfig {
    fn default() -> (r: Self)
        ensures
            r == (EndpointConfig {
                max_payload_size: 1014,
                max_packet_size: 1150,
                sent_packets_buffer_size: 256,
                received_packets_buffer_size: 256,
                packet_header_size: 28,
            }),
            r.valid(),
    {
        EndpointConfig {
            max_payload_size: 1014,
            max_packet_size: 1150,
            sent_packets_buffer_size: 256,
            received_packets_buffer_size: 256,
            packet_header_size: 28,
        }
    }
}

/// What is kept of a packet that was sent.
#[derive(Debug, Clone, Copy, PartialEq, Eq, Structural)]
pub struct SentData {
    pub time: Time,
    pub acked: bool,
    pub size: usize,
}

impl SentData {
    /// A packet sent just now.
    pub fn new(time: Time, size: usize) -> (r: Self)
        ensures
            r == (SentData { time, acked: false, size }),
    {
        SentData { time, acked: false, size }
    }

    /// Whether the other side has acked the packet.
    pub fn acked(&self) -> (r: bool)
        ensures
            r == self.acked,
    {
        self.acked
    }

    /// How many bytes the packet had.
    pub fn size(&self) -> (r: usize)
        ensures
            r == self.size,
    {
        self.size
    }
}

impl Default for SentData {
    fn default() -> (r: Self)
        ensures
            r == (SentData { time: 0, acked: false, size: 0 }),
    {
        SentData { time: 0, acked: false, size: 0 }
    }
}

/// What is kept of a packet that was received.
#[derive(Debug, Clone, Copy, PartialEq, Eq, Structural)]
pub struct RecvData {
    pub time: Time,
    pub size: usize,
}

impl RecvData {
    /// A packet received just now.
    pub fn new(time: Time, size: usize) -> (r: Self)
        ensures
            r == (RecvData { time, size }),
    {
        RecvData { time, size }
    }
}

impl Default for RecvData {
    fn default() -> (r: Self)
        ensures
            r == (RecvData { time: 0, size: 0 }),
    {
        RecvData { time: 0, size: 0 }
    }
}

/// Counters kept by an endpoint. They wrap around at the end of their range.
#[derive(Debug, Clone, Copy, PartialEq, Eq, Structural)]
pub struct EndpointCounters {
    pub packets_sent: u64,
    pub packets_received: u64,
    pub packets_acked: u64,
    pub packets_stale: u64,
    pub packets_duplicate: u64,
    pub packets_invalid: u64,
    pub packets_too_large_to_send: u64,
    pub packets_too_large_to_receive: u64,
}

impl EndpointCounters {
    /// All counters at zero.
    pub open spec fn zero() -> Self {
        EndpointCounters {
            packets_sent: 0,
            packets_received: 0,
            packets_acked: 0,
            packets_stale: 0,
            packets_duplicate: 0,
            packets_invalid: 0,
            packets_too_large_to_send: 0,
            packets_too_large_to_receive: 0,
        }
    }
}

impl Default for EndpointCounters {
    fn default() -> (r: Self)
        ensures
            r == EndpointCounters::zero(),
    {
        EndpointCounters {
            packets_sent: 0,
            packets_received: 0,
            packets_acked: 0,
            packets_stale: 0,
            packets_duplicate: 0,
            packets_invalid: 0,
            packets_too_large_to_send: 0,
            packets_too_large_to_receive: 0,
        }
    }
}

/// Returned from `send`: contains the sequence number of the packet.
#[derive(Debug, Clone, Copy, PartialEq, Eq, Hash, Structural)]
pub struct SentHandle(pub u16);

/// A packet that was received, stripped of its header.
#[derive(Debug)]
pub struct ReceivedPacket {
    pub handle: SentHandle,
    pub payload: bytes::Bytes,
    /// The packets that are newly acked.
    pub acks: Vec<SentHandle>,
}

/// The state of an endpoint.
#[verifier::ext_equal]
pub struct ReliableView {
    pub time: Time,
    pub config: EndpointConfig,
    /// Sequence number of the packet sent last.
    pub sequence: u16,
    pub sent: Window<SentData>,
    pub received: Window<RecvData>,
    pub counters: EndpointCounters,
    pub outbox: Seq<Seq<u8>>,
    /// How long after they were sent packets were acked.
    pub rtt_samples: Seq<int>,
}

/// The sum of two sizes, held at the end of the range.
pub open spec fn total_size(a: nat, b: nat) -> usize {
    if a + b <= usize::MAX {
        (a + b) as usize
    } else {
        usize::MAX
    }
}

impl ReliableView {
    /// Nothing sent or received.
    pub open spec fn fresh(config: EndpointConfig, time: Time) -> Self {
        ReliableView {
            time,
            config,
            sequence: 0,
            sent: Window::fresh(config.sent_packets_buffer_size as nat),
            received: Window::fresh(config.received_packets_buffer_size as nat),
            counters: EndpointCounters::zero(),
            outbox: Seq::empty(),
            rtt_samples: Seq::empty(),
        }
    }

    /// The header of the next packet: its sequence number, and acks of the packets received most
    /// recently.
    pub open spec fn next_header(self) -> PacketHeader {
        PacketHeader {
            sequence: self.sequence.wrapping_add(1),
            ack: self.received.sequence,
            ack_bits: self.received.recent_bits(0) as u32,
        }
    }

    /// After a payload was sent, and what the caller is told.
    pub open spec fn payload_sent(self, payload: Seq<u8>) -> (Self, Result<
        SentHandle,
        ReliableError,
    >) {
        let header = self.next_header();
        let begun = ReliableView { sequence: header.sequence, ..self };
        if self.sent.too_old(header.sequence) {
            (begun, Err(ReliableError::SequenceBufferFull))
        } else {
            let data = SentData {
                time: self.time,
                acked: false,
                size: total_size(payload.len(), self.config.packet_header_size as nat),
            };
            (
                ReliableView {
                    sent: self.sent.inserted(header.sequence, data),
                    outbox: self.outbox.push(header.encoded() + payload),
                    counters: EndpointCounters {
                        packets_sent: self.counters.packets_sent.wrapping_add(1),
                        ..self.counters
                    },
                    ..begun
                },
                Ok(SentHandle(header.sequence)),
            )
        }
    }

    /// Whether an ack of `sequence` is news.
    pub open spec fn newly_acks(self, sequence: u16) -> bool {
        self.sent.lookup(sequence) matches Some(data) && !data.acked
    }

    /// After an ack of `sequence` was looked at.
    pub open spec fn ack_noted(self, sequence: u16) -> Self {
        if self.newly_acks(sequence) {
            let data = self.sent.contents[sequence];
            ReliableView {
                sent: self.sent.replaced(sequence, SentData { acked: true, ..data }),
                counters: EndpointCounters {
                    packets_acked: self.counters.packets_acked.wrapping_add(1),
                    ..self.counters
                },
                rtt_samples: self.rtt_samples.push(self.time - data.time),
                ..self
            }
        } else {
            self
        }
    }

    /// After the ack bits were looked at from number `i` on, and the packets that are newly acked,
    /// behind those in `acks`.
    pub open spec fn bits_noted(self, ack: u16, bits: nat, i: int, acks: Seq<SentHandle>) -> (
        Self,
        Seq<SentHandle>,
    )
        decreases 32 - i,
    {
        if i >= 32 {
            (self, acks)
        } else {
            let sequence = ((ack - i) % 0x1_0000) as u16;
            if bits % 2 == 1 {
                self.ack_noted(sequence).bits_noted(
                    ack,
                    bits / 2,
                    i + 1,
                    if self.newly_acks(sequence) {
                        acks.push(SentHandle(sequence))
                    } else {
                        acks
                    },
                )
            } else {
                self.bits_noted(ack, bits / 2, i + 1, acks)
            }
        }
    }

    /// After a packet was received: the state, and, unless there is something wrong with it, the
    /// sequence number, the payload and the packets that are newly acked.
    pub open spec fn packet_received(self, packet: Seq<u8>) -> (Self, Result<
        (SentHandle, Seq<u8>, Seq<SentHandle>),
        ReliableError,
    >) {
        let counted = ReliableView {
            counters: EndpointCounters {
                packets_received: self.counters.packets_received.wrapping_add(1),
                ..self.counters
            },
            ..self
        };
        match headers::parse_header(packet) {
            Err(e) => (counted, Err(e)),
            Ok((h, payload)) => if !self.received.in_range(h.sequence) {
                (
                    ReliableView {
                        counters: EndpointCounters {
                            packets_stale: self.counters.packets_stale.wrapping_add(1),
                            ..counted.counters
                        },
                        ..counted
                    },
                    Err(ReliableError::StalePacket),
                )
            } else if self.received.contents.dom().contains(h.sequence) {
                (
                    ReliableView {
                        counters: EndpointCounters {
                            packets_duplicate: self.counters.packets_duplicate.wrapping_add(1),
                            ..counted.counters
                        },
                        ..counted
                    },
                    Err(ReliableError::DuplicatePacket),
                )
            } else {
                let data = RecvData {
                    time: self.time,
                    size: total_size(self.config.packet_header_size as nat, payload.len()),
                };
                let (state, acks) = (ReliableView {
                    received: self.received.inserted(h.sequence, data),
                    ..counted
                }).bits_noted(h.ack, h.ack_bits as nat, 0, Seq::empty());
                (state, Ok((SentHandle(h.sequence), payload, acks)))
            },
        }
    }
}

/// One side of an exchange of packets.
pub struct Endpoint {
    time: Time,
    config: EndpointConfig,
    sequence: u16,
    sent_buffer: SequenceBuffer<SentData>,
    recv_buffer: SequenceBuffer<RecvData>,
    counters: EndpointCounters,
    outbox: VecDeque<bytes::Bytes>,
    rtt_samples: Vec<i128>,
}

impl View for Endpoint {
    type V = ReliableView;

    closed spec fn view(&self) -> ReliableView {
        ReliableView {
            time: self.time,
            config: self.config,
            sequence: self.sequence,
            sent: self.sent_buffer@,
            received: self.recv_buffer@,
            counters: self.counters,
            outbox: self.outbox@.map_values(|b: bytes::Bytes| buffers::bytes_contents(b)),
            rtt_samples: self.rtt_samples@.map_values(|t: i128| t as int),
        }
    }
}

impl Endpoint {
    /// The buffers can be looked up in.
    pub closed spec fn wf(&self) -> bool {
        &&& self.sent_buffer.wf()
        &&& self.sent_buffer@.modulus() != 0
        &&& self.recv_buffer.wf()
        &&& self.recv_buffer@.modulus() != 0
    }

    /// Nothing sent or received.
    pub fn new(config: EndpointConfig, time: Time) -> (r: Self)
        requires
            config.valid(),
        ensures
            r.wf(),
            r@ == ReliableView::fresh(config, time),
    {
        let r = Endpoint {
            time,
            config,
            sequence: 0,
            sent_buffer: SequenceBuffer::with_capacity(config.sent_packets_buffer_size),
            recv_buffer: SequenceBuffer::with_capacity(config.received_packets_buffer_size),
            counters: EndpointCounters::default(),
            outbox: VecDeque::new(),
            rtt_samples: Vec::new(),
        };
        assert(r@ =~= ReliableView::fresh(config, time));
        r
    }

    /// Takes the packets out of the outbox that are to be sent over the network.
    pub fn drain_packets_to_send(&mut self) -> (r: Vec<bytes::Bytes>)
        requires
            old(self).wf(),
        ensures
            final(self).wf(),
            r@.map_values(|b: bytes::Bytes| buffers::bytes_contents(b)) == old(self)@.outbox,
            final(self)@ == (ReliableView { outbox: Seq::empty(), ..old(self)@ }),
    {
        let ghost all = self.outbox@;
        let ghost contents = |b: bytes::Bytes| buffers::bytes_contents(b);
        let mut ret: Vec<bytes::Bytes> = Vec::with_capacity(self.outbox.len());
        loop
            invariant
                self.wf(),
                ret@ + self.outbox@ =~= all,
                self@ =~= (ReliableView { outbox: self@.outbox, ..old(self)@ }),
            ensures
                self.outbox@.len() == 0,
                ret@ =~= all,
            decreases self.outbox@.len(),
        {
            match self.outbox.pop_front() {
                Some(packet) => {
                    ret.push(packet);
                },
                None => {
                    break ;
                },
            }
        }
        assert(self@.outbox =~= Seq::empty());
        assert(ret@.map_values(contents) =~= old(self)@.outbox);
        ret
    }

    /// Whether there are packets to be sent.
    pub fn has_packets_to_send(&self) -> (r: bool)
        ensures
            r == (self@.outbox.len() > 0),
    {
        self.outbox.len() > 0
    }

    /// The settings passed to `new`.
    pub fn config(&self) -> (r: &EndpointConfig)
        ensures
            *r == self@.config,
    {
        &self.config
    }

    /// What is kept of a packet that was sent.
    pub fn sent_info(&self, sent_handle: SentHandle) -> (r: Option<&SentData>)
        requires
            self.wf(),
        ensures
            match r {
                Some(data) => self@.sent.lookup(sent_handle.0) == Some(*data),
                None => self@.sent.lookup(sent_handle.0) is None,
            },
    {
        self.sent_buffer.get(sent_handle.0)
    }

    /// Counters of what was sent and received.
    pub fn counters(&self) -> (r: &EndpointCounters)
        ensures
            *r == self@.counters,
    {
        &self.counters
    }

    /// Moves the clock on.
    pub fn update(&mut self, dt: Time)
        requires
            old(self).wf(),
        ensures
            final(self).wf(),
            final(self)@ == (ReliableView {
                time: time::advanced(old(self)@.time, dt),
                ..old(self)@
            }),
    {
        self.time = time::advance(self.time, dt);
    }

    /// Makes a packet of a payload by adding the header, and writes it to the outbox. The payload
    /// must fit into a packet: nothing is fragmented here. Returns a handle that holds the sequence
    /// number.
    pub fn send(&mut self, payload: bytes::Bytes) -> (r: Result<SentHandle, ReliableError>)
        requires
            old(self).wf(),
            buffers::bytes_contents(payload).len() <= old(self)@.config.max_packet_size,
            buffers::bytes_contents(payload).len() + 9 <= isize::MAX,
        ensures
            final(self).wf(),
            (final(self)@, r) == old(self)@.payload_sent(buffers::bytes_contents(payload)),
    {
        self.sequence = self.sequence.wrapping_add(1);
        let sequence = self.sequence;
        let (ack, ack_bits) = self.recv_buffer.ack_bits();
        let payload_len = buffers::remaining(&payload);
        let send_size = payload_len.saturating_add(self.config.packet_header_size);
        let sent = SentData::new(self.time, send_size);
        proof {
            self.sent_buffer@.lemma_inserted(sequence, sent);
        }
        match self.sent_buffer.insert(sequence, sent) {
            Ok(_) => {},
            Err(_) => {
                return Err(ReliableError::SequenceBufferFull);
            },
        }
        let header = PacketHeader::new(sequence, ack, ack_bits);
        let mut new_packet = buffers::with_capacity(header.size() + payload_len);
        header.write(&mut new_packet)?;
        buffers::extend_from_slice(&mut new_packet, buffers::as_slice(&payload));
        let packet = buffers::freeze(new_packet);
        assert(buffers::bytes_contents(packet) =~= header.encoded() + buffers::bytes_contents(
            payload,
        ));
        self.outbox.push_back(packet);
        self.counters.packets_sent = self.counters.packets_sent.wrapping_add(1);
        assert(self@ =~= old(self)@.payload_sent(buffers::bytes_contents(payload)).0);
        Ok(SentHandle(sequence))
    }

    /// Sends a payload if it fits into a packet. `None` says that it does not, and that nothing was
    /// done.
    pub fn try_send(&mut self, payload: bytes::Bytes) -> (r: Option<
        Result<SentHandle, ReliableError>,
    >)
        requires
            old(self).wf(),
        ensures
            final(self).wf(),
            ({
                let contents = buffers::bytes_contents(payload);
                if contents.len() <= old(self)@.config.max_packet_size && contents.len() + 9
                    <= isize::MAX {
                    &&& r is Some
                    &&& (final(self)@, r->0) == old(self)@.payload_sent(contents)
                } else {
                    r is None && final(self)@ == old(self)@
                }
            }),
    {
        let len = buffers::remaining(&payload);
        if len <= self.config.max_packet_size && len <= isize::MAX as usize - 9 {
            Some(self.send(payload))
        } else {
            None
        }
    }

    /// Give me all the packets you read from the network. You get back acks, and the received
    /// packet stripped of its header.
    pub fn receive(&mut self, packet: bytes::Bytes) -> (r: Result<ReceivedPacket, ReliableError>)
        requires
            old(self).wf(),
        ensures
            final(self).wf(),
            final(self)@ == old(self)@.packet_received(buffers::bytes_contents(packet)).0,
            match old(self)@.packet_received(buffers::bytes_contents(packet)).1 {
                Ok((handle, payload, acks)) => {
                    &&& r matches Ok(p)
                    &&& p.handle == handle
                    &&& buffers::bytes_contents(p.payload) == payload
                    &&& p.acks@ == acks
                },
                Err(e) => r matches Err(err) && err == e,
            },
    {
        let mut packet = packet;
        self.counters.packets_received = self.counters.packets_received.wrapping_add(1);
        let header = <PacketHeader as HeaderParser>::parse(&mut packet)?;
        let sequence = header.sequence();
        // if this packet sequence is out of range, reject as stale
        if !self.recv_buffer.check_sequence(sequence) {
            self.counters.packets_stale = self.counters.packets_stale.wrapping_add(1);
            return Err(ReliableError::StalePacket);
        }
        // if this packet was already received, reject as duplicate
        if self.recv_buffer.contains(sequence) {
            self.counters.packets_duplicate = self.counters.packets_duplicate.wrapping_add(1);
            return Err(ReliableError::DuplicatePacket);
        }
        let size = self.config.packet_header_size.saturating_add(buffers::remaining(&packet));
        let data = RecvData::new(self.time, size);
        proof {
            sequence_buffer::lemma_in_range_not_too_old(self.recv_buffer@, sequence);
            self.recv_buffer@.lemma_inserted(sequence, data);
        }
        match self.recv_buffer.insert(sequence, data) {
            Ok(_) => {},
            Err(_) => {
                return Err(ReliableError::SequenceBufferFull);
            },
        }
        let acks = self.process_acks(header.ack(), header.ack_bits());
        Ok(ReceivedPacket { handle: SentHandle(sequence), payload: packet, acks })
    }

    /// Walks the ack bits and acks anything not acked already, and collects the handles.
    fn process_acks(&mut self, ack: u16, ack_bits: u32) -> (r: Vec<SentHandle>)
        requires
            old(self).wf(),
        ensures
            final(self).wf(),
            (final(self)@, r@) == old(self)@.bits_noted(ack, ack_bits as nat, 0, Seq::empty()),
    {
        let mut bits = ack_bits;
        let mut new_acks: Vec<SentHandle> = Vec::new();
        let mut i: u16 = 0;
        while i < 32
            invariant
                self.wf(),
                i <= 32,
                self@.bits_noted(ack, bits as nat, i as int, new_acks@) == old(self)@.bits_noted(
                    ack,
                    ack_bits as nat,
                    0,
                    Seq::empty(),
                ),
            decreases 32 - i,
        {
            if bits % 2 == 1 {
                let ack_sequence = ack.wrapping_sub(i);
                if self.process_ack(ack_sequence) {
                    new_acks.push(SentHandle(ack_sequence));
                }
            }
            bits = bits / 2;
            i = i + 1;
        }
        new_acks
    }

    /// Notes that a packet was acked. Returns whether that is news.
    fn process_ack(&mut self, ack_sequence: u16) -> (r: bool)
        requires
            old(self).wf(),
        ensures
            final(self).wf(),
            r == old(self)@.newly_acks(ack_sequence),
            final(self)@ == old(self)@.ack_noted(ack_sequence),
    {
        let sent_data = match self.sent_buffer.get_mut(ack_sequence) {
            None => {
                return false;
            },
            Some(data) => {
                let before = *data;
                data.acked = true;
                before
            },
        };
        if sent_data.acked {
            assert(self.sent_buffer@ =~= old(self).sent_buffer@);
            return false;
        }
        self.counters.packets_acked = self.counters.packets_acked.wrapping_add(1);
        self.rtt_samples.push(time::elapsed(self.time, sent_data.time));
        assert(self@ =~= old(self)@.ack_noted(ack_sequence));
        true
    }

    /// Takes out how long packets took to be acked, in nanoseconds, for an estimate of the round
    /// trip time. Call this regularly.
    pub fn take_rtt_samples(&mut self) -> (r: Vec<i128>)
        requires
            old(self).wf(),
        ensures
            final(self).wf(),
            r@.map_values(|t: i128| t as int) == old(self)@.rtt_samples,
            final(self)@ == (ReliableView { rtt_samples: Seq::empty(), ..old(self)@ }),
    {
        let mut r: Vec<i128> = Vec::new();
        std::mem::swap(&mut r, &mut self.rtt_samples);
        assert(self@.rtt_samples =~= Seq::empty());
        r
    }
}

/// A packet that was sent is received with the payload that it was sent with, at any endpoint that
/// has not received it yet. Packets that are shorter than a header can be are refused.
pub proof fn lemma_payload_arrives(sender: ReliableView, receiver: ReliableView, payload: Seq<u8>)
    requires
        sender.payload_sent(payload).1 is Ok,
        receiver.received.in_range(sender.next_header().sequence),
        receiver.received.lookup(sender.next_header().sequence) is None,
        sender.next_header().encoded().len() + payload.len() >= (if sender.next_header().difference()
            <= 255 {
            7int
        } else {
            8
        }),
    ensures
        ({
            let packet = sender.payload_sent(payload).0.outbox.last();
            receiver.packet_received(packet).1 matches Ok((handle, received, _)) && Ok::<
                _,
                ReliableError,
            >(handle) == sender.payload_sent(payload).1 && received == payload
        }),
{
    headers::lemma_parse_header(sender.next_header(), payload);
}

proof fn lemma_bits_keep_received(e: ReliableView, ack: u16, bits: nat, i: int, acks: Seq<SentHandle>)
    ensures
        e.bits_noted(ack, bits, i, acks).0.received == e.received,
    decreases 32 - i,
{
    if i < 32 {
        let sequence = ((ack - i) % 0x1_0000) as u16;
        let more = if e.newly_acks(sequence) {
            acks.push(SentHandle(sequence))
        } else {
            acks
        };
        lemma_bits_keep_received(e.ack_noted(sequence), ack, bits / 2, i + 1, more);
        lemma_bits_keep_received(e, ack, bits / 2, i + 1, acks);
    }
}

/// A packet with a number that was received already is refused, and changes nothing but the
/// counters.
pub proof fn lemma_duplicate_refused(e: ReliableView, packet: Seq<u8>)
    requires
        headers::parse_header(packet) matches Ok((h, _)) && e.received.in_range(h.sequence)
            && e.received.lookup(h.sequence) is Some,
    ensures
        e.packet_received(packet).1 == Err::<(SentHandle, Seq<u8>, Seq<SentHandle>), _>(
            ReliableError::DuplicatePacket,
        ),
        e.packet_received(packet).0 == (ReliableView {
            counters: e.packet_received(packet).0.counters,
            ..e
        }),
{
}

/// A packet that is received is noted, so that it counts as a duplicate if it comes again.
pub proof fn lemma_received_noted(e: ReliableView, packet: Seq<u8>)
    requires
        e.packet_received(packet).1 is Ok,
    ensures
        headers::parse_header(packet) matches Ok((h, _)) && e.packet_received(
            packet,
        ).0.received.lookup(h.sequence) is Some,
        0 < e.received.size < 0x8000 ==> (headers::parse_header(packet) matches Ok((h, _))
            && e.packet_received(packet).0.received.in_range(h.sequence)),
{
    let (h, payload) = headers::parse_header(packet)->Ok_0;
    let data = RecvData {
        time: e.time,
        size: total_size(e.config.packet_header_size as nat, payload.len()),
    };
    let noted = ReliableView {
        received: e.received.inserted(h.sequence, data),
        counters: EndpointCounters {
            packets_received: e.counters.packets_received.wrapping_add(1),
            ..e.counters
        },
        ..e
    };
    e.received.lemma_inserted(h.sequence, data);
    lemma_bits_keep_received(noted, h.ack, h.ack_bits as nat, 0, Seq::empty());
}

/// A header acks exactly those of the last 32 packets that were received.
pub proof fn lemma_header_acks(e: ReliableView, i: nat)
    requires
        i < 32,
    ensures
        sequence_buffer::nth_bit(e.next_header().ack_bits as nat, i) == (e.received.lookup(
            ((e.received.sequence - i) % 0x1_0000) as u16,
        ) is Some),
        e.next_header().ack == e.received.sequence,
{
    e.received.lemma_recent_bits(i);
}

proof fn lemma_acked_stays(
    e: ReliableView,
    ack: u16,
    bits: nat,
    i: int,
    acks: Seq<SentHandle>,
    sequence: u16,
)
    requires
        e.sent.lookup(sequence) matches Some(data) && data.acked,
    ensures
        e.bits_noted(ack, bits, i, acks).0.sent.lookup(sequence) matches Some(data) && data.acked,
    decreases 32 - i,
{
    if i < 32 {
        let other = ((ack - i) % 0x1_0000) as u16;
        let more = if e.newly_acks(other) {
            acks.push(SentHandle(other))
        } else {
            acks
        };
        lemma_acked_stays(e.ack_noted(other), ack, bits / 2, i + 1, more, sequence);
        lemma_acked_stays(e, ack, bits / 2, i + 1, acks, sequence);
    }
}

/// Every packet that a header acks, and that is still known, is acked once the bits of the header
/// from number `from` on were looked at.
pub proof fn lemma_bits_ack(
    e: ReliableView,
    ack: u16,
    bits: nat,
    from: int,
    acks: Seq<SentHandle>,
    i: nat,
)
    requires
        0 <= from,
        from + i < 32,
        sequence_buffer::nth_bit(bits, i),
        e.sent.lookup(((ack - (from + i)) % 0x1_0000) as u16) is Some,
    ensures
        e.bits_noted(ack, bits, from, acks).0.sent.lookup(
            ((ack - (from + i)) % 0x1_0000) as u16,
        ) matches Some(data) && data.acked,
    decreases i,
{
    let other = ((ack - from) % 0x1_0000) as u16;
    let more = if e.newly_acks(other) {
        acks.push(SentHandle(other))
    } else {
        acks
    };
    if i == 0 {
        lemma_acked_stays(e.ack_noted(other), ack, bits / 2, from + 1, more, other);
    } else {
        let rest = (i - 1) as nat;
        assert(from + i == from + 1 + rest);
        lemma_bits_ack(e.ack_noted(other), ack, bits / 2, from + 1, more, rest);
        lemma_bits_ack(e, ack, bits / 2, from + 1, acks, rest);
    }
}

/// Whether the bits of an ack header, from number `from` on, ack packet `sequence`.
pub open spec fn bit_acks(ack: u16, bits: nat, from: int, sequence: u16) -> bool {
    let back = (ack - sequence) % 0x1_0000;
    from <= back < 32 && sequence_buffer::nth_bit(bits, (back - from) as nat)
}

/// Looking at the bits of an ack header marks just those packets as acked that it acks, and leaves
/// all others alone. Of those that were not acked before, each is told, behind what was told
/// before, and no others are.
pub proof fn lemma_bits_exact(
    e: ReliableView,
    ack: u16,
    bits: nat,
    from: int,
    acks: Seq<SentHandle>,
)
    requires
        0 <= from <= 32,
    ensures
        ({
            let (next, told) = e.bits_noted(ack, bits, from, acks);
            &&& acks.is_prefix_of(told)
            &&& forall|s: u16|
                !bit_acks(ack, bits, from, s) ==> #[trigger] next.sent.lookup(s) == e.sent.lookup(s)
            &&& forall|s: u16|
                bit_acks(ack, bits, from, s) ==> (e.sent.lookup(s) matches Some(data)
                    ==> #[trigger] next.sent.lookup(s) == Some(SentData { acked: true, ..data }))
            &&& forall|s: u16| #[trigger]
                e.sent.lookup(s) is None ==> next.sent.lookup(s) is None
            &&& forall|j: int|
                acks.len() <= j < told.len() ==> e.newly_acks((#[trigger] told[j]).0) && bit_acks(
                    ack,
                    bits,
                    from,
                    told[j].0,
                )
            &&& forall|s: u16|
                bit_acks(ack, bits, from, s) && #[trigger] e.newly_acks(s) ==> told.contains(
                    SentHandle(s),
                )
            &&& next.received == e.received
            &&& next.sequence == e.sequence
            &&& next.outbox == e.outbox
            &&& next.time == e.time
            &&& next.rtt_samples.len() - e.rtt_samples.len() == told.len() - acks.len()
            &&& e.rtt_samples.is_prefix_of(next.rtt_samples)
        }),
    decreases 32 - from,
{
    if from < 32 {
        let here = ((ack - from) % 0x1_0000) as u16;
        assert((ack - here) % 0x1_0000 == from);
        let set = bits % 2 == 1;
        let mid = if set {
            e.ack_noted(here)
        } else {
            e
        };
        let more = if set && e.newly_acks(here) {
            acks.push(SentHandle(here))
        } else {
            acks
        };
        lemma_bits_exact(mid, ack, bits / 2, from + 1, more);
        let (next, told) = e.bits_noted(ack, bits, from, acks);
        assert forall|s: u16| s != here implies #[trigger] bit_acks(ack, bits, from, s) == bit_acks(
            ack,
            bits / 2,
            from + 1,
            s,
        ) by {
            let back = (ack - s) % 0x1_0000;
            if back == from {
                lemma_same_number(ack, s, here);
            }
        }
        assert(bit_acks(ack, bits, from, here) == set);
        assert(!bit_acks(ack, bits / 2, from + 1, here));
        assert forall|s: u16| bit_acks(ack, bits, from, s) && #[trigger] e.newly_acks(
            s,
        ) implies told.contains(SentHandle(s)) by {
            if s == here {
                assert(more.last() == SentHandle(here));
                assert(told[more.len() - 1] == more[more.len() - 1]);
            } else {
                assert(bit_acks(ack, bits / 2, from + 1, s));
                assert(mid.newly_acks(s));
            }
        }
        assert forall|j: int| acks.len() <= j < told.len() implies e.newly_acks(
            (#[trigger] told[j]).0,
        ) && bit_acks(ack, bits, from, told[j].0) by {
            if j < more.len() {
                assert(told[j] == more[j]);
            } else {
                assert(mid.newly_acks(told[j].0));
                assert(told[j].0 != here);
            }
        }
    }
}

proof fn lemma_same_number(ack: u16, a: u16, b: u16)
    requires
        (ack - a) % 0x1_0000 == (ack - b) % 0x1_0000,
    ensures
        a == b,
{
}

/// What sending a payload does: the packet goes out behind all others, with the number that the
/// caller is told, and is kept in mind as not acked. This works as long as numbers are in order.
pub proof fn lemma_payload_goes_out(e: ReliableView, payload: Seq<u8>)
    requires
        e.sequence == e.sent.sequence,
        e.sent.size < 0x7fff,
    ensures
        ({
            let (next, result) = e.payload_sent(payload);
            let sequence = e.sequence.wrapping_add(1);
            &&& result == Ok::<_, ReliableError>(SentHandle(sequence))
            &&& next.sequence == sequence
            &&& next.sent.sequence == sequence
            &&& next.outbox.len() == e.outbox.len() + 1
            &&& e.outbox.is_prefix_of(next.outbox)
            &&& next.outbox.last().len() >= payload.len()
            &&& next.outbox.last().skip(next.outbox.last().len() - payload.len()) == payload
            &&& next.sent.lookup(sequence) matches Some(data) && !data.acked && data.time == e.time
                && (payload.len() + e.config.packet_header_size <= usize::MAX ==> data.size
                == payload.len() + e.config.packet_header_size)
            &&& next.counters == EndpointCounters {
                packets_sent: e.counters.packets_sent.wrapping_add(1),
                ..e.counters
            }
            &&& next.received == e.received
            &&& next.rtt_samples == e.rtt_samples
            &&& next.time == e.time
        }),
{
    let sequence = e.sequence.wrapping_add(1);
    let header = e.next_header().encoded();
    e.sent.lemma_inserted(
        sequence,
        SentData {
            time: e.time,
            acked: false,
            size: total_size(payload.len(), e.config.packet_header_size as nat),
        },
    );
    assert((header + payload).skip(header.len() as int) =~= payload);
}

/// What receiving a packet does. One that cannot be read, is too old, or was received before is
/// refused and counted, and changes nothing else. Any other one is noted, and what its header acks
/// is told.
pub proof fn lemma_packet_outcome(e: ReliableView, packet: Seq<u8>)
    ensures
        ({
            let (next, result) = e.packet_received(packet);
            &&& next.counters.packets_received == e.counters.packets_received.wrapping_add(1)
            &&& result is Err ==> next == ReliableView { counters: next.counters, ..e }
            &&& headers::parse_header(packet) matches Err(x) ==> result == Err::<
                (SentHandle, Seq<u8>, Seq<SentHandle>),
                _,
            >(x)
            &&& headers::parse_header(packet) matches Ok((h, payload)) ==> {
                let stale = !e.received.in_range(h.sequence);
                let known = e.received.lookup(h.sequence) is Some;
                &&& result is Ok <==> !stale && !known
                &&& stale ==> next.counters.packets_stale == e.counters.packets_stale.wrapping_add(1)
                &&& !stale && known ==> next.counters.packets_duplicate
                    == e.counters.packets_duplicate.wrapping_add(1)
                &&& result matches Ok((handle, received, told)) ==> {
                    &&& handle == SentHandle(h.sequence)
                    &&& received == payload
                    &&& next.received.lookup(h.sequence) matches Some(data) && data.time == e.time
                    &&& forall|s: u16| #[trigger]
                        told.contains(SentHandle(s)) <==> e.newly_acks(s) && bit_acks(
                            h.ack,
                            h.ack_bits as nat,
                            0,
                            s,
                        )
                    &&& forall|s: u16| #[trigger]
                        e.newly_acks(s) && bit_acks(h.ack, h.ack_bits as nat, 0, s) ==> (
                        next.sent.lookup(s) matches Some(data) && data.acked)
                    &&& forall|s: u16|
                        !bit_acks(h.ack, h.ack_bits as nat, 0, s) ==> #[trigger] next.sent.lookup(s)
                            == e.sent.lookup(s)
                    &&& next.outbox == e.outbox
                    &&& next.sequence == e.sequence
                }
            }
        }),
{
    if let Ok((h, payload)) = headers::parse_header(packet) {
        if e.packet_received(packet).1 is Ok {
            let data = RecvData {
                time: e.time,
                size: total_size(e.config.packet_header_size as nat, payload.len()),
            };
            let noted = ReliableView {
                received: e.received.inserted(h.sequence, data),
                counters: EndpointCounters {
                    packets_received: e.counters.packets_received.wrapping_add(1),
                    ..e.counters
                },
                ..e
            };
            e.received.lemma_inserted(h.sequence, data);
            lemma_bits_exact(noted, h.ack, h.ack_bits as nat, 0, Seq::empty());
            lemma_bits_count(noted, h.ack, h.ack_bits as nat, 0, Seq::empty());
            let told = e.packet_received(packet).1->Ok_0.2;
            assert forall|s: u16| #[trigger] told.contains(SentHandle(s)) implies e.newly_acks(s)
                && bit_acks(h.ack, h.ack_bits as nat, 0, s) by {
                let j = told.index_of(SentHandle(s));
                assert(noted.newly_acks(told[j].0));
            }
            assert forall|s: u16| e.newly_acks(s) && bit_acks(
                h.ack,
                h.ack_bits as nat,
                0,
                s,
            ) implies #[trigger] told.contains(SentHandle(s)) by {
                assert(noted.newly_acks(s));
            }
        }
    }
}

proof fn lemma_bits_count(e: ReliableView, ack: u16, bits: nat, from: int, acks: Seq<SentHandle>)
    ensures
        e.bits_noted(ack, bits, from, acks).0.counters.packets_received
            == e.counters.packets_received,
    decreases 32 - from,
{
    if from < 32 {
        let here = ((ack - from) % 0x1_0000) as u16;
        let more = if e.newly_acks(here) {
            acks.push(SentHandle(here))
        } else {
            acks
        };
        lemma_bits_count(e.ack_noted(here), ack, bits / 2, from + 1, more);
        lemma_bits_count(e, ack, bits / 2, from + 1, acks);
    }
}

} // verus!
