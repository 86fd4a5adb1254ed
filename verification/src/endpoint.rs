//! The state of an endpoint, and what each operation makes of it.

use crate::channel::{self, ChannelView};
use crate::config::ConfigView;
use crate::cursor::LimitedOutput;
use crate::dispatcher::{DispatcherView, MessageHandle};
use crate::error::{Backpressure, IoError, PicklebackError};
use crate::protocol::ack_header::{self, MAX_UNACKED_PACKETS};
use crate::protocol::message::{self, MessageView};
use crate::protocol::packets::{HeaderView, PacketBody, PacketType, PacketView};
use crate::sequence_buffer::{self, Window};
use crate::time::{self, Time};
use crate::wire;
use crate::{
    PacketId, PicklebackStats, ReceivedMeta, SentMeta, MAX_CHANNELS, PACKET_LOSS_RECALCULATE_INTERVAL,
};
use vstd::prelude::*;

verus! {

/// The state of an endpoint.
#[verifier::ext_equal]
pub struct EndpointView {
    pub time: Time,
    pub config: ConfigView,
    /// Sequence number of the packet begun last.
    pub sequence_id: u16,
    /// The most recent of the packets sent here that was acked.
    pub newest_ack: Option<u16>,
    /// Up to where the other side has seen the acks sent here.
    pub ack_low_watermark: Option<PacketId>,
    pub dispatcher: DispatcherView,
    pub channels: Map<u8, ChannelView>,
    pub sent: Window<SentMeta>,
    pub received: Window<ReceivedMeta>,
    pub stats: PicklebackStats,
    /// The packets to be sent.
    pub outbox: Seq<Seq<u8>>,
    pub xor_salt: Option<u64>,
    /// How long after they were sent packets were acked, the ones acked last at the end.
    pub rtt_samples: Seq<int>,
    /// Whether the packet loss is due to be worked out anew.
    pub loss_due: bool,
}

/// What came of an operation: the state after it, and what the caller is told.
pub struct Outcome {
    pub state: EndpointView,
    pub result: Result<(), PicklebackError>,
}

/// The channels are found under their ids, and all their messages can be sent.
pub open spec fn channels_wf(channels: Map<u8, ChannelView>) -> bool {
    forall|k: u8| #[trigger]
        channels.contains_key(k) ==> channels[k].wf() && channels[k].id == k && k < MAX_CHANNELS
}

/// A packet being filled with messages.
#[verifier::ext_equal]
pub struct Filling {
    pub channels: Map<u8, ChannelView>,
    pub out: LimitedOutput,
    /// The messages in the packet.
    pub handles: Seq<MessageHandle>,
}

impl Filling {
    /// With message number `i` of channel `id` written to the packet.
    pub open spec fn with_message(self, id: u8, i: int) -> Self {
        let c = self.channels[id];
        let m = c.queue[i].message;
        Filling {
            channels: self.channels.insert(id, c.sent(i)),
            out: self.out.after(m.bytes),
            handles: self.handles.push(
                MessageHandle {
                    id: m.id,
                    frag_index: match m.fragment {
                        Some(f) => Some(f.index),
                        None => None,
                    },
                    channel: id,
                },
            ),
        }
    }

    /// With messages of channel `id` written to the packet, each time the first one that is ready
    /// and fits, until none does or next to no room is left.
    pub open spec fn with_channel(self, id: u8) -> Self
        decreases self.out.room,
        when channels_wf(self.channels) && self.channels.contains_key(id)
    {
        proof {
            self.channels[id].lemma_first_fit(self.out.room, 0);
        }
        match self.channels[id].first_fit(self.out.room, 0) {
            None => self,
            Some(i) => {
                let next = self.with_message(id, i);
                if next.out.room < 3 {
                    next
                } else {
                    next.with_channel(id)
                }
            },
        }
    }

    /// Filled with messages, each time from the lowest channel that has one ready.
    pub open spec fn filled(self) -> Self
        decreases self.out.room,
        when channels_wf(self.channels)
    {
        match channel::first_ready(self.channels, 0) {
            None => self,
            Some(id) => {
                let next = self.with_channel(id);
                if next.handles.len() == self.handles.len() || next.out.room < 3 {
                    next
                } else {
                    proof {
                        channel::lemma_first_ready(self.channels, 0);
                        self.lemma_with_channel(id);
                    }
                    next.filled()
                }
            },
        }
    }

    /// Writing a message that was picked takes up room, and leaves the channels sound.
    pub proof fn lemma_with_message(self, id: u8)
        requires
            channels_wf(self.channels),
            self.channels.contains_key(id),
            self.channels[id].first_fit(self.out.room, 0) is Some,
        ensures
            ({
                let i = self.channels[id].first_fit(self.out.room, 0)->0;
                let next = self.with_message(id, i);
                &&& 0 <= i < self.channels[id].queue.len()
                &&& self.channels[id].queue[i].message.bytes.len() <= self.out.room
                &&& next.out.room < self.out.room
                &&& channels_wf(next.channels)
                &&& next.channels.dom() == self.channels.dom()
            }),
    {
        let c = self.channels[id];
        c.lemma_first_fit(self.out.room, 0);
        let i = c.first_fit(self.out.room, 0)->0;
        let next = self.with_message(id, i);
        assert(c.sent(i).wf()) by {
            assert forall|j: int| 0 <= j < c.sent(i).queue.len() implies (
            #[trigger] c.sent(i).queue[j]).message.wf() && c.sent(i).queue[j].message.bytes.len()
                > 0 by {
                if c.reliable || j < i {
                    assert(c.sent(i).queue[j].message == c.queue[j].message);
                } else {
                    assert(c.sent(i).queue[j].message == c.queue[j + 1].message);
                }
            }
        }
        assert(next.channels.dom() =~= self.channels.dom());
    }

    /// Writing messages of a channel leaves the channels sound, and takes up room if there are
    /// any.
    pub proof fn lemma_with_channel(self, id: u8)
        requires
            channels_wf(self.channels),
            self.channels.contains_key(id),
        ensures
            ({
                let next = self.with_channel(id);
                &&& channels_wf(next.channels)
                &&& next.channels.dom() == self.channels.dom()
                &&& next.out.room <= self.out.room
                &&& next.handles.len() >= self.handles.len()
                &&& next.handles.len() > self.handles.len() ==> next.out.room < self.out.room
            }),
        decreases self.out.room,
    {
        if let Some(i) = self.channels[id].first_fit(self.out.room, 0) {
            self.lemma_with_message(id);
            let next = self.with_message(id, i);
            if next.out.room >= 3 {
                next.lemma_with_channel(id);
            }
        }
    }
}

/// How many of the `n` most recent sequence numbers are of packets received that were not empty.
pub open spec fn non_empty(received: Window<ReceivedMeta>, n: nat) -> nat
    decreases n,
{
    if n == 0 {
        0
    } else {
        let id = ((received.sequence - (n - 1)) % 0x1_0000) as u16;
        non_empty(received, (n - 1) as nat) + match received.lookup(id) {
            Some(meta) if !meta.empty => 1nat,
            _ => 0,
        }
    }
}

/// The higher of two watermarks, where there is one already.
pub open spec fn raised(mark: Option<PacketId>, to: PacketId) -> Option<PacketId> {
    match mark {
        Some(low) => if sequence_buffer::seq_gt(to.0, low.0) {
            Some(to)
        } else {
            Some(low)
        },
        None => Some(to),
    }
}

impl EndpointView {
    /// The channels are sound, the buffers can be looked up in, and what is kept of the packets sent
    /// and of the messages in them goes up to the same packet.
    pub open spec fn wf(self) -> bool {
        &&& channels_wf(self.channels)
        &&& self.sent.modulus() != 0
        &&& self.received.modulus() != 0
        &&& self.dispatcher.packets.modulus() != 0
        &&& self.dispatcher.packets.sequence == self.sent.sequence
        &&& self.dispatcher.wf()
    }

    /// How many packets were sent since the most recent one that was acked.
    pub open spec fn sent_unacked(self) -> u16 {
        self.sent.sequence.wrapping_sub(
            match self.newest_ack {
                Some(n) => n,
                None => 0,
            },
        )
    }

    /// How many packets were received that the other side may not have seen an ack of.
    pub open spec fn received_unacked(self) -> u16 {
        match self.ack_low_watermark {
            Some(low) => self.received.sequence.wrapping_sub(low.0),
            None => self.received.sequence,
        }
    }

    /// The same, but not counting keep alives and packets of no messages. Whether a packet is sent
    /// just for acks does not go by this, but by `received_unacked`.
    pub open spec fn received_unacked_non_empty(self) -> nat {
        non_empty(self.received, self.received_unacked() as nat)
    }

    /// With the clock moved on.
    pub open spec fn updated(self, dt: Time) -> Self {
        EndpointView {
            time: time::advanced(self.time, dt),
            channels: channel::all_updated(self.channels, dt),
            ..self
        }
    }

    /// Once the header of the next packet was begun.
    pub open spec fn next_begun(self) -> Self {
        EndpointView { sequence_id: self.sequence_id.wrapping_add(1), ..self }
    }

    /// The header of the packet begun last. There is none while more packets would have to be
    /// acked than it can hold.
    pub open spec fn header(self, packet_type: PacketType) -> Result<HeaderView, PicklebackError> {
        let num_acks = self.received_unacked();
        if num_acks > MAX_UNACKED_PACKETS {
            Err(PicklebackError::Backpressure(Backpressure::TooManyPending))
        } else {
            Ok(
                HeaderView::with_acks(
                    PacketId(self.sequence_id),
                    ack_header::acks_of(self.received, ((num_acks + 6) / 7 * 7) as nat),
                    num_acks,
                    packet_type,
                ),
            )
        }
    }

    /// The start of a packet of messages.
    pub open spec fn messages_head(self, header: HeaderView) -> Seq<u8> {
        header.encoded() + wire::be_bytes(self.xor_salt->0 as nat, 8)
    }

    /// After a whole packet was put into the outbox, and noted as sent. Until it is told otherwise,
    /// no messages are in it.
    pub open spec fn packet_sent(self, packet: Seq<u8>) -> Outcome {
        if self.sent.too_old(self.sequence_id) {
            Outcome { state: self, result: Err(PicklebackError::SequenceTooOld) }
        } else {
            let meta = SentMeta {
                time: self.time,
                acked: false,
                size: if packet.len() + self.config.packet_header_size <= usize::MAX {
                    (packet.len() + self.config.packet_header_size) as usize
                } else {
                    usize::MAX
                },
                acked_up_to: PacketId(self.received.sequence),
            };
            Outcome {
                state: EndpointView {
                    sent: self.sent.inserted(self.sequence_id, meta),
                    dispatcher: self.dispatcher.passed(PacketId(self.sequence_id)),
                    outbox: self.outbox.push(packet),
                    stats: PicklebackStats {
                        packets_sent: self.stats.packets_sent.wrapping_add(1),
                        ..self.stats
                    },
                    ..self
                },
                result: Ok(()),
            }
        }
    }

    /// After the messages in the packet sent last were noted.
    pub open spec fn contents_noted(self, handles: Seq<MessageHandle>) -> Outcome {
        if self.dispatcher.packets.too_old(self.sequence_id) {
            Outcome { state: self, result: Err(PicklebackError::SequenceTooOld) }
        } else {
            Outcome {
                state: EndpointView {
                    dispatcher: DispatcherView {
                        packets: self.dispatcher.packets.inserted(self.sequence_id, handles),
                        ..self.dispatcher
                    },
                    ..self
                },
                result: Ok(()),
            }
        }
    }

    /// However many packets without messages went before, the messages in a packet that is the
    /// newest one can be noted.
    pub proof fn lemma_contents_noted(self, packet: Seq<u8>, handles: Seq<MessageHandle>)
        requires
            self.wf(),
            self.packet_sent(packet).result is Ok,
            sequence_buffer::seq_gt(self.sequence_id, self.sent.sequence),
            self.dispatcher.packets.size < 0x8000,
        ensures
            ({
                let noted = self.packet_sent(packet).state.contents_noted(handles);
                &&& noted.result is Ok
                &&& noted.state.dispatcher.packets.lookup(self.sequence_id) == Some(handles)
            }),
    {
        let packets = self.dispatcher.packets;
        packets.lemma_advanced(self.sequence_id);
        packets.lemma_advanced_inserted(self.sequence_id, handles);
        packets.lemma_inserted(self.sequence_id, handles);
    }

    /// After one packet was filled with messages and sent.
    #[verifier::opaque]
    pub open spec fn packet_composed(self) -> Outcome {
        let begun = self.next_begun();
        if self.sent_unacked() >= MAX_UNACKED_PACKETS {
            Outcome {
                state: self,
                result: Err(PicklebackError::Backpressure(Backpressure::TooManyPending)),
            }
        } else {
            match begun.header(PacketType::Messages) {
                Err(e) => Outcome { state: begun, result: Err(e) },
                Ok(header) => {
                    let head = begun.messages_head(header);
                    let max = self.config.max_packet_size;
                    if head.len() > max {
                        Outcome {
                            state: begun,
                            result: Err(PicklebackError::Io(IoError::WriteZero)),
                        }
                    } else {
                        let packet = (Filling {
                            channels: begun.channels,
                            out: LimitedOutput { out: head, room: (max - head.len()) as nat },
                            handles: Seq::empty(),
                        }).filled();
                        let n = packet.handles.len();
                        let filled = EndpointView {
                            channels: packet.channels,
                            stats: PicklebackStats {
                                messages_sent: ((begun.stats.messages_sent + n)
                                    % 0x1_0000_0000_0000_0000) as u64,
                                ..begun.stats
                            },
                            ..begun
                        };
                        let sent = filled.packet_sent(packet.out.out);
                        if sent.result is Err {
                            sent
                        } else {
                            sent.state.contents_noted(packet.handles)
                        }
                    }
                },
            }
        }
    }

    /// After a packet other than one of messages was written and sent.
    pub open spec fn protocol_sent(self, packet: PacketView) -> Outcome {
        if packet.encoded().len() > self.config.max_packet_size {
            Outcome { state: self, result: Err(PicklebackError::Io(IoError::WriteZero)) }
        } else {
            self.packet_sent(packet.encoded())
        }
    }

    /// After a packet with the next header was written and sent.
    pub open spec fn next_sent(self, body: PacketBody) -> Outcome {
        let begun = self.next_begun();
        match begun.header(body.packet_type()) {
            Err(e) => Outcome { state: begun, result: Err(e) },
            Ok(header) => begun.protocol_sent(PacketView { header, body }),
        }
    }

    /// How far the sequence number of the next packet is behind the most recent packet sent.
    pub open spec fn sequence_lag(self) -> int {
        (self.sent.sequence - self.sequence_id) % 0x1_0000
    }

    /// Sending a packet with the next sequence number catches up with the most recent one, or is
    /// one more that is unacked.
    proof fn lemma_lag(sent: u16, id: u16, acked: u16)
        requires
            sent.wrapping_sub(acked) < MAX_UNACKED_PACKETS,
        ensures
            ({
                let next_id = id.wrapping_add(1);
                let next = if sequence_buffer::seq_gt(next_id, sent) {
                    next_id
                } else {
                    sent
                };
                let (lag, next_lag) = (
                    (sent - id) % 0x1_0000,
                    (next - next_id) % 0x1_0000,
                );
                0 <= next_lag < lag || (next_lag == lag && next.wrapping_sub(acked)
                    == sent.wrapping_sub(acked) + 1)
            }),
    {
    }

    /// Sending a packet catches up with the most recent packet sent, or gets closer to the number
    /// that may be unacked.
    pub proof fn lemma_packet_composed(self)
        requires
            self.wf(),
            self.packet_composed().result is Ok,
        ensures
            ({
                let next = self.packet_composed().state;
                &&& next.wf()
                &&& next.sequence_lag() < self.sequence_lag() || (next.sequence_lag()
                    == self.sequence_lag() && next.sent_unacked() == self.sent_unacked() + 1)
                &&& next.channels.dom() == self.channels.dom()
                &&& next.xor_salt == self.xor_salt
                &&& next.outbox.len() == self.outbox.len() + 1
                &&& next.config == self.config
                &&& self.sent_unacked() < MAX_UNACKED_PACKETS
            }),
    {
        reveal(EndpointView::packet_composed);
        let begun = self.next_begun();
        let header = begun.header(PacketType::Messages)->Ok_0;
        let head = begun.messages_head(header);
        let start = Filling {
            channels: begun.channels,
            out: LimitedOutput {
                out: head,
                room: (self.config.max_packet_size - head.len()) as nat,
            },
            handles: Seq::empty(),
        };
        lemma_filled(start);
        let next = self.packet_composed().state;
        let meta = SentMeta {
            time: self.time,
            acked: false,
            size: if start.filled().out.out.len() + self.config.packet_header_size <= usize::MAX {
                (start.filled().out.out.len() + self.config.packet_header_size) as usize
            } else {
                usize::MAX
            },
            acked_up_to: PacketId(self.received.sequence),
        };
        self.sent.lemma_inserted(begun.sequence_id, meta);
        Self::lemma_lag(
            self.sent.sequence,
            self.sequence_id,
            match self.newest_ack {
                Some(n) => n,
                None => 0,
            },
        );
        self.dispatcher.packets.lemma_inserted(begun.sequence_id, start.filled().handles);
        self.dispatcher.packets.lemma_advanced_inserted(
            begun.sequence_id,
            start.filled().handles,
        );
        assert(next.sent == self.sent.inserted(begun.sequence_id, meta));
    }

    /// After all messages that are ready were sent, in as many packets as it takes. Stops at the
    /// first packet that cannot be sent.
    pub open spec fn messages_composed(self) -> Outcome
        decreases self.sequence_lag(), MAX_UNACKED_PACKETS - self.sent_unacked(),
        when self.wf()
    {
        if channel::first_ready(self.channels, 0) is None {
            Outcome { state: self, result: Ok(()) }
        } else {
            let next = self.packet_composed();
            if next.result is Err {
                next
            } else {
                proof {
                    self.lemma_packet_composed();
                }
                next.state.messages_composed()
            }
        }
    }

    /// After a packet without messages was sent, which still carries acks.
    pub open spec fn empty_sent(self) -> Outcome {
        let begun = self.next_begun();
        if self.sent_unacked() >= MAX_UNACKED_PACKETS {
            Outcome {
                state: self,
                result: Err(PicklebackError::Backpressure(Backpressure::TooManyPending)),
            }
        } else {
            match begun.header(PacketType::Messages) {
                Err(e) => Outcome { state: begun, result: Err(e) },
                Ok(header) => begun.packet_sent(begun.messages_head(header)),
            }
        }
    }

    /// After everything that is to be sent now was put into the outbox: the messages that are
    /// ready or, failing those, a packet just for the acks that the other side has not seen yet.
    pub open spec fn composed(self) -> Outcome {
        if self.sent_unacked() >= MAX_UNACKED_PACKETS {
            Outcome {
                state: self,
                result: Err(PicklebackError::Backpressure(Backpressure::TooManyPending)),
            }
        } else {
            let sent = self.messages_composed();
            if sent.result is Ok && sent.state.outbox.len() == self.outbox.len()
                && sent.state.received_unacked() > 0 && sent.state.xor_salt is Some {
                sent.state.empty_sent()
            } else {
                sent
            }
        }
    }

    /// After everything that is to be sent now was composed and taken out of the outbox: the state
    /// then, the packets, and what went wrong. Backpressure is no failure here; after anything else
    /// the packets stay in the outbox.
    pub open spec fn drained(self) -> (Self, Seq<Seq<u8>>, Option<PicklebackError>) {
        let c = self.composed();
        match c.result {
            Err(e) if !(e is Backpressure) => (c.state, Seq::empty(), Some(e)),
            _ => (EndpointView { outbox: Seq::empty(), ..c.state }, c.state.outbox, None),
        }
    }

    /// Whether the packets to be sent can be composed: the salt that goes into packets of messages
    /// is known, or there are no messages to send.
    pub open spec fn can_compose(self) -> bool {
        self.xor_salt is Some || channel::first_ready(self.channels, 0) is None
    }

    /// Sending the messages that are ready leaves the state sound, and settings and salt alone.
    pub proof fn lemma_messages_composed(self)
        requires
            self.wf(),
        ensures
            ({
                let next = self.messages_composed().state;
                &&& next.wf()
                &&& next.xor_salt == self.xor_salt
                &&& next.config == self.config
                &&& next.channels.dom() == self.channels.dom()
                &&& next.outbox.len() >= self.outbox.len()
            }),
        decreases self.sequence_lag(), MAX_UNACKED_PACKETS - self.sent_unacked(),
    {
        if channel::first_ready(self.channels, 0) is Some {
            if self.packet_composed().result is Ok {
                self.lemma_packet_composed();
                self.packet_composed().state.lemma_messages_composed();
            } else {
                self.lemma_packet_failed();
            }
        }
    }

    /// A packet that could not be sent leaves the state sound, and settings and salt alone.
    pub proof fn lemma_packet_failed(self)
        requires
            self.wf(),
            self.packet_composed().result is Err,
        ensures
            ({
                let next = self.packet_composed().state;
                &&& next.wf()
                &&& next.xor_salt == self.xor_salt
                &&& next.config == self.config
                &&& next.channels.dom() == self.channels.dom()
                &&& next.outbox.len() >= self.outbox.len()
            }),
    {
        reveal(EndpointView::packet_composed);
        let begun = self.next_begun();
        if self.sent_unacked() < MAX_UNACKED_PACKETS && begun.header(PacketType::Messages) is Ok {
            let head = begun.messages_head(begun.header(PacketType::Messages)->Ok_0);
            if head.len() <= self.config.max_packet_size {
                let packet = Filling {
                    channels: begun.channels,
                    out: LimitedOutput {
                        out: head,
                        room: (self.config.max_packet_size - head.len()) as nat,
                    },
                    handles: Seq::empty(),
                };
                lemma_filled(packet);
                let filled = packet.filled();
                let size = filled.out.out.len() + self.config.packet_header_size;
                begun.sent.lemma_inserted(
                    begun.sequence_id,
                    SentMeta {
                        time: self.time,
                        acked: false,
                        size: if size <= usize::MAX {
                            size as usize
                        } else {
                            usize::MAX
                        },
                        acked_up_to: PacketId(self.received.sequence),
                    },
                );
                begun.dispatcher.packets.lemma_advanced_inserted(begun.sequence_id, Seq::empty());
            }
        }
    }

    /// Composing the packets to be sent leaves the state sound, settings and salt alone, and more
    /// packets composable.
    pub proof fn lemma_composed(self)
        requires
            self.wf(),
        ensures
            ({
                let next = self.composed().state;
                &&& next.wf()
                &&& next.xor_salt == self.xor_salt
                &&& next.config == self.config
                &&& next.channels.dom() == self.channels.dom()
                &&& self.can_compose() ==> next.can_compose()
            }),
    {
        self.lemma_messages_composed();
        let sent = self.messages_composed().state;
        let begun = sent.next_begun();
        if let Ok(header) = begun.header(PacketType::Messages) {
            let size = begun.messages_head(header).len() + self.config.packet_header_size;
            begun.sent.lemma_inserted(
                begun.sequence_id,
                SentMeta {
                    time: begun.time,
                    acked: false,
                    size: if size <= usize::MAX {
                        size as usize
                    } else {
                        usize::MAX
                    },
                    acked_up_to: PacketId(begun.received.sequence),
                },
            );
            begun.dispatcher.packets.lemma_advanced_inserted(begun.sequence_id, Seq::empty());
        }
    }

    /// An endpoint that has no messages in any channel has none to send.
    pub proof fn lemma_no_messages(self)
        requires
            self.wf(),
            forall|k: u8| #[trigger]
                self.channels.contains_key(k) ==> self.channels[k].queue.len() == 0,
        ensures
            channel::first_ready(self.channels, 0) is None,
            self.can_compose(),
            self.composed().state.channels == self.channels,
    {
        channel::lemma_first_ready(self.channels, 0);
    }

    /// After the caller asked for a message to be sent.
    pub open spec fn message_sent(self, channel: u8, payload: Seq<u8>) -> (Self, Result<
        crate::MessageId,
        PicklebackError,
    >) {
        let counted = EndpointView {
            stats: PicklebackStats {
                message_sends: self.stats.message_sends.wrapping_add(1),
                ..self.stats
            },
            ..self
        };
        if payload.len() > self.config.max_message_size {
            (self, Err(PicklebackError::PayloadTooBig))
        } else if self.sent_unacked() >= MAX_UNACKED_PACKETS {
            (self, Err(PicklebackError::Backpressure(Backpressure::TooManyPending)))
        } else if !self.channels.contains_key(channel) {
            (counted, Err(PicklebackError::NoSuchChannel))
        } else {
            let (dispatcher, c, result) = self.dispatcher.sent(self.channels[channel], payload);
            (
                EndpointView {
                    dispatcher,
                    channels: self.channels.insert(channel, c),
                    ..counted
                },
                result,
            )
        }
    }

    /// After one entry of an ack header was looked at. An ack that is new is noted, and passed on
    /// to the messages in the packet.
    pub open spec fn ack_noted(self, entry: (u16, bool)) -> Self {
        let (sequence, acked) = entry;
        match self.sent.lookup(sequence) {
            Some(meta) if acked && !meta.acked => EndpointView {
                newest_ack: match self.newest_ack {
                    Some(n) if !sequence_buffer::seq_gt(sequence, n) => Some(n),
                    _ => Some(sequence),
                },
                ack_low_watermark: raised(self.ack_low_watermark, meta.acked_up_to),
                stats: PicklebackStats {
                    packets_acked: self.stats.packets_acked.wrapping_add(1),
                    ..self.stats
                },
                sent: self.sent.replaced(sequence, SentMeta { acked: true, ..meta }),
                dispatcher: self.dispatcher.after_ack(PacketId(sequence), self.channels),
                channels: self.dispatcher.acked(PacketId(sequence), self.channels).channels,
                rtt_samples: self.rtt_samples.push(self.time - meta.time),
                ..self
            },
            _ => self,
        }
    }

    /// After the first `n` entries of an ack header were looked at.
    pub open spec fn acks_noted(
        self,
        entries: Seq<(u16, bool)>,
        n: int,
    ) -> Self
        decreases n,
    {
        if n <= 0 {
            self
        } else {
            self.acks_noted(entries, n - 1).ack_noted(entries[n - 1])
        }
    }

    /// After the ack header of a packet, if it has one, was looked at.
    pub open spec fn header_noted(self, header: HeaderView) -> Self {
        match header.ack {
            None => self,
            Some(ack) => {
                let noted = self.acks_noted(
                    ack.entries(),
                    ack.entries().len() as int,
                );
                EndpointView {
                    loss_due: noted.loss_due || noted.sequence_id % PACKET_LOSS_RECALCULATE_INTERVAL
                        == 0,
                    ..noted
                }
            },
        }
    }

    /// After message `m` was received: its channel says whether it is wanted. One for a channel
    /// that does not exist is dropped.
    pub open spec fn message_received(self, m: MessageView) -> Self {
        let counted = EndpointView {
            stats: PicklebackStats {
                messages_received: self.stats.messages_received.wrapping_add(1),
                ..self.stats
            },
            ..self
        };
        if self.channels.contains_key(m.channel) && self.channels[m.channel].accepts(m.id) {
            EndpointView {
                channels: self.channels.insert(
                    m.channel,
                    self.channels[m.channel].received(m.id),
                ),
                dispatcher: self.dispatcher.received(m),
                ..counted
            }
        } else {
            counted
        }
    }

    /// After all messages in `s` were received. Stops at the first one that cannot be read.
    pub open spec fn messages_received(self, s: Seq<u8>) -> Outcome
        decreases s.len(),
    {
        if s.len() == 0 {
            Outcome { state: self, result: Ok(()) }
        } else {
            match message::parse_message(s) {
                Err(e) => Outcome { state: self, result: Err(e) },
                Ok((m, rest)) => {
                    proof {
                        message::lemma_parse_consumes(s);
                    }
                    self.message_received(m).messages_received(rest)
                },
            }
        }
    }

    /// What is kept of a packet that is received, with `rest` behind what was read of it.
    pub open spec fn received_meta(self, header: HeaderView, rest: Seq<u8>) -> ReceivedMeta {
        let len = self.config.packet_header_size + header.encoded().len() + rest.len();
        ReceivedMeta {
            time: self.time,
            size: if len <= usize::MAX {
                len as usize
            } else {
                usize::MAX
            },
            empty: header.packet_type == PacketType::KeepAlive || (header.packet_type
                == PacketType::Messages && rest.len() == 0),
        }
    }

    /// After a packet was received, with `rest` behind what was read of it. One that is too old,
    /// or was received before, changes nothing but the counters.
    pub open spec fn packet_received(self, header: HeaderView, rest: Seq<u8>) -> Outcome {
        let counted = EndpointView {
            stats: PicklebackStats {
                packets_received: self.stats.packets_received.wrapping_add(1),
                ..self.stats
            },
            ..self
        };
        let id = header.id.0;
        if !self.received.in_range(id) {
            Outcome {
                state: EndpointView {
                    stats: PicklebackStats {
                        packets_stale: self.stats.packets_stale.wrapping_add(1),
                        ..counted.stats
                    },
                    ..counted
                },
                result: Err(PicklebackError::StalePacket),
            }
        } else if self.received.contents.dom().contains(id) {
            Outcome {
                state: EndpointView {
                    stats: PicklebackStats {
                        packets_duplicate: self.stats.packets_duplicate.wrapping_add(1),
                        ..counted.stats
                    },
                    ..counted
                },
                result: Err(PicklebackError::DuplicatePacket),
            }
        } else {
            let noted = (EndpointView {
                received: counted.received.inserted(id, self.received_meta(header, rest)),
                ..counted
            }).header_noted(header);
            if header.packet_type == PacketType::Messages {
                noted.messages_received(rest)
            } else {
                Outcome { state: noted, result: Ok(()) }
            }
        }
    }
}

/// Filling a packet leaves the channels sound.
pub proof fn lemma_filled(packet: Filling)
    requires
        channels_wf(packet.channels),
    ensures
        channels_wf(packet.filled().channels),
        packet.filled().channels.dom() == packet.channels.dom(),
        packet.filled().handles.len() >= packet.handles.len(),
    decreases packet.out.room,
{
    if let Some(id) = channel::first_ready(packet.channels, 0) {
        channel::lemma_first_ready(packet.channels, 0);
        packet.lemma_with_channel(id);
        let next = packet.with_channel(id);
        if !(next.handles.len() == packet.handles.len() || next.out.room < 3) {
            lemma_filled(next);
        }
    }
}

/// Over the packets sent, from number `seq` back, as long as they are known: how many of those
/// sent by `cutoff` were acked, out of how many that were looked at.
pub open spec fn loss_counts(
    sent: Window<SentMeta>,
    seq: u16,
    cutoff: Time,
    counts: (u16, u16),
    left: nat,
) -> (u16, u16)
    decreases left,
{
    match sent.lookup(seq) {
        Some(meta) if left > 0 => {
            let next = if meta.time > cutoff {
                counts
            } else {
                (
                    if meta.acked {
                        (counts.0 + 1) as u16
                    } else {
                        counts.0
                    },
                    (counts.1 + 1) as u16,
                )
            };
            if next.1 >= PACKET_LOSS_RECALCULATE_INTERVAL {
                next
            } else {
                loss_counts(sent, seq.wrapping_sub(1), cutoff, next, (left - 1) as nat)
            }
        },
        _ => counts,
    }
}

impl EndpointView {
    proof fn lemma_acks_noted(self, entries: Seq<(u16, bool)>, n: int)
        ensures
            self.acks_noted(entries, n).xor_salt == self.xor_salt,
            self.acks_noted(entries, n).config == self.config,
        decreases n,
    {
        if n > 0 {
            self.lemma_acks_noted(entries, n - 1);
        }
    }

    proof fn lemma_messages_received(self, s: Seq<u8>)
        ensures
            self.messages_received(s).state.xor_salt == self.xor_salt,
            self.messages_received(s).state.config == self.config,
        decreases s.len(),
    {
        if s.len() > 0 {
            if let Ok((m, rest)) = message::parse_message(s) {
                message::lemma_parse_consumes(s);
                self.message_received(m).lemma_messages_received(rest);
            }
        }
    }

    /// Receiving a packet leaves settings and salt alone.
    pub proof fn lemma_packet_received(self, header: HeaderView, rest: Seq<u8>)
        ensures
            self.packet_received(header, rest).state.xor_salt == self.xor_salt,
            self.packet_received(header, rest).state.config == self.config,
    {
        let counted = EndpointView {
            stats: PicklebackStats {
                packets_received: self.stats.packets_received.wrapping_add(1),
                ..self.stats
            },
            received: self.received.inserted(header.id.0, self.received_meta(header, rest)),
            ..self
        };
        if let Some(ack) = header.ack {
            counted.lemma_acks_noted(
                ack.entries(),
                ack.entries().len() as int,
            );
        }
        counted.header_noted(header).lemma_messages_received(rest);
    }
}

} // verus!
