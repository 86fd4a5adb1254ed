//! What holds between two endpoints: messages that are put into a packet are read from it at the
//! other end, and are acked once the acks have come back.

use crate::channel::{self, ChannelView, Queued};
use crate::config::ConfigView;
use crate::dispatcher::{self, AckProgress, DispatcherView, MessageHandle};
use crate::endpoint::{self, EndpointView, Filling, Outcome};
use crate::error::PicklebackError;
use crate::message_reassembler::{self, Parts};
use crate::pickleback;
use crate::protocol::ack_header::{self, MAX_UNACKED_PACKETS};
use crate::protocol::message::{self, MessageView, FRAGMENT_SIZE};
use crate::protocol::packets::{self, HeaderView, PacketBody, PacketType, PacketView};
use crate::received_message::{self, ReceivedView};
use crate::time::Time;
use crate::{MessageId, PacketId, PicklebackStats, SentMeta, MAX_CHANNELS, MAX_FRAGMENTS};
use vstd::prelude::*;

verus! {

/// Whether `m` is `payload` as it is sent on a channel.
pub open spec fn carries(m: MessageView, channel: u8, payload: Seq<u8>) -> bool {
    &&& channel < MAX_CHANNELS
    &&& message::sendable(payload.len(), m.fragment)
    &&& m.fragment matches Some(f) ==> f.parent_id == MessageId(m.id.0.wrapping_sub(f.index))
    &&& m == message::outbound(m.id, channel, payload, m.fragment)
}

/// Whether `m` is some payload as it is sent on a channel.
pub open spec fn genuine(m: MessageView, channel: u8) -> bool {
    exists|payload: Seq<u8>| carries(m, channel, payload)
}

/// Whether all messages that a channel is to send are genuine.
pub open spec fn genuine_channel(c: ChannelView) -> bool {
    forall|i: int| 0 <= i < c.queue.len() ==> genuine((#[trigger] c.queue[i]).message, c.id)
}

/// Whether all messages that are to be sent are genuine.
pub open spec fn genuine_channels(channels: Map<u8, ChannelView>) -> bool {
    forall|k: u8| #[trigger] channels.contains_key(k) ==> genuine_channel(channels[k])
}

/// A message as it is read at the other end.
#[verifier::opaque]
pub open spec fn arrival(m: MessageView) -> MessageView {
    message::parse_message(m.bytes)->Ok_0.0
}

/// The bytes of messages, one after the other.
pub open spec fn joined_bytes(ms: Seq<MessageView>) -> Seq<u8>
    decreases ms.len(),
{
    if ms.len() == 0 {
        Seq::empty()
    } else {
        ms[0].bytes + joined_bytes(ms.skip(1))
    }
}

/// Says which message was put into a packet.
pub open spec fn handle_of(m: MessageView) -> MessageHandle {
    MessageHandle {
        id: m.id,
        frag_index: match m.fragment {
            Some(f) => Some(f.index),
            None => None,
        },
        channel: m.channel,
    }
}

/// Says which messages were put into a packet.
pub open spec fn handles_of(ms: Seq<MessageView>) -> Seq<MessageHandle> {
    ms.map_values(|m: MessageView| handle_of(m))
}

impl Filling {
    /// The messages of channel `id` that are written to the packet.
    pub open spec fn picked_from(self, id: u8) -> Seq<MessageView>
        decreases self.out.room,
        when endpoint::channels_wf(self.channels) && self.channels.contains_key(id)
    {
        proof {
            self.channels[id].lemma_first_fit(self.out.room, 0);
        }
        match self.channels[id].first_fit(self.out.room, 0) {
            None => Seq::empty(),
            Some(i) => {
                let first = seq![self.channels[id].queue[i].message];
                let next = self.with_message(id, i);
                if next.out.room < 3 {
                    first
                } else {
                    first + next.picked_from(id)
                }
            },
        }
    }

    /// The messages that are written to the packet.
    pub open spec fn picked(self) -> Seq<MessageView>
        decreases self.out.room,
        when endpoint::channels_wf(self.channels)
    {
        match channel::first_ready(self.channels, 0) {
            None => Seq::empty(),
            Some(id) => {
                let first = self.picked_from(id);
                let next = self.with_channel(id);
                if next.handles.len() == self.handles.len() || next.out.room < 3 {
                    first
                } else {
                    proof {
                        channel::lemma_first_ready(self.channels, 0);
                        self.lemma_with_channel(id);
                    }
                    first + next.picked()
                }
            },
        }
    }
}

impl EndpointView {
    /// After all of `ms` were received.
    pub open spec fn all_received(self, ms: Seq<MessageView>) -> Self
        decreases ms.len(),
    {
        if ms.len() == 0 {
            self
        } else {
            self.message_received(arrival(ms[0])).all_received(ms.skip(1))
        }
    }

    /// The packet that is filled with messages when the next one is composed.
    pub open spec fn next_filling(self) -> Filling {
        let begun = self.next_begun();
        let head = begun.messages_head(begun.header(PacketType::Messages)->Ok_0);
        Filling {
            channels: self.channels,
            out: crate::cursor::LimitedOutput {
                out: head,
                room: (self.config.max_packet_size - head.len()) as nat,
            },
            handles: Seq::empty(),
        }
    }
}

/// A genuine message is read as it was sent, wherever it stands.
pub proof fn lemma_arrival(m: MessageView, channel: u8, payload: Seq<u8>, rest: Seq<u8>)
    requires
        carries(m, channel, payload),
    ensures
        arrival(m) == (MessageView { bytes: payload, ..m }),
        message::parse_message(m.bytes + rest) == Ok::<_, PicklebackError>((arrival(m), rest)),
        m.bytes.len() > 0,
{
    reveal(arrival);
    message::lemma_parse_message(m.id, channel, payload, m.fragment, rest);
    message::lemma_parse_message(m.id, channel, payload, m.fragment, Seq::empty());
    message::lemma_outbound_len(m.id, channel, payload, m.fragment);
    assert(m.bytes + Seq::<u8>::empty() =~= m.bytes);
}

/// Messages that follow one another are all received, one by one.
pub proof fn lemma_messages_read(e: EndpointView, ms: Seq<MessageView>)
    requires
        forall|i: int| 0 <= i < ms.len() ==> genuine(#[trigger] ms[i], ms[i].channel),
    ensures
        e.messages_received(joined_bytes(ms)) == (Outcome {
            state: e.all_received(ms),
            result: Ok(()),
        }),
    decreases ms.len(),
{
    if ms.len() > 0 {
        let m = ms[0];
        assert(genuine(m, m.channel));
        let payload = choose|payload: Seq<u8>| carries(m, m.channel, payload);
        lemma_arrival(m, m.channel, payload, joined_bytes(ms.skip(1)));
        assert forall|i: int| 0 <= i < ms.skip(1).len() implies genuine(
            #[trigger] ms.skip(1)[i],
            ms.skip(1)[i].channel,
        ) by {
            assert(genuine(ms[i + 1], ms[i + 1].channel));
        }
        lemma_messages_read(e.message_received(arrival(m)), ms.skip(1));
    }
}

proof fn lemma_joined_bytes(a: Seq<MessageView>, b: Seq<MessageView>)
    ensures
        joined_bytes(a + b) == joined_bytes(a) + joined_bytes(b),
    decreases a.len(),
{
    if a.len() == 0 {
        assert(a + b =~= b);
        assert(joined_bytes(a) + joined_bytes(b) =~= joined_bytes(b));
    } else {
        lemma_joined_bytes(a.skip(1), b);
        assert((a + b).skip(1) =~= a.skip(1) + b);
        assert(joined_bytes(a + b) =~= joined_bytes(a) + joined_bytes(b));
    }
}

proof fn lemma_joined_one(m: MessageView)
    ensures
        joined_bytes(seq![m]) == m.bytes,
{
    reveal_with_fuel(joined_bytes, 2);
    assert(seq![m].skip(1) =~= Seq::empty());
    assert(m.bytes + Seq::<u8>::empty() =~= m.bytes);
}

/// What filling a packet does, for the messages `ms` that it puts in.
pub open spec fn fills(before: Filling, after: Filling, ms: Seq<MessageView>) -> bool {
    &&& after.out.out == before.out.out + joined_bytes(ms)
    &&& after.out.room + joined_bytes(ms).len() == before.out.room
    &&& after.handles == before.handles + handles_of(ms)
    &&& genuine_channels(after.channels)
    &&& after.channels.dom() == before.channels.dom()
    &&& forall|i: int|
        0 <= i < ms.len() ==> genuine(#[trigger] ms[i], ms[i].channel)
            && before.channels.contains_key(ms[i].channel)
}

proof fn lemma_fills_chain(a: Filling, b: Filling, c: Filling, ms: Seq<MessageView>, ns: Seq<
    MessageView,
>)
    requires
        fills(a, b, ms),
        fills(b, c, ns),
    ensures
        fills(a, c, ms + ns),
{
    lemma_joined_bytes(ms, ns);
    assert(handles_of(ms + ns) =~= handles_of(ms) + handles_of(ns));
    assert(c.out.out =~= a.out.out + joined_bytes(ms + ns));
    assert(c.handles =~= a.handles + handles_of(ms + ns));
    assert forall|i: int| 0 <= i < (ms + ns).len() implies genuine(
        #[trigger] (ms + ns)[i],
        (ms + ns)[i].channel,
    ) && a.channels.contains_key((ms + ns)[i].channel) by {
        if i < ms.len() {
            assert(genuine(ms[i], ms[i].channel));
        } else {
            assert(genuine(ns[i - ms.len()], ns[i - ms.len()].channel));
            assert(b.channels.dom().contains(ns[i - ms.len()].channel));
        }
    }
}

proof fn lemma_with_message_fills(f: Filling, id: u8)
    requires
        endpoint::channels_wf(f.channels),
        genuine_channels(f.channels),
        f.channels.contains_key(id),
        f.channels[id].first_fit(f.out.room, 0) is Some,
    ensures
        ({
            let i = f.channels[id].first_fit(f.out.room, 0)->0;
            fills(f, f.with_message(id, i), seq![f.channels[id].queue[i].message])
        }),
{
    f.lemma_with_message(id);
    let c = f.channels[id];
    let i = c.first_fit(f.out.room, 0)->0;
    let m = c.queue[i].message;
    let next = f.with_message(id, i);
    lemma_joined_one(m);
    assert(genuine(m, id));
    assert(m.channel == id);
    f.out.lemma_after(m.bytes, Seq::empty());
    assert(handles_of(seq![m]) =~= seq![handle_of(m)]);
    assert(next.handles =~= f.handles + handles_of(seq![m]));
    assert forall|k: u8| #[trigger] next.channels.contains_key(k) implies genuine_channel(
        next.channels[k],
    ) by {
        if k == id {
            let s = c.sent(i);
            assert forall|j: int| 0 <= j < s.queue.len() implies genuine(
                (#[trigger] s.queue[j]).message,
                s.id,
            ) by {
                if c.reliable || j < i {
                    assert(genuine(c.queue[j].message, c.id));
                } else {
                    assert(genuine(c.queue[j + 1].message, c.id));
                }
            }
        } else {
            assert(f.channels.contains_key(k));
        }
    }
}

proof fn lemma_with_channel_fills(f: Filling, id: u8)
    requires
        endpoint::channels_wf(f.channels),
        genuine_channels(f.channels),
        f.channels.contains_key(id),
    ensures
        fills(f, f.with_channel(id), f.picked_from(id)),
    decreases f.out.room,
{
    match f.channels[id].first_fit(f.out.room, 0) {
        None => {
            assert(f.out.out =~= f.out.out + joined_bytes(Seq::empty()));
            assert(f.handles =~= f.handles + handles_of(Seq::empty()));
        },
        Some(i) => {
            f.lemma_with_message(id);
            lemma_with_message_fills(f, id);
            let next = f.with_message(id, i);
            if next.out.room >= 3 {
                lemma_with_channel_fills(next, id);
                lemma_fills_chain(
                    f,
                    next,
                    next.with_channel(id),
                    seq![f.channels[id].queue[i].message],
                    next.picked_from(id),
                );
            }
        },
    }
}

/// Filling a packet writes the messages that are picked, one after the other, and notes which
/// they are.
pub proof fn lemma_filled_with(f: Filling)
    requires
        endpoint::channels_wf(f.channels),
        genuine_channels(f.channels),
    ensures
        fills(f, f.filled(), f.picked()),
    decreases f.out.room,
{
    match channel::first_ready(f.channels, 0) {
        None => {
            assert(f.out.out =~= f.out.out + joined_bytes(Seq::empty()));
            assert(f.handles =~= f.handles + handles_of(Seq::empty()));
        },
        Some(id) => {
            channel::lemma_first_ready(f.channels, 0);
            f.lemma_with_channel(id);
            lemma_with_channel_fills(f, id);
            let next = f.with_channel(id);
            if !(next.handles.len() == f.handles.len() || next.out.room < 3) {
                lemma_filled_with(next);
                lemma_fills_chain(f, next, next.filled(), f.picked_from(id), next.picked());
            }
        },
    }
}

/// The headers that an endpoint writes can be read back, and ack the packets received most
/// recently.
pub proof fn lemma_header(e: EndpointView, packet_type: PacketType)
    ensures
        match e.header(packet_type) {
            Ok(header) => {
                &&& header.packet_type == packet_type
                &&& header.id == PacketId(e.sequence_id)
                &&& header.ack is Some <==> e.received_unacked() > 0
                &&& header.ack matches Some(ack) ==> ack.canonical() && ack.entries()
                    == ack_header::acks_of(
                    e.received,
                    ((e.received_unacked() + 6) / 7 * 7) as nat,
                )
            },
            Err(_) => e.received_unacked() > MAX_UNACKED_PACKETS,
        },
{
    let n = e.received_unacked();
    let acks = ack_header::acks_of(e.received, ((n + 6) / 7 * 7) as nat);
    if 0 < n <= MAX_UNACKED_PACKETS {
        ack_header::lemma_ack_field_canonical(n as int, acks);
        assert(acks[0].0 == e.received.sequence);
        assert forall|i: int| 0 <= i < acks.len() implies (#[trigger] acks[i]).0 == (acks[0].0 - i)
            % 0x1_0000 by {}
        ack_header::lemma_entries_of_acks(n as int, acks);
    }
}

/// A packet that is composed holds the messages that were picked for it: read at the other end, it
/// gives back its header, the salt and the bytes of those messages. The sender keeps a note of
/// which messages went out in it.
pub proof fn lemma_packet_holds(e: EndpointView, xor_salt: u64)
    requires
        e.wf(),
        genuine_channels(e.channels),
        e.xor_salt == Some(xor_salt),
        e.packet_composed().result is Ok,
    ensures
        ({
            let next = e.packet_composed().state;
            let header = e.next_begun().header(PacketType::Messages)->Ok_0;
            let ms = e.next_filling().picked();
            &&& next.outbox == e.outbox.push(next.outbox.last())
            &&& packets::parse_packet(next.outbox.last()) == Ok::<_, PicklebackError>(
                (
                    PacketView { header, body: PacketBody::Messages { xor_salt } },
                    joined_bytes(ms),
                ),
            )
            &&& next.outbox.last().len() <= e.config.max_packet_size
            &&& header.id == PacketId(next.sequence_id)
            &&& next.sequence_id == e.next_begun().sequence_id
            &&& header.packet_type == PacketType::Messages
            &&& next.dispatcher.packets.lookup(next.sequence_id) == Some(handles_of(ms))
            &&& next.sent.lookup(next.sequence_id) matches Some(meta) && !meta.acked
            &&& genuine_channels(next.channels)
            &&& forall|i: int|
                0 <= i < ms.len() ==> genuine(#[trigger] ms[i], ms[i].channel)
                    && e.channels.contains_key(ms[i].channel)
        }),
{
    reveal(EndpointView::packet_composed);
    let begun = e.next_begun();
    lemma_header(begun, PacketType::Messages);
    let header = begun.header(PacketType::Messages)->Ok_0;
    let start = e.next_filling();
    lemma_filled_with(start);
    let ms = start.picked();
    let next = e.packet_composed().state;
    packets::lemma_parse_messages(header, xor_salt, joined_bytes(ms));
    assert(start.filled().handles =~= handles_of(ms));
    let size = start.filled().out.out.len() + e.config.packet_header_size;
    let meta = SentMeta {
        time: e.time,
        acked: false,
        size: if size <= usize::MAX {
            size as usize
        } else {
            usize::MAX
        },
        acked_up_to: PacketId(e.received.sequence),
    };
    e.sent.lemma_inserted(begun.sequence_id, meta);
    e.dispatcher.packets.lemma_inserted(begun.sequence_id, handles_of(ms));
    e.dispatcher.packets.lemma_advanced_inserted(begun.sequence_id, handles_of(ms));
    assert(next.sent == e.sent.inserted(begun.sequence_id, meta));
}

impl EndpointView {
    /// After a packet was counted, its number noted, and its ack header looked at.
    pub open spec fn packet_noted(self, header: HeaderView, rest: Seq<u8>) -> Self {
        (EndpointView {
            stats: PicklebackStats {
                packets_received: self.stats.packets_received.wrapping_add(1),
                ..self.stats
            },
            received: self.received.inserted(header.id.0, self.received_meta(header, rest)),
            ..self
        }).header_noted(header)
    }
}

/// The messages of a packet that arrives for the first time are all received, one by one.
pub proof fn lemma_packet_read(e: EndpointView, header: HeaderView, ms: Seq<MessageView>)
    requires
        header.packet_type == PacketType::Messages,
        e.received.in_range(header.id.0),
        e.received.lookup(header.id.0) is None,
        forall|i: int| 0 <= i < ms.len() ==> genuine(#[trigger] ms[i], ms[i].channel),
    ensures
        e.packet_received(header, joined_bytes(ms)) == (Outcome {
            state: e.packet_noted(header, joined_bytes(ms)).all_received(ms),
            result: Ok(()),
        }),
{
    lemma_messages_read(e.packet_noted(header, joined_bytes(ms)), ms);
}

/// A packet of messages that arrives for the first time, at any endpoint, has all of its messages
/// received there, in the order in which they were put in.
pub proof fn lemma_packet_delivered(sender: EndpointView, receiver: EndpointView, xor_salt: u64)
    requires
        sender.wf(),
        genuine_channels(sender.channels),
        sender.xor_salt == Some(xor_salt),
        sender.packet_composed().result is Ok,
        receiver.received.in_range(sender.next_begun().sequence_id),
        receiver.received.lookup(sender.next_begun().sequence_id) is None,
    ensures
        ({
            let bytes = sender.packet_composed().state.outbox.last();
            let ms = sender.next_filling().picked();
            let (packet, rest) = packets::parse_packet(bytes)->Ok_0;
            &&& packets::parse_packet(bytes) is Ok
            &&& packet.body == PacketBody::Messages { xor_salt }
            &&& receiver.packet_received(packet.header, rest) == (Outcome {
                state: receiver.packet_noted(packet.header, rest).all_received(ms),
                result: Ok(()),
            })
        }),
{
    lemma_packet_holds(sender, xor_salt);
    let header = sender.next_begun().header(PacketType::Messages)->Ok_0;
    lemma_packet_read(receiver, header, sender.next_filling().picked());
}

/// A message that is not a fragment, and that its channel accepts, is handed to the consumer with
/// the id, the channel and the payload that it was sent with. The channel does not accept it again
/// right after.
pub proof fn lemma_message_delivered(
    e: EndpointView,
    m: MessageView,
    channel: u8,
    payload: Seq<u8>,
)
    requires
        carries(m, channel, payload),
        m.fragment is None,
        e.channels.contains_key(channel),
        e.channels[channel].accepts(m.id),
    ensures
        ({
            let next = e.message_received(arrival(m));
            &&& next.dispatcher.messages == e.dispatcher.messages.insert(
                channel,
                e.dispatcher.messages[channel].push(ReceivedView { id: m.id, channel, payload }),
            )
            &&& !next.channels[channel].accepts(m.id)
        }),
{
    lemma_arrival(m, channel, payload, Seq::empty());
    e.channels[channel].lemma_accepts_once(m.id);
}

/// A message that its channel does not accept is counted, and changes nothing else.
pub proof fn lemma_message_refused(e: EndpointView, m: MessageView)
    requires
        e.channels.contains_key(m.channel) ==> !e.channels[m.channel].accepts(m.id),
    ensures
        e.message_received(m) == (EndpointView {
            stats: PicklebackStats {
                messages_received: e.stats.messages_received.wrapping_add(1),
                ..e.stats
            },
            ..e
        }),
{
}

proof fn lemma_all_received_split(e: EndpointView, ms: Seq<MessageView>, n: int)
    requires
        0 <= n <= ms.len(),
    ensures
        e.all_received(ms) == e.all_received(ms.take(n)).all_received(ms.skip(n)),
    decreases ms.len(),
{
    if n == 0 {
        assert(ms.skip(0) =~= ms);
        assert(ms.take(0) =~= Seq::empty());
    } else {
        lemma_all_received_split(e.message_received(arrival(ms[0])), ms.skip(1), n - 1);
        assert(ms.take(n).skip(1) =~= ms.skip(1).take(n - 1));
        assert(ms.skip(1).skip(n - 1) =~= ms.skip(n));
    }
}

proof fn lemma_all_received_keeps(e: EndpointView, ms: Seq<MessageView>, channel: u8)
    requires
        e.dispatcher.messages.contains_key(channel),
    ensures
        e.dispatcher.messages[channel].is_prefix_of(
            e.all_received(ms).dispatcher.messages[channel],
        ),
        e.all_received(ms).dispatcher.messages.contains_key(channel),
    decreases ms.len(),
{
    if ms.len() > 0 {
        let next = e.message_received(arrival(ms[0]));
        assert(e.dispatcher.messages[channel].is_prefix_of(next.dispatcher.messages[channel]));
        lemma_all_received_keeps(next, ms.skip(1), channel);
    }
}

/// Whatever else is in a packet: a message in it that is not a fragment, and that its channel
/// accepts when its turn comes, is handed to the consumer with the id, the channel and the payload
/// that it was sent with, and so are all that were handed to the consumer before.
pub proof fn lemma_message_in_packet_delivered(
    e: EndpointView,
    ms: Seq<MessageView>,
    i: int,
    channel: u8,
    payload: Seq<u8>,
)
    requires
        0 <= i < ms.len(),
        carries(ms[i], channel, payload),
        ms[i].fragment is None,
        e.dispatcher.messages.contains_key(channel),
        e.all_received(ms.take(i)).channels.contains_key(channel),
        e.all_received(ms.take(i)).channels[channel].accepts(ms[i].id),
    ensures
        e.all_received(ms).dispatcher.messages[channel].contains(
            ReceivedView { id: ms[i].id, channel, payload },
        ),
        e.dispatcher.messages[channel].is_prefix_of(
            e.all_received(ms).dispatcher.messages[channel],
        ),
{
    let before = e.all_received(ms.take(i));
    let view = ReceivedView { id: ms[i].id, channel, payload };
    lemma_all_received_split(e, ms, i);
    lemma_all_received_keeps(e, ms, channel);
    lemma_all_received_keeps(e, ms.take(i), channel);
    assert(ms.skip(i)[0] == ms[i]);
    lemma_message_delivered(before, ms[i], channel, payload);
    let after = before.message_received(arrival(ms[i]));
    lemma_all_received_keeps(after, ms.skip(i).skip(1), channel);
    let last = after.dispatcher.messages[channel].len() - 1;
    assert(after.dispatcher.messages[channel][last] == view);
    assert(e.all_received(ms).dispatcher.messages[channel][last] == view);
}

/// Fragment number `i` of `payload`, as it is read at the other end.
pub open spec fn nth_arrival(parent: u16, channel: u8, payload: Seq<u8>, i: int) -> MessageView {
    arrival(nth_outbound(parent, channel, payload, i))
}

/// Fragment number `i` of `payload`, as it is sent.
pub open spec fn nth_outbound(parent: u16, channel: u8, payload: Seq<u8>, i: int) -> MessageView {
    message::outbound(
        dispatcher::nth_id(parent, i),
        channel,
        dispatcher::fragment_payload(payload, i),
        Some(dispatcher::nth_fragment(parent, payload.len(), i)),
    )
}

/// The fragments of `payload` of which the numbers are in `got`.
pub open spec fn parts_of(parent: u16, channel: u8, payload: Seq<u8>, got: Set<int>) -> Parts {
    Seq::new(
        dispatcher::fragment_count(payload.len()),
        |i: int|
            if got.contains(i) {
                Some(nth_arrival(parent, channel, payload, i))
            } else {
                None
            },
    )
}

/// Whether a payload is sent in fragments.
pub open spec fn needs_fragments(payload: Seq<u8>) -> bool {
    FRAGMENT_SIZE < payload.len() <= FRAGMENT_SIZE * MAX_FRAGMENTS
}

/// Each fragment carries its part of the payload, and says which one it is.
pub proof fn lemma_nth_outbound(parent: u16, channel: u8, payload: Seq<u8>, i: int)
    requires
        channel < MAX_CHANNELS,
        needs_fragments(payload),
        0 <= i < dispatcher::fragment_count(payload.len()),
    ensures
        carries(
            nth_outbound(parent, channel, payload, i),
            channel,
            dispatcher::fragment_payload(payload, i),
        ),
        nth_arrival(parent, channel, payload, i) == (MessageView {
            bytes: dispatcher::fragment_payload(payload, i),
            ..nth_outbound(parent, channel, payload, i)
        }),
{
    let m = nth_outbound(parent, channel, payload, i);
    let id = dispatcher::nth_id(parent, i).0;
    assert(id.wrapping_sub(i as u16) == parent);
    lemma_arrival(m, channel, dispatcher::fragment_payload(payload, i), Seq::empty());
}

proof fn lemma_joined_fragments(parent: u16, channel: u8, payload: Seq<u8>, n: int)
    requires
        channel < MAX_CHANNELS,
        needs_fragments(payload),
        0 <= n <= dispatcher::fragment_count(payload.len()),
    ensures
        ({
            let end = if 1024 * n <= payload.len() {
                1024 * n
            } else {
                payload.len() as int
            };
            received_message::joined(
                parts_of(parent, channel, payload, Set::full()),
                n,
            ) == payload.take(end)
        }),
    decreases n,
{
    if n > 0 {
        lemma_joined_fragments(parent, channel, payload, n - 1);
        lemma_nth_outbound(parent, channel, payload, n - 1);
        let end = if 1024 * n <= payload.len() {
            1024 * n
        } else {
            payload.len() as int
        };
        assert(payload.take(end) =~= payload.take(1024 * (n - 1)) + dispatcher::fragment_payload(
            payload,
            n - 1,
        ));
    } else {
        assert(payload.take(0) =~= Seq::empty());
    }
}

/// The fragments of a payload, put together, are the payload.
pub proof fn lemma_fragments_make_payload(parent: u16, channel: u8, payload: Seq<u8>)
    requires
        channel < MAX_CHANNELS,
        needs_fragments(payload),
    ensures
        received_message::assembled(parts_of(parent, channel, payload, Set::full()))
            == (ReceivedView { id: MessageId(parent), channel, payload }),
{
    let n = dispatcher::fragment_count(payload.len());
    lemma_joined_fragments(parent, channel, payload, n as int);
    lemma_nth_outbound(parent, channel, payload, 0);
    assert(payload.take(payload.len() as int) =~= payload);
}

/// Fragments may arrive in any order. With the fragments in `got` there already, another one joins
/// them; if it is the last one missing, the message is handed to the consumer, with the id that
/// the sender knows it by and the payload as it was sent.
pub proof fn lemma_fragment_received(
    d: DispatcherView,
    parent: u16,
    channel: u8,
    payload: Seq<u8>,
    got: Set<int>,
    i: int,
)
    requires
        channel < MAX_CHANNELS,
        needs_fragments(payload),
        0 <= i < dispatcher::fragment_count(payload.len()),
        !got.contains(i),
        if exists|j: int|
            0 <= j < dispatcher::fragment_count(payload.len()) && #[trigger] got.contains(j) {
            d.in_progress.contains_key(parent) && d.in_progress[parent] == parts_of(
                parent,
                channel,
                payload,
                got,
            )
        } else {
            !d.in_progress.contains_key(parent)
        },
    ensures
        ({
            let next = d.received(nth_arrival(parent, channel, payload, i));
            let all = forall|j: int|
                0 <= j < dispatcher::fragment_count(payload.len()) ==> j == i
                    || #[trigger] got.contains(j);
            if all {
                next == (DispatcherView {
                    in_progress: d.in_progress.remove(parent),
                    ..d
                }).delivered(ReceivedView { id: MessageId(parent), channel, payload })
            } else {
                next == (DispatcherView {
                    in_progress: d.in_progress.insert(
                        parent,
                        parts_of(parent, channel, payload, got.insert(i)),
                    ),
                    ..d
                })
            }
        }),
{
    let n = dispatcher::fragment_count(payload.len());
    let m = nth_arrival(parent, channel, payload, i);
    lemma_nth_outbound(parent, channel, payload, i);
    let f = m.fragment->0;
    let before = if d.in_progress.contains_key(parent) {
        d.in_progress[parent]
    } else {
        message_reassembler::no_parts(n)
    };
    assert(before =~= parts_of(parent, channel, payload, got));
    let after = message_reassembler::with_part(before, f.index, m);
    assert(after =~= parts_of(parent, channel, payload, got.insert(i)));
    assert(after[i] != before[i]);
    let all = forall|j: int| 0 <= j < n ==> j == i || #[trigger] got.contains(j);
    if all {
        assert(after =~= parts_of(parent, channel, payload, Set::full()));
        assert forall|j: int| 0 <= j < after.len() implies (#[trigger] after[j] matches Some(p)
            && p.wf() && p.fragment is Some) by {
            lemma_nth_outbound(parent, channel, payload, j);
        }
        assert(received_message::complete(after));
        lemma_fragments_make_payload(parent, channel, payload);
    } else {
        let j = choose|j: int| 0 <= j < n && j != i && !(#[trigger] got.contains(j));
        assert(after[j] is None);
        assert(!received_message::complete(after));
    }
}

/// All messages that a new endpoint is to send are genuine: there are none.
pub proof fn lemma_fresh_genuine(config: ConfigView, time: Time)
    ensures
        genuine_channels(pickleback::fresh_endpoint(config, time).channels),
{
}

/// As time passes, messages stay genuine.
pub proof fn lemma_updated_genuine(e: EndpointView, dt: Time)
    requires
        genuine_channels(e.channels),
    ensures
        genuine_channels(e.updated(dt).channels),
{
    let next = e.updated(dt).channels;
    assert forall|k: u8| #[trigger] next.contains_key(k) implies genuine_channel(next[k]) by {
        assert(e.channels.contains_key(k));
        assert(next[k].queue == e.channels[k].queue);
    }
}

proof fn lemma_enqueued_genuine(c: ChannelView, m: MessageView)
    requires
        genuine_channel(c),
        genuine(m, c.id),
    ensures
        genuine_channel(c.enqueued(m)),
{
    let next = c.enqueued(m);
    assert forall|i: int| 0 <= i < next.queue.len() implies genuine(
        (#[trigger] next.queue[i]).message,
        next.id,
    ) by {
        if i < c.queue.len() {
            assert(next.queue[i] == c.queue[i]);
        }
    }
}

proof fn lemma_fragments_genuine(c: ChannelView, parent: u16, payload: Seq<u8>, n: int)
    requires
        genuine_channel(c),
        c.id < MAX_CHANNELS,
        needs_fragments(payload),
        0 <= n <= dispatcher::fragment_count(payload.len()),
    ensures
        genuine_channel(dispatcher::fragments_enqueued(c, parent, payload, n)),
        dispatcher::fragments_enqueued(c, parent, payload, n).id == c.id,
    decreases n,
{
    if n > 0 {
        lemma_fragments_genuine(c, parent, payload, n - 1);
        lemma_nth_outbound(parent, c.id, payload, n - 1);
        let m = nth_outbound(parent, c.id, payload, n - 1);
        assert(carries(m, c.id, dispatcher::fragment_payload(payload, n - 1)));
        assert(genuine(m, c.id));
        lemma_enqueued_genuine(dispatcher::fragments_enqueued(c, parent, payload, n - 1), m);
    }
}

/// A message that the caller asks to be sent is genuine, and so is each of its fragments.
pub proof fn lemma_message_sent_genuine(e: EndpointView, channel: u8, payload: Seq<u8>)
    requires
        e.wf(),
        e.config.valid(),
        genuine_channels(e.channels),
    ensures
        genuine_channels(e.message_sent(channel, payload).0.channels),
{
    if payload.len() <= e.config.max_message_size && e.channels.contains_key(channel) {
        let c = e.channels[channel];
        let parent = e.dispatcher.next_message_id;
        let (_, after, _) = e.dispatcher.sent(c, payload);
        if payload.len() <= FRAGMENT_SIZE {
            let m = message::outbound(MessageId(parent), c.id, payload, None);
            assert(carries(m, c.id, payload));
            assert(genuine(m, c.id));
            lemma_enqueued_genuine(c, m);
        } else {
            let n = dispatcher::fragment_count(payload.len()) as int;
            lemma_fragments_genuine(c, parent, payload, n);
        }
        assert(genuine_channel(after));
    }
}

proof fn lemma_messages_composed_genuine(e: EndpointView)
    requires
        e.wf(),
        genuine_channels(e.channels),
    ensures
        genuine_channels(e.messages_composed().state.channels),
    decreases e.sequence_lag(), MAX_UNACKED_PACKETS - e.sent_unacked(),
{
    if channel::first_ready(e.channels, 0) is Some {
        lemma_packet_genuine(e);
        if e.packet_composed().result is Ok {
            e.lemma_packet_composed();
            lemma_messages_composed_genuine(e.packet_composed().state);
        }
    }
}

proof fn lemma_packet_genuine(e: EndpointView)
    requires
        e.wf(),
        genuine_channels(e.channels),
    ensures
        genuine_channels(e.packet_composed().state.channels),
{
    reveal(EndpointView::packet_composed);
    let begun = e.next_begun();
    if begun.header(PacketType::Messages) is Ok {
        let start = e.next_filling();
        if start.out.out.len() <= e.config.max_packet_size {
            lemma_filled_with(start);
        }
    }
}

/// Sending what is to be sent leaves the messages that are kept genuine.
pub proof fn lemma_composed_genuine(e: EndpointView)
    requires
        e.wf(),
        genuine_channels(e.channels),
    ensures
        genuine_channels(e.composed().state.channels),
        genuine_channels(e.drained().0.channels),
{
    lemma_messages_composed_genuine(e);
}

proof fn lemma_acked_genuine(c: ChannelView, handle: MessageHandle)
    requires
        genuine_channel(c),
    ensures
        genuine_channel(c.acked(handle)),
{
    if c.reliable {
        let p = |q: Queued| !q.dismissed_by(handle);
        let next = c.queue.filter(p);
        assert forall|i: int| 0 <= i < next.len() implies genuine(
            (#[trigger] next[i]).message,
            c.id,
        ) by {
            assert(next.contains(next[i]));
            c.queue.lemma_filter_contains_rev(p, next[i]);
            let j = c.queue.index_of(next[i]);
            assert(genuine(c.queue[j].message, c.id));
        }
    }
}

proof fn lemma_steps_genuine(p: AckProgress, handles: Seq<MessageHandle>, n: int)
    requires
        genuine_channels(p.channels),
        0 <= n <= handles.len(),
    ensures
        genuine_channels(p.steps(handles, n).channels),
    decreases n,
{
    if n > 0 {
        lemma_steps_genuine(p, handles, n - 1);
        let before = p.steps(handles, n - 1);
        let h = handles[n - 1];
        if before.channels.contains_key(h.channel) {
            lemma_acked_genuine(before.channels[h.channel], h);
        }
    }
}

proof fn lemma_acks_noted_genuine(
    e: EndpointView,
    entries: Seq<(u16, bool)>,
    n: int,
)
    requires
        genuine_channels(e.channels),
        0 <= n <= entries.len(),
    ensures
        genuine_channels(e.acks_noted(entries, n).channels),
    decreases n,
{
    if n > 0 {
        lemma_acks_noted_genuine(e, entries, n - 1);
        let before = e.acks_noted(entries, n - 1);
        if let Some(handles) = before.dispatcher.packets.lookup(entries[n - 1].0) {
            let start = AckProgress {
                frags: before.dispatcher.frags,
                acks: before.dispatcher.acks,
                channels: before.channels,
                returned: Seq::empty(),
            };
            lemma_steps_genuine(start, handles, handles.len() as int);
        }
    }
}

proof fn lemma_messages_received_genuine(e: EndpointView, s: Seq<u8>)
    requires
        genuine_channels(e.channels),
    ensures
        genuine_channels(e.messages_received(s).state.channels),
    decreases s.len(),
{
    if s.len() > 0 {
        if let Ok((m, rest)) = message::parse_message(s) {
            message::lemma_parse_consumes(s);
            let next = e.message_received(m);
            assert forall|k: u8| #[trigger] next.channels.contains_key(k) implies genuine_channel(
                next.channels[k],
            ) by {
                assert(e.channels.contains_key(k));
                assert(next.channels[k].queue == e.channels[k].queue);
                assert(next.channels[k].id == e.channels[k].id);
            }
            lemma_messages_received_genuine(next, rest);
        }
    }
}

/// Receiving a packet, whatever is in it, leaves the messages that are to be sent genuine.
pub proof fn lemma_packet_received_genuine(e: EndpointView, header: HeaderView, rest: Seq<u8>)
    requires
        genuine_channels(e.channels),
    ensures
        genuine_channels(e.packet_received(header, rest).state.channels),
{
    let id = header.id.0;
    if e.received.in_range(id) && !e.received.contents.dom().contains(id) {
        let counted = EndpointView {
            stats: PicklebackStats {
                packets_received: e.stats.packets_received.wrapping_add(1),
                ..e.stats
            },
            received: e.received.inserted(id, e.received_meta(header, rest)),
            ..e
        };
        if let Some(ack) = header.ack {
            lemma_acks_noted_genuine(
                counted,
                ack.entries(),
                ack.entries().len() as int,
            );
        }
        lemma_messages_received_genuine(e.packet_noted(header, rest), rest);
    }
}

/// Whether two channels are to send the same messages.
pub open spec fn same_messages(a: ChannelView, b: ChannelView) -> bool {
    &&& a.reliable == b.reliable
    &&& a.queue.len() == b.queue.len()
    &&& forall|i: int|
        0 <= i < a.queue.len() ==> (#[trigger] a.queue[i]).message == b.queue[i].message
}

/// Whether reliable channels are to send the same messages before and after.
pub open spec fn reliable_kept(before: Map<u8, ChannelView>, after: Map<u8, ChannelView>) -> bool {
    forall|k: u8| #[trigger]
        before.contains_key(k) ==> after.contains_key(k) && after[k].reliable == before[k].reliable
            && (before[k].reliable ==> same_messages(before[k], after[k]))
}

proof fn lemma_with_channel_kept(f: Filling, id: u8)
    requires
        endpoint::channels_wf(f.channels),
        f.channels.contains_key(id),
    ensures
        reliable_kept(f.channels, f.with_channel(id).channels),
    decreases f.out.room,
{
    if let Some(i) = f.channels[id].first_fit(f.out.room, 0) {
        f.lemma_with_message(id);
        let next = f.with_message(id, i);
        assert(reliable_kept(f.channels, next.channels));
        if next.out.room >= 3 {
            lemma_with_channel_kept(next, id);
        }
    }
}

proof fn lemma_filled_kept(f: Filling)
    requires
        endpoint::channels_wf(f.channels),
    ensures
        reliable_kept(f.channels, f.filled().channels),
    decreases f.out.room,
{
    if let Some(id) = channel::first_ready(f.channels, 0) {
        channel::lemma_first_ready(f.channels, 0);
        f.lemma_with_channel(id);
        lemma_with_channel_kept(f, id);
        let next = f.with_channel(id);
        if !(next.handles.len() == f.handles.len() || next.out.room < 3) {
            lemma_filled_kept(next);
        }
    }
}

proof fn lemma_packet_kept(e: EndpointView)
    requires
        e.wf(),
    ensures
        reliable_kept(e.channels, e.packet_composed().state.channels),
{
    reveal(EndpointView::packet_composed);
    if e.next_begun().header(PacketType::Messages) is Ok {
        lemma_filled_kept(e.next_filling());
    }
}

proof fn lemma_messages_composed_kept(e: EndpointView)
    requires
        e.wf(),
    ensures
        reliable_kept(e.channels, e.messages_composed().state.channels),
    decreases e.sequence_lag(), MAX_UNACKED_PACKETS - e.sent_unacked(),
{
    if channel::first_ready(e.channels, 0) is Some {
        lemma_packet_kept(e);
        if e.packet_composed().result is Ok {
            e.lemma_packet_composed();
            lemma_messages_composed_kept(e.packet_composed().state);
        }
    }
}

/// However often packets are sent, a reliable channel keeps every message that is not acked, to be
/// sent again.
pub proof fn lemma_reliable_kept(e: EndpointView)
    requires
        e.wf(),
    ensures
        reliable_kept(e.channels, e.composed().state.channels),
        reliable_kept(e.channels, e.drained().0.channels),
{
    lemma_messages_composed_kept(e);
}

} // verus!
