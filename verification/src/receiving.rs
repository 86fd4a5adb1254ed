//! What holds of an endpoint as it receives packets, and as it notes what it sends.

use crate::config::ConfigView;
use crate::delivery;
use crate::dispatcher::{self, MessageHandle};
use crate::endpoint::{self, channels_wf, EndpointView};
use crate::error::PicklebackError;
use crate::pickleback;
use crate::protocol::message::{self, MessageView};
use crate::protocol::packets::{self, HeaderView, PacketBody, PacketType};
use crate::received_message::ReceivedView;
use crate::sequence_buffer::{self, Window};
use crate::time::Time;
use crate::{MessageId, PacketId, PicklebackStats, ReceivedMeta, SentMeta, MAX_CHANNELS};
use vstd::prelude::*;

verus! {

/// A message that its channel accepts is passed on, fragment or not, and is not accepted again. No
/// other channel is affected, and what that channel is to send stays as it is.
pub proof fn lemma_message_passed_on(e: EndpointView, m: MessageView)
    requires
        e.channels.contains_key(m.channel),
        e.channels[m.channel].accepts(m.id),
    ensures
        ({
            let next = e.message_received(m);
            &&& next.dispatcher == e.dispatcher.received(m)
            &&& next.channels.dom() == e.channels.dom()
            &&& !next.channels[m.channel].accepts(m.id)
            &&& next.channels[m.channel].queue == e.channels[m.channel].queue
            &&& next.channels[m.channel].time == e.channels[m.channel].time
            &&& next.channels[m.channel].reliable == e.channels[m.channel].reliable
            &&& forall|k: u8|
                k != m.channel ==> #[trigger] next.channels[k] == e.channels[k]
            &&& next.stats.messages_received == e.stats.messages_received.wrapping_add(1)
            &&& next == EndpointView {
                dispatcher: next.dispatcher,
                channels: next.channels,
                stats: PicklebackStats {
                    messages_received: next.stats.messages_received,
                    ..e.stats
                },
                ..e
            }
        }),
{
    e.channels[m.channel].lemma_accepts_once(m.id);
    assert(e.message_received(m).channels.dom() =~= e.channels.dom());
}

/// Fragments may arrive in any order, in any packets. Once the last one that is missing is accepted,
/// the message is handed to the consumer, with the id that the sender was told and the payload that
/// the sender handed in. Until then nothing is.
pub proof fn lemma_last_fragment_delivered(
    e: EndpointView,
    parent: u16,
    channel: u8,
    payload: Seq<u8>,
    got: Set<int>,
    i: int,
)
    requires
        channel < MAX_CHANNELS,
        1024 < payload.len() <= 1024 * 1024,
        0 <= i < (payload.len() + 1023) / 1024,
        !got.contains(i),
        if exists|j: int| 0 <= j < (payload.len() + 1023) / 1024 && #[trigger] got.contains(j) {
            e.dispatcher.in_progress.contains_key(parent) && e.dispatcher.in_progress[parent]
                == delivery::parts_of(parent, channel, payload, got)
        } else {
            !e.dispatcher.in_progress.contains_key(parent)
        },
        e.channels.contains_key(channel),
        e.channels[channel].accepts(MessageId(((parent + i) % 0x1_0000) as u16)),
    ensures
        ({
            let next = e.message_received(delivery::nth_arrival(parent, channel, payload, i));
            let last = forall|j: int|
                0 <= j < (payload.len() + 1023) / 1024 ==> j == i || #[trigger] got.contains(j);
            &&& last ==> next.dispatcher.messages == e.dispatcher.messages.insert(
                channel,
                e.dispatcher.messages[channel].push(
                    ReceivedView { id: MessageId(parent), channel, payload },
                ),
            )
            &&& !last ==> {
                &&& next.dispatcher.messages == e.dispatcher.messages
                &&& next.dispatcher.in_progress == e.dispatcher.in_progress.insert(
                    parent,
                    delivery::parts_of(parent, channel, payload, got.insert(i)),
                )
            }
        }),
{
    let m = delivery::nth_arrival(parent, channel, payload, i);
    delivery::lemma_nth_outbound(parent, channel, payload, i);
    assert(dispatcher::fragment_count(payload.len()) == (payload.len() + 1023) / 1024);
    delivery::lemma_fragment_received(e.dispatcher, parent, channel, payload, got, i);
    lemma_message_passed_on(e, m);
}

/// From end to end: a message that is put into a packet at one end, and accepted when its turn
/// comes at the other, is there for the consumer to take, with its id, channel and payload.
pub proof fn lemma_end_to_end(
    sender: EndpointView,
    receiver: EndpointView,
    xor_salt: u64,
    i: int,
    channel: u8,
    payload: Seq<u8>,
)
    requires
        sender.wf(),
        delivery::genuine_channels(sender.channels),
        sender.xor_salt == Some(xor_salt),
        sender.packet_composed().result is Ok,
        receiver.received.in_range(sender.next_begun().sequence_id),
        receiver.received.lookup(sender.next_begun().sequence_id) is None,
        0 <= i < sender.next_filling().picked().len(),
        delivery::carries(sender.next_filling().picked()[i], channel, payload),
        sender.next_filling().picked()[i].fragment is None,
        receiver.dispatcher.messages.contains_key(channel),
        ({
            let bytes = sender.packet_composed().state.outbox.last();
            let (packet, rest) = packets::parse_packet(bytes)->Ok_0;
            let ms = sender.next_filling().picked();
            let turn = receiver.packet_noted(packet.header, rest).all_received(ms.take(i));
            turn.channels.contains_key(channel) && turn.channels[channel].accepts(ms[i].id)
        }),
    ensures
        ({
            let bytes = sender.packet_composed().state.outbox.last();
            let (packet, rest) = packets::parse_packet(bytes)->Ok_0;
            let o = receiver.packet_received(packet.header, rest);
            &&& packets::parse_packet(bytes) is Ok
            &&& packet.body == PacketBody::Messages { xor_salt }
            &&& o.result is Ok
            &&& o.state.dispatcher.messages[channel].contains(
                ReceivedView { id: sender.next_filling().picked()[i].id, channel, payload },
            )
        }),
{
    let bytes = sender.packet_composed().state.outbox.last();
    let (packet, rest) = packets::parse_packet(bytes)->Ok_0;
    let ms = sender.next_filling().picked();
    delivery::lemma_packet_delivered(sender, receiver, xor_salt);
    let noted = receiver.packet_noted(packet.header, rest);
    lemma_noted_keeps_messages(receiver, packet.header, rest);
    delivery::lemma_message_in_packet_delivered(noted, ms, i, channel, payload);
}

proof fn lemma_acks_keep_messages(e: EndpointView, entries: Seq<(u16, bool)>, n: int)
    ensures
        e.acks_noted(entries, n).dispatcher.messages == e.dispatcher.messages,
        e.acks_noted(entries, n).dispatcher.in_progress == e.dispatcher.in_progress,
        e.acks_noted(entries, n).dispatcher.next_message_id == e.dispatcher.next_message_id,
        e.acks_noted(entries, n).time == e.time,
        e.acks_noted(entries, n).outbox == e.outbox,
        e.acks_noted(entries, n).sequence_id == e.sequence_id,
        e.acks_noted(entries, n).received == e.received,
    decreases n,
{
    if n > 0 {
        lemma_acks_keep_messages(e, entries, n - 1);
    }
}

/// Looking at the header of a packet leaves alone what was received, what is to be sent, and the
/// ids that are given out.
pub proof fn lemma_noted_keeps_messages(e: EndpointView, header: HeaderView, rest: Seq<u8>)
    ensures
        ({
            let next = e.packet_noted(header, rest);
            &&& next.dispatcher.messages == e.dispatcher.messages
            &&& next.dispatcher.in_progress == e.dispatcher.in_progress
            &&& next.dispatcher.next_message_id == e.dispatcher.next_message_id
            &&& next.outbox == e.outbox
            &&& next.sequence_id == e.sequence_id
            &&& next.time == e.time
            &&& next.stats.packets_received == e.stats.packets_received.wrapping_add(1)
                || header.ack is Some
            &&& header.ack is None ==> next.channels == e.channels && next.dispatcher
                == e.dispatcher && next.sent == e.sent
        }),
{
    let counted = EndpointView {
        stats: PicklebackStats {
            packets_received: e.stats.packets_received.wrapping_add(1),
            ..e.stats
        },
        received: e.received.inserted(header.id.0, e.received_meta(header, rest)),
        ..e
    };
    if let Some(ack) = header.ack {
        lemma_acks_keep_messages(counted, ack.entries(), ack.entries().len() as int);
    }
}

/// The packets that wait for acks, and those that the other side waits for acks of, are counted
/// from the last one that was dealt with, round the end of the numbers if need be.
pub proof fn lemma_unacked(e: EndpointView)
    ensures
        e.newest_ack matches Some(n) ==> e.sent_unacked() == (e.sent.sequence - n) % 0x1_0000,
        e.newest_ack is None ==> e.sent_unacked() == e.sent.sequence,
        e.ack_low_watermark matches Some(w) ==> e.received_unacked() == (e.received.sequence - w.0)
            % 0x1_0000,
        e.ack_low_watermark is None ==> e.received_unacked() == e.received.sequence,
{
}

/// A header says of every packet that it speaks of whether it was received, no more and no less,
/// from the newest one back. It speaks of all those that the other side may not have seen an ack
/// of.
pub proof fn lemma_header_is_true(e: EndpointView, packet_type: PacketType)
    ensures
        e.received_unacked() <= 350 <==> e.header(packet_type) is Ok,
        e.header(packet_type) matches Ok(header) ==> {
            &&& header.packet_type == packet_type
            &&& header.id.0 == e.sequence_id
            &&& header.ack is None <==> e.received_unacked() == 0
            &&& header.ack matches Some(ack) ==> {
                &&& ack.entries().len() >= e.received_unacked()
                &&& forall|i: int|
                    0 <= i < ack.entries().len() ==> {
                        let id = ((e.received.sequence - i) % 0x1_0000) as u16;
                        #[trigger] ack.entries()[i] == (id, e.received.lookup(id) is Some)
                    }
            }
        },
{
    delivery::lemma_header(e, packet_type);
}

/// What noting an ack that is new does, besides what it tells the consumer: the packet counts as
/// acked, the time that it took is noted, and what is known to have been seen at the other side
/// moves on to what that packet had acked itself, if that is ahead.
pub proof fn lemma_ack_effects(e: EndpointView, s: u16, meta: SentMeta)
    requires
        e.sent.lookup(s) == Some(meta),
        !meta.acked,
    ensures
        ({
            let next = e.ack_noted((s, true));
            &&& next.sent.lookup(s) == Some(SentMeta { acked: true, ..meta })
            &&& forall|t: u16| t != s ==> #[trigger] next.sent.lookup(t) == e.sent.lookup(t)
            &&& next.rtt_samples == e.rtt_samples.push(e.time - meta.time)
            &&& next.dispatcher.packets.lookup(s) is None
            &&& forall|t: u16|
                t as int % e.dispatcher.packets.modulus() != s as int
                    % e.dispatcher.packets.modulus() ==> #[trigger] next.dispatcher.packets.lookup(
                    t,
                ) == e.dispatcher.packets.lookup(t)
            &&& next.stats.packets_acked == e.stats.packets_acked.wrapping_add(1)
            &&& next.newest_ack matches Some(n) && !sequence_buffer::seq_gt(s, n) && (n == s
                || e.newest_ack == Some(n))
            &&& next.ack_low_watermark matches Some(w) && !sequence_buffer::seq_gt(
                meta.acked_up_to.0,
                w.0,
            ) && (w == meta.acked_up_to || e.ack_low_watermark == Some(w))
            &&& e.newest_ack matches Some(n) ==> !sequence_buffer::seq_gt(
                n,
                next.newest_ack->0,
            )
            &&& e.ack_low_watermark matches Some(w) ==> (next.ack_low_watermark matches Some(v)
                && !sequence_buffer::seq_gt(w.0, v.0))
        }),
{
    sequence_buffer::lemma_seq_gt_order(s, s);
    sequence_buffer::lemma_seq_gt_order(meta.acked_up_to.0, meta.acked_up_to.0);
    if let Some(n) = e.newest_ack {
        sequence_buffer::lemma_seq_gt_order(s, n);
        sequence_buffer::lemma_seq_gt_order(n, n);
    }
    if let Some(w) = e.ack_low_watermark {
        sequence_buffer::lemma_seq_gt_order(meta.acked_up_to.0, w.0);
        sequence_buffer::lemma_seq_gt_order(w.0, w.0);
    }
}

/// An entry that says that a packet has not arrived changes nothing, and neither does one of a
/// packet that is not known.
pub proof fn lemma_no_ack_no_effect(e: EndpointView, s: u16)
    ensures
        e.ack_noted((s, false)) == e,
        e.sent.lookup(s) is None ==> e.ack_noted((s, true)) == e,
{
}

/// A packet that is sent is put behind those that are to be sent, counted, and kept in mind with the
/// time, its size with what the network adds, and up to where it acks. It is not acked yet.
pub proof fn lemma_packet_sent(e: EndpointView, packet: Seq<u8>)
    ensures
        ({
            let o = e.packet_sent(packet);
            &&& o.result is Ok ==> {
                &&& o.state.outbox == e.outbox.push(packet)
                &&& o.state.stats.packets_sent == e.stats.packets_sent.wrapping_add(1)
                &&& o.state.channels == e.channels
                &&& o.state.received == e.received
                &&& o.state.sent.lookup(e.sequence_id) matches Some(meta) && meta.time == e.time
                    && !meta.acked && meta.acked_up_to.0 == e.received.sequence && (packet.len()
                    + e.config.packet_header_size <= usize::MAX ==> meta.size == packet.len()
                    + e.config.packet_header_size)
            }
            &&& o.result is Err ==> o.state == e
        }),
{
    if !e.sent.too_old(e.sequence_id) {
        let size = packet.len() + e.config.packet_header_size;
        e.sent.lemma_inserted(
            e.sequence_id,
            SentMeta {
                time: e.time,
                acked: false,
                size: if size <= usize::MAX {
                    size as usize
                } else {
                    usize::MAX
                },
                acked_up_to: PacketId(e.received.sequence),
            },
        );
    }
}

/// A packet of messages can be composed while fewer than 350 packets are unacked, no more than that
/// are to be acked, there is room for a header, and packets are numbered in order.
pub proof fn lemma_packet_can_go(e: EndpointView)
    requires
        e.wf(),
        e.sequence_id == e.sent.sequence,
        e.sent.size < 0x7fff,
        e.dispatcher.packets.size < 0x7fff,
        e.sent_unacked() < 350,
        e.received_unacked() <= 350,
        e.config.max_packet_size >= 63,
    ensures
        e.packet_composed().result is Ok,
        e.packet_composed().state.sequence_id == e.sequence_id.wrapping_add(1),
        e.packet_composed().state.outbox.len() == e.outbox.len() + 1,
{
    let begun = e.next_begun();
    let packet = e.next_filling().filled();
    assert(channels_wf(packet.channels)) by {
        endpoint::lemma_filled(e.next_filling());
    }
    let n = packet.handles.len();
    let filled = EndpointView {
        channels: packet.channels,
        stats: PicklebackStats {
            messages_sent: ((begun.stats.messages_sent + n) % 0x1_0000_0000_0000_0000) as u64,
            ..begun.stats
        },
        ..begun
    };
    assert(filled.wf());
    lemma_newest_noted(filled, packet.out.out, packet.handles);
    assert(begun.header(PacketType::Messages) is Ok);
    assert(begun.messages_head(begun.header(PacketType::Messages)->Ok_0).len() <= 63) by {
        crate::pickleback::lemma_head_len(begun, begun.header(PacketType::Messages)->Ok_0);
    }
    reveal(EndpointView::packet_composed);
}

/// A packet whose number follows on that of the one before can be sent, and what is in it noted.
pub proof fn lemma_newest_noted(e: EndpointView, packet: Seq<u8>, handles: Seq<MessageHandle>)
    requires
        e.wf(),
        e.sequence_id == e.sent.sequence.wrapping_add(1),
        e.sent.size < 0x7fff,
        e.dispatcher.packets.size < 0x7fff,
    ensures
        ({
            let sent = e.packet_sent(packet);
            let noted = sent.state.contents_noted(handles);
            &&& sent.result is Ok
            &&& noted.result is Ok
            &&& noted.state.sequence_id == e.sequence_id
            &&& noted.state.outbox == e.outbox.push(packet)
            &&& noted.state.dispatcher.packets.lookup(e.sequence_id) == Some(handles)
        }),
{
    lemma_next_not_too_old(e.sent.sequence, e.sent.size);
    e.lemma_contents_noted(packet, handles);
}

proof fn lemma_next_not_too_old(sequence: u16, size: nat)
    requires
        size < 0x7fff,
    ensures
        !sequence_buffer::seq_gt(
            ((sequence - size as int) % 0x1_0000) as u16,
            sequence.wrapping_add(1),
        ),
{
}

/// How many of the `n` packets from number `seq` back are such that `p` holds of them.
pub open spec fn count_back(
    sent: Window<SentMeta>,
    seq: u16,
    n: nat,
    p: spec_fn(SentMeta) -> bool,
) -> nat
    decreases n,
{
    if n == 0 {
        0
    } else {
        (if p(sent.contents[seq]) {
            1nat
        } else {
            0
        }) + count_back(sent, seq.wrapping_sub(1), (n - 1) as nat, p)
    }
}

/// Whether the `n` packets from number `seq` back are all known.
pub open spec fn all_known(sent: Window<SentMeta>, seq: u16, n: nat) -> bool
    decreases n,
{
    n == 0 || (sent.lookup(seq) is Some && all_known(sent, seq.wrapping_sub(1), (n - 1) as nat))
}

/// Whether a packet was sent by `cutoff`.
pub open spec fn sent_by(cutoff: Time) -> spec_fn(SentMeta) -> bool {
    |meta: SentMeta| meta.time <= cutoff
}

/// Whether a packet was sent by `cutoff`, and has been acked.
pub open spec fn acked_of(cutoff: Time) -> spec_fn(SentMeta) -> bool {
    |meta: SentMeta| meta.time <= cutoff && meta.acked
}

/// Whether `n` is how many packets were looked at to get from `from` to `to`, and there was a reason
/// not to look at any more.
pub open spec fn looked_at(
    sent: Window<SentMeta>,
    seq: u16,
    cutoff: Time,
    from: (u16, u16),
    to: (u16, u16),
    left: nat,
    n: nat,
) -> bool {
    &&& n <= left
    &&& all_known(sent, seq, n)
    &&& to.0 == from.0 + count_back(sent, seq, n, acked_of(cutoff))
    &&& to.1 == from.1 + count_back(sent, seq, n, sent_by(cutoff))
    &&& to.1 >= 100 || n == left || sent.lookup(((seq - n) % 0x1_0000) as u16) is None
}

/// The packets that the packet loss is worked out from: going back from the newest one, as long as
/// they are known and until there are 100, those that were sent by `cutoff`, and how many of them
/// were acked.
pub proof fn lemma_loss_counts(
    sent: Window<SentMeta>,
    seq: u16,
    cutoff: Time,
    counts: (u16, u16),
    left: nat,
)
    requires
        counts.0 <= counts.1 < 100,
    ensures
        exists|n: nat| #[trigger]
            looked_at(
                sent,
                seq,
                cutoff,
                counts,
                endpoint::loss_counts(sent, seq, cutoff, counts, left),
                left,
                n,
            ),
        ({
            let r = endpoint::loss_counts(sent, seq, cutoff, counts, left);
            r.0 <= r.1 <= 100
        }),
    decreases left,
{
    let r = endpoint::loss_counts(sent, seq, cutoff, counts, left);
    match sent.lookup(seq) {
        Some(meta) if left > 0 => {
            let next = if meta.time > cutoff {
                counts
            } else {
                (
                    if meta.acked {
                        (counts.0 + 1) as u16
                    } else {
                        counts.0
                    },
                    (counts.1 + 1) as u16,
                )
            };
            if next.1 >= 100 {
                reveal_with_fuel(count_back, 2);
                reveal_with_fuel(all_known, 2);
                assert(looked_at(sent, seq, cutoff, counts, r, left, 1));
            } else {
                lemma_loss_counts(sent, seq.wrapping_sub(1), cutoff, next, (left - 1) as nat);
                let n = choose|n: nat| #[trigger]
                    looked_at(
                        sent,
                        seq.wrapping_sub(1),
                        cutoff,
                        next,
                        r,
                        (left - 1) as nat,
                        n,
                    );
                assert((seq.wrapping_sub(1) - n) % 0x1_0000 == (seq - (n + 1)) % 0x1_0000);
                assert(looked_at(sent, seq, cutoff, counts, r, left, n + 1));
            }
        },
        _ => {
            assert(looked_at(sent, seq, cutoff, counts, r, left, 0));
        },
    }
}

/// An endpoint starts with an unreliable channel 0 and a reliable channel 1, and with nothing that
/// was sent, received, or is to be sent. It takes whatever message comes first on either channel.
pub proof fn lemma_fresh(config: ConfigView, time: Time)
    requires
        config.valid(),
    ensures
        ({
            let e = pickleback::fresh_endpoint(config, time);
            &&& e.wf()
            &&& e.time == time
            &&& e.config == config
            &&& e.sequence_id == 0
            &&& e.sent_unacked() == 0
            &&& e.received_unacked() == 0
            &&& e.outbox.len() == 0
            &&& e.xor_salt is None
            &&& e.sent.size == config.sent_packets_buffer_size
            &&& e.received.size == config.received_packets_buffer_size
            &&& e.dispatcher.next_message_id == 0
            &&& forall|k: u8| #[trigger] e.channels.contains_key(k) <==> k == 0 || k == 1
            &&& !e.channels[0].reliable
            &&& e.channels[1].reliable
            &&& forall|k: u8| #[trigger]
                e.channels.contains_key(k) ==> e.channels[k].queue.len() == 0 && e.channels[k].time
                    == time && !e.channels[k].heard
            &&& forall|k: u8, id: MessageId| #[trigger]
                e.channels[k].accepts(id) || !e.channels.contains_key(k)
            &&& forall|id: u16| #[trigger] e.sent.lookup(id) is None
            &&& forall|id: u16| #[trigger] e.received.lookup(id) is None
            &&& forall|id: u16| #[trigger] e.dispatcher.packets.lookup(id) is None
            &&& forall|k: u8| (#[trigger] e.dispatcher.messages[k]).len() == 0
            &&& forall|k: u8| (#[trigger] e.dispatcher.acks[k]).len() == 0
            &&& forall|id: u16| !#[trigger] e.dispatcher.in_progress.contains_key(id)
        }),
{
}

/// When a message is not taken, and what becomes of the endpoint then: nothing, but that one that is
/// for no channel is counted as asked for.
pub proof fn lemma_send_refused(e: EndpointView, channel: u8, payload: Seq<u8>)
    requires
        e.wf(),
        e.config.valid(),
    ensures
        ({
            let (next, result) = e.message_sent(channel, payload);
            let big = payload.len() > e.config.max_message_size;
            let held = e.sent_unacked() >= 350;
            let unknown = !e.channels.contains_key(channel);
            &&& result is Ok <==> !big && !held && !unknown
            &&& big ==> next == e && result == Err::<MessageId, _>(PicklebackError::PayloadTooBig)
            &&& !big && held ==> next == e && (result matches Err(x) && x is Backpressure)
            &&& !big && !held ==> next.stats == (PicklebackStats {
                message_sends: e.stats.message_sends.wrapping_add(1),
                ..e.stats
            })
            &&& !big && !held && unknown ==> next == (EndpointView { stats: next.stats, ..e })
                && result == Err::<MessageId, _>(PicklebackError::NoSuchChannel)
        }),
{
    if e.channels.contains_key(channel) && payload.len() <= e.config.max_message_size {
        e.dispatcher.lemma_sent_tracked(e.channels[channel], payload);
    }
}

/// The packet loss is due to be worked out anew once acks come in while the number of the packet
/// begun last is a multiple of 100, and stays due until it is asked for.
pub proof fn lemma_loss_due(e: EndpointView, header: HeaderView)
    ensures
        header.ack is None ==> e.header_noted(header).loss_due == e.loss_due,
        header.ack is Some ==> e.header_noted(header).loss_due == (e.loss_due || e.sequence_id % 100
            == 0),
{
    if let Some(ack) = header.ack {
        lemma_acks_keep_messages(e, ack.entries(), ack.entries().len() as int);
        lemma_acks_keep_due(e, ack.entries(), ack.entries().len() as int);
    }
}

proof fn lemma_acks_keep_due(e: EndpointView, entries: Seq<(u16, bool)>, n: int)
    ensures
        e.acks_noted(entries, n).loss_due == e.loss_due,
    decreases n,
{
    if n > 0 {
        lemma_acks_keep_due(e, entries, n - 1);
    }
}

/// Whether the packet `i` before the most recent one was received, and held something.
pub open spec fn is_full(received: Window<ReceivedMeta>, i: int) -> bool {
    received.lookup(((received.sequence - i) % 0x1_0000) as u16) matches Some(meta) && !meta.empty
}

/// How many of the last `n` packets held something, one by one.
pub proof fn lemma_non_empty(received: Window<ReceivedMeta>, n: nat)
    ensures
        endpoint::non_empty(received, n) == Seq::new(n, |i: int| i).filter(
            |i: int| is_full(received, i),
        ).len(),
    decreases n,
{
    reveal(Seq::filter);
    let s = Seq::new(n, |i: int| i);
    if n > 0 {
        lemma_non_empty(received, (n - 1) as nat);
        assert(s.drop_last() =~= Seq::new((n - 1) as nat, |i: int| i));
        assert(s.last() == n - 1);
    }
}

/// Of a packet that is received for the first time it is kept when that was, how long it was with
/// what the network adds, and whether it held nothing: keep alives do not, nor do packets of no
/// messages.
pub proof fn lemma_received_kept(e: EndpointView, header: HeaderView, rest: Seq<u8>)
    requires
        e.received.in_range(header.id.0),
        e.received.lookup(header.id.0) is None,
    ensures
        e.packet_noted(header, rest).received.lookup(header.id.0) matches Some(meta) && meta.time
            == e.time && (meta.empty <==> header.packet_type == PacketType::KeepAlive || (
        header.packet_type == PacketType::Messages && rest.len() == 0)) && (
        e.config.packet_header_size + header.encoded().len() + rest.len() <= usize::MAX ==> meta.size
            == e.config.packet_header_size + header.encoded().len() + rest.len()),
        forall|k: u16|
            k != header.id.0 && #[trigger] e.packet_noted(header, rest).received.lookup(k) is Some
                ==> e.packet_noted(header, rest).received.lookup(k) == e.received.lookup(k),
{
    let meta = e.received_meta(header, rest);
    let counted = EndpointView {
        stats: PicklebackStats {
            packets_received: e.stats.packets_received.wrapping_add(1),
            ..e.stats
        },
        received: e.received.inserted(header.id.0, meta),
        ..e
    };
    e.received.lemma_inserted(header.id.0, meta);
    if let Some(ack) = header.ack {
        lemma_acks_keep_messages(counted, ack.entries(), ack.entries().len() as int);
    }
}

/// Messages that stand before one that cannot be read are received all the same.
pub proof fn lemma_messages_before(e: EndpointView, ms: Seq<MessageView>, rest: Seq<u8>)
    requires
        forall|i: int| 0 <= i < ms.len() ==> delivery::genuine(#[trigger] ms[i], ms[i].channel),
    ensures
        e.messages_received(delivery::joined_bytes(ms) + rest) == e.all_received(
            ms,
        ).messages_received(rest),
        rest.len() > 0 && message::parse_message(rest) is Err ==> e.messages_received(
            delivery::joined_bytes(ms) + rest,
        ).state == e.all_received(ms) && e.messages_received(
            delivery::joined_bytes(ms) + rest,
        ).result is Err,
    decreases ms.len(),
{
    let s = delivery::joined_bytes(ms) + rest;
    if ms.len() > 0 {
        let m = ms[0];
        assert(delivery::genuine(m, m.channel));
        let tail = delivery::joined_bytes(ms.skip(1)) + rest;
        assert(s =~= m.bytes + tail);
        lemma_message_before(e, m, tail);
        assert forall|i: int| 0 <= i < ms.skip(1).len() implies delivery::genuine(
            #[trigger] ms.skip(1)[i],
            ms.skip(1)[i].channel,
        ) by {
            assert(delivery::genuine(ms[i + 1], ms[i + 1].channel));
        }
        lemma_messages_before(e.message_received(delivery::arrival(m)), ms.skip(1), rest);
    } else {
        assert(s =~= rest);
    }
}

proof fn lemma_message_before(e: EndpointView, m: MessageView, tail: Seq<u8>)
    requires
        delivery::genuine(m, m.channel),
    ensures
        e.messages_received(m.bytes + tail) == e.message_received(
            delivery::arrival(m),
        ).messages_received(tail),
{
    let payload = choose|payload: Seq<u8>| delivery::carries(m, m.channel, payload);
    delivery::lemma_arrival(m, m.channel, payload, tail);
}

/// A packet of messages counts as one packet that was sent, with as many messages as are in it.
pub proof fn lemma_composed_counted(e: EndpointView)
    requires
        e.wf(),
        delivery::genuine_channels(e.channels),
        e.packet_composed().result is Ok,
    ensures
        ({
            let next = e.packet_composed().state;
            let n = e.next_filling().picked().len();
            &&& next.stats.messages_sent == (e.stats.messages_sent + n)
                % 0x1_0000_0000_0000_0000
            &&& next.stats == PicklebackStats {
                messages_sent: next.stats.messages_sent,
                packets_sent: e.stats.packets_sent.wrapping_add(1),
                ..e.stats
            }
        }),
{
    reveal(EndpointView::packet_composed);
    delivery::lemma_filled_with(e.next_filling());
}

} // verus!
