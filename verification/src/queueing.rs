//! What holds of messages from when they are handed in until they go out in a packet.

use crate::channel::{self, ChannelView, Queued};
use crate::delivery;
use crate::dispatcher;
use crate::endpoint::{self, EndpointView, Filling};
use crate::handshake;
use crate::protocol::ack_header::MAX_UNACKED_PACKETS;
use crate::protocol::message::{self, Fragment, MessageView};
use crate::protocol::packets::{self, PacketBody};
use crate::time::Time;
use crate::MessageId;
use vstd::prelude::*;

verus! {

/// Whether `m` is read at the other end as message `id` on a channel, with `payload` in it.
pub open spec fn reads_as(
    m: MessageView,
    id: MessageId,
    channel: u8,
    fragment: Option<Fragment>,
    payload: Seq<u8>,
) -> bool {
    &&& m.id == id
    &&& m.channel == channel
    &&& m.fragment == fragment
    &&& delivery::carries(m, channel, payload)
    &&& delivery::arrival(m).id == id
    &&& delivery::arrival(m).channel == channel
    &&& delivery::arrival(m).fragment == fragment
    &&& delivery::arrival(m).bytes == payload
}

/// Whether a channel differs from another in its queue at most.
pub open spec fn same_but_queue(a: ChannelView, b: ChannelView) -> bool {
    a == ChannelView { queue: a.queue, ..b }
}

/// The bytes of a payload from number `1024 * i` on, up to the next such number or the end.
pub open spec fn slice_of(payload: Seq<u8>, i: int) -> Seq<u8> {
    if 1024 * i + 1024 <= payload.len() {
        payload.subrange(1024 * i, 1024 * i + 1024)
    } else {
        payload.subrange(1024 * i, payload.len() as int)
    }
}

proof fn lemma_enqueued_nth(c: ChannelView, parent: u16, payload: Seq<u8>, n: int, i: int)
    requires
        0 <= i < n,
    ensures
        ({
            let after = dispatcher::fragments_enqueued(c, parent, payload, n);
            &&& after.queue.len() == c.queue.len() + n
            &&& after.queue[c.queue.len() + i] == (Queued {
                message: delivery::nth_outbound(parent, c.id, payload, i),
                last_sent: None,
            })
            &&& c.queue.is_prefix_of(after.queue)
            &&& same_but_queue(after, c)
        }),
    decreases n,
{
    if n == 1 {
        assert(dispatcher::fragments_enqueued(c, parent, payload, 0) == c);
    } else if i < n - 1 {
        lemma_enqueued_nth(c, parent, payload, n - 1, i);
    } else {
        lemma_enqueued_nth(c, parent, payload, n - 1, 0);
    }
}

/// A message that is taken is put at the end of the queue of its channel, under the id that the
/// caller is told, and read at the other end with the payload that was handed in. One of more than
/// 1024 bytes is put there in pieces of that size, in order, the last of which has what is left.
/// Nothing else changes in that channel, and nothing at all in any other.
pub proof fn lemma_message_queued(e: EndpointView, channel: u8, payload: Seq<u8>)
    requires
        e.wf(),
        e.config.valid(),
        e.message_sent(channel, payload).1 is Ok,
    ensures
        ({
            let (next, result) = e.message_sent(channel, payload);
            let id = result->Ok_0;
            let before = e.channels[channel];
            let after = next.channels[channel];
            let n = before.queue.len();
            let count = (payload.len() + 1023) / 1024;
            &&& e.channels.contains_key(channel)
            &&& next.channels.dom() == e.channels.dom()
            &&& before.queue.is_prefix_of(after.queue)
            &&& same_but_queue(after, before)
            &&& forall|k: u8| k != channel ==> #[trigger] next.channels[k] == e.channels[k]
            &&& payload.len() <= 1024 ==> {
                &&& after.queue.len() == n + 1
                &&& after.queue[n as int].last_sent is None
                &&& reads_as(after.queue[n as int].message, id, channel, None, payload)
            }
            &&& payload.len() > 1024 ==> {
                &&& after.queue.len() == n + count
                &&& forall|i: int|
                    0 <= i < count ==> (#[trigger] after.queue[n + i]).last_sent is None
                        && reads_as(
                        after.queue[n + i].message,
                        MessageId(((id.0 + i) % 0x1_0000) as u16),
                        channel,
                        Some(
                            Fragment {
                                index: i as u16,
                                num_fragments: count as u16,
                                parent_id: id,
                            },
                        ),
                        slice_of(payload, i),
                    )
            }
        }),
{
    let (next, result) = e.message_sent(channel, payload);
    let c = e.channels[channel];
    let parent = e.dispatcher.next_message_id;
    assert(next.channels.dom() =~= e.channels.dom());
    if payload.len() <= 1024 {
        let m = next.channels[channel].queue.last().message;
        assert(delivery::carries(m, channel, payload));
        delivery::lemma_arrival(m, channel, payload, Seq::empty());
    } else {
        let n = c.queue.len();
        let count = dispatcher::fragment_count(payload.len());
        let after = next.channels[channel];
        lemma_enqueued_nth(c, parent, payload, count as int, 0);
        assert forall|i: int| 0 <= i < count implies (#[trigger] after.queue[n + i]).last_sent is None
            && reads_as(
            after.queue[n + i].message,
            MessageId(((parent + i) % 0x1_0000) as u16),
            channel,
            Some(
                Fragment {
                    index: i as u16,
                    num_fragments: count as u16,
                    parent_id: MessageId(parent),
                },
            ),
            slice_of(payload, i),
        ) by {
            lemma_enqueued_nth(c, parent, payload, count as int, i);
            delivery::lemma_nth_outbound(parent, channel, payload, i);
            assert(slice_of(payload, i) =~= dispatcher::fragment_payload(payload, i));
        }
    }
}

/// A message that is not taken leaves all channels as they are.
pub proof fn lemma_message_not_queued(e: EndpointView, channel: u8, payload: Seq<u8>)
    requires
        e.message_sent(channel, payload).1 is Err,
    ensures
        e.message_sent(channel, payload).0.channels == e.channels,
        e.message_sent(channel, payload).0.dispatcher == e.dispatcher,
{
}

/// As time passes, the clock of every channel moves on as the endpoint's own does, by just as much
/// as the caller says, and nothing else of any channel changes.
pub proof fn lemma_clocks(e: EndpointView, dt: Time)
    ensures
        i64::MIN <= e.time + dt <= i64::MAX ==> e.updated(dt).time == e.time + dt,
        e.updated(dt) == (EndpointView {
            time: e.updated(dt).time,
            channels: e.updated(dt).channels,
            ..e
        }),
        e.updated(dt).channels.dom() == e.channels.dom(),
        forall|k: u8| #[trigger]
            e.channels.contains_key(k) ==> {
                let (before, after) = (e.channels[k], e.updated(dt).channels[k]);
                &&& i64::MIN <= before.time + dt <= i64::MAX ==> after.time == before.time + dt
                &&& after == ChannelView { time: after.time, ..before }
            },
{
    assert(e.updated(dt).channels.dom() =~= e.channels.dom());
}

/// An endpoint after a number of ticks of the game loop.
pub open spec fn ticked(e: EndpointView, ticks: Seq<Time>) -> EndpointView
    decreases ticks.len(),
{
    if ticks.len() == 0 {
        e
    } else {
        ticked(e, ticks.drop_last()).updated(ticks.last())
    }
}

/// How long some ticks take together.
pub open spec fn total(ticks: Seq<Time>) -> int
    decreases ticks.len(),
{
    if ticks.len() == 0 {
        0
    } else {
        total(ticks.drop_last()) + ticks.last()
    }
}

proof fn lemma_ticked(e: EndpointView, ticks: Seq<Time>, k: u8)
    requires
        e.channels.contains_key(k),
        forall|i: int| 0 <= i < ticks.len() ==> (#[trigger] ticks[i]) >= 0,
        e.channels[k].time + total(ticks) <= i64::MAX,
    ensures
        total(ticks) >= 0,
        ticked(e, ticks).channels.contains_key(k),
        ticked(e, ticks).channels[k].time == e.channels[k].time + total(ticks),
        ticked(e, ticks).channels[k] == (ChannelView {
            time: ticked(e, ticks).channels[k].time,
            ..e.channels[k]
        }),
    decreases ticks.len(),
{
    if ticks.len() > 0 {
        assert(ticks.last() == ticks[ticks.len() - 1]);
        assert forall|i: int| 0 <= i < ticks.drop_last().len() implies (
        #[trigger] ticks.drop_last()[i]) >= 0 by {
            assert(ticks[i] >= 0);
        }
        lemma_ticked(e, ticks.drop_last(), k);
        lemma_clocks(ticked(e, ticks.drop_last()), ticks.last());
        assert(ticked(e, ticks.drop_last()).channels.dom().contains(k));
    }
}

/// A message on a reliable channel that went out and was not acked is sent again once 100 ms have
/// passed since, in however many ticks, and not before.
pub proof fn lemma_sent_again(e: EndpointView, ticks: Seq<Time>, k: u8, i: int, sent_at: Time)
    requires
        e.channels.contains_key(k),
        k < 32,
        e.channels[k].reliable,
        0 <= i < e.channels[k].queue.len(),
        e.channels[k].queue[i].last_sent == Some(sent_at),
        forall|j: int| 0 <= j < ticks.len() ==> (#[trigger] ticks[j]) >= 0,
        e.channels[k].time + total(ticks) <= i64::MAX,
    ensures
        ({
            let after = ticked(e, ticks);
            let due = e.channels[k].time + total(ticks) - sent_at >= 100_000_000;
            &&& after.channels[k].queue == e.channels[k].queue
            &&& after.channels[k].ready(after.channels[k].queue[i]) == due
            &&& due ==> channel::first_ready(after.channels, 0) is Some
        }),
{
    lemma_ticked(e, ticks, k);
    let after = ticked(e, ticks);
    channel::lemma_first_ready(after.channels, 0);
    let q = after.channels[k].queue[i];
    if e.channels[k].time + total(ticks) - sent_at >= 100_000_000 {
        assert(after.channels[k].ready(q));
        assert(after.channels[k].any_ready());
    }
}

/// A message that has not gone out yet may go out at once, on whatever channel.
pub proof fn lemma_ready_at_once(e: EndpointView, k: u8, i: int)
    requires
        e.channels.contains_key(k),
        k < 32,
        0 <= i < e.channels[k].queue.len(),
        e.channels[k].queue[i].last_sent is None || !e.channels[k].reliable,
    ensures
        e.channels[k].ready(e.channels[k].queue[i]),
        channel::first_ready(e.channels, 0) is Some,
{
    channel::lemma_first_ready(e.channels, 0);
    assert(e.channels[k].ready(e.channels[k].queue[i]));
    assert(e.channels[k].any_ready());
}

/// What putting messages `ms` into packets does to a channel: of the messages in its queue, those
/// that are not among `ms` stay as they are. A message that is kept, though it is among them, is
/// marked as sent just now. Nothing joins the queue, and the rest of the channel stays the same.
pub open spec fn taken_from(before: ChannelView, after: ChannelView, ms: Seq<MessageView>) -> bool {
    &&& same_but_queue(after, before)
    &&& forall|q: Queued| #[trigger]
        before.queue.contains(q) ==> ms.contains(q.message) || after.queue.contains(q)
    &&& forall|q: Queued| #[trigger]
        after.queue.contains(q) ==> before.queue.contains(q) || (before.reliable && q.last_sent
            == Some(before.time) && ms.contains(q.message))
}

/// The same for all channels. Every one of `ms` was ready in the queue of its channel.
pub open spec fn taken_from_all(
    before: Map<u8, ChannelView>,
    after: Map<u8, ChannelView>,
    ms: Seq<MessageView>,
) -> bool {
    &&& before.dom() == after.dom()
    &&& forall|k: u8| #[trigger] before.contains_key(k) ==> taken_from(before[k], after[k], ms)
    &&& forall|i: int| 0 <= i < ms.len() ==> was_ready(before, #[trigger] ms[i])
}

/// Whether a message was ready in the queue of some channel.
pub open spec fn was_ready(channels: Map<u8, ChannelView>, m: MessageView) -> bool {
    exists|k: u8, q: Queued| #[trigger] ready_in(channels, k, q) && q.message == m
}

/// Whether `q` is ready in the queue of channel `k`.
pub open spec fn ready_in(channels: Map<u8, ChannelView>, k: u8, q: Queued) -> bool {
    channels.contains_key(k) && channels[k].queue.contains(q) && channels[k].ready(q)
}

proof fn lemma_taken_chain(
    a: Map<u8, ChannelView>,
    b: Map<u8, ChannelView>,
    c: Map<u8, ChannelView>,
    ms: Seq<MessageView>,
    ns: Seq<MessageView>,
)
    requires
        taken_from_all(a, b, ms),
        taken_from_all(b, c, ns),
    ensures
        taken_from_all(a, c, ms + ns),
{
    let all = ms + ns;
    assert forall|m: MessageView| ms.contains(m) || ns.contains(m) implies #[trigger] all.contains(
        m,
    ) by {
        if ms.contains(m) {
            assert(all[ms.index_of(m)] == m);
        } else {
            assert(all[ms.len() + ns.index_of(m)] == m);
        }
    }
    assert forall|k: u8| #[trigger] a.contains_key(k) implies taken_from(a[k], c[k], all) by {
        assert(b.dom().contains(k));
        assert(taken_from(a[k], b[k], ms) && taken_from(b[k], c[k], ns));
        assert forall|q: Queued| #[trigger] a[k].queue.contains(q) implies all.contains(q.message)
            || c[k].queue.contains(q) by {
            if !ms.contains(q.message) {
                assert(b[k].queue.contains(q));
            }
        }
        assert forall|q: Queued| #[trigger] c[k].queue.contains(q) implies a[k].queue.contains(q)
            || (a[k].reliable && q.last_sent == Some(a[k].time) && all.contains(q.message)) by {
            if b[k].queue.contains(q) {
            }
        }
    }
    assert forall|i: int| 0 <= i < all.len() implies was_ready(a, #[trigger] all[i]) by {
        if i < ms.len() {
            assert(was_ready(a, ms[i]));
        } else {
            assert(was_ready(b, ns[i - ms.len()]));
            let (k, q) = choose|k: u8, q: Queued| #[trigger]
                ready_in(b, k, q) && q.message == ns[i - ms.len()];
            assert(a.dom().contains(k));
            assert(taken_from(a[k], b[k], ms));
            assert(ready_in(a, k, q));
        }
    }
}

proof fn lemma_taken_none(channels: Map<u8, ChannelView>)
    ensures
        taken_from_all(channels, channels, Seq::empty()),
{
}

proof fn lemma_with_message_taken(f: Filling, id: u8)
    requires
        endpoint::channels_wf(f.channels),
        f.channels.contains_key(id),
        f.channels[id].first_fit(f.out.room, 0) is Some,
    ensures
        ({
            let i = f.channels[id].first_fit(f.out.room, 0)->0;
            taken_from_all(
                f.channels,
                f.with_message(id, i).channels,
                seq![f.channels[id].queue[i].message],
            )
        }),
{
    let c = f.channels[id];
    c.lemma_first_fit(f.out.room, 0);
    let i = c.first_fit(f.out.room, 0)->0;
    let next = f.with_message(id, i);
    let ms = seq![c.queue[i].message];
    assert(ms[0] == c.queue[i].message);
    assert(next.channels.dom() =~= f.channels.dom());
    let d = c.sent(i);
    assert forall|q: Queued| #[trigger] c.queue.contains(q) implies ms.contains(q.message)
        || d.queue.contains(q) by {
        let j = c.queue.index_of(q);
        if j == i {
            assert(ms.contains(q.message));
        } else if c.reliable || j < i {
            assert(d.queue[j] == q);
        } else {
            assert(d.queue[j - 1] == q);
        }
    }
    assert forall|q: Queued| #[trigger] d.queue.contains(q) implies c.queue.contains(q) || (
    c.reliable && q.last_sent == Some(c.time) && ms.contains(q.message)) by {
        let j = d.queue.index_of(q);
        if c.reliable {
            if j != i {
                assert(c.queue[j] == q);
            }
        } else if j < i {
            assert(c.queue[j] == q);
        } else {
            assert(c.queue[j + 1] == q);
        }
    }
    assert(taken_from(c, d, ms));
    assert forall|k: u8| #[trigger] f.channels.contains_key(k) implies taken_from(
        f.channels[k],
        next.channels[k],
        ms,
    ) by {}
    assert(c.queue.contains(c.queue[i]));
    assert(ready_in(f.channels, id, c.queue[i]));
}

proof fn lemma_with_channel_taken(f: Filling, id: u8)
    requires
        endpoint::channels_wf(f.channels),
        f.channels.contains_key(id),
    ensures
        taken_from_all(f.channels, f.with_channel(id).channels, f.picked_from(id)),
    decreases f.out.room,
{
    match f.channels[id].first_fit(f.out.room, 0) {
        None => {
            lemma_taken_none(f.channels);
        },
        Some(i) => {
            f.lemma_with_message(id);
            lemma_with_message_taken(f, id);
            let next = f.with_message(id, i);
            if next.out.room >= 3 {
                lemma_with_channel_taken(next, id);
                lemma_taken_chain(
                    f.channels,
                    next.channels,
                    next.with_channel(id).channels,
                    seq![f.channels[id].queue[i].message],
                    next.picked_from(id),
                );
            }
        },
    }
}

/// Filling a packet takes the messages that are put in from the queues of their channels, and no
/// others. None gets lost, and none goes out that was not ready to.
pub proof fn lemma_filled_taken(f: Filling)
    requires
        endpoint::channels_wf(f.channels),
    ensures
        taken_from_all(f.channels, f.filled().channels, f.picked()),
    decreases f.out.room,
{
    match channel::first_ready(f.channels, 0) {
        None => {
            lemma_taken_none(f.channels);
        },
        Some(id) => {
            channel::lemma_first_ready(f.channels, 0);
            f.lemma_with_channel(id);
            lemma_with_channel_taken(f, id);
            let next = f.with_channel(id);
            if !(next.handles.len() == f.handles.len() || next.out.room < 3) {
                lemma_filled_taken(next);
                lemma_taken_chain(
                    f.channels,
                    next.channels,
                    next.filled().channels,
                    f.picked_from(id),
                    next.picked(),
                );
            }
        },
    }
}

/// Whether a packet is read at the other end as one of messages `ms`, with the salt of the
/// connection.
pub open spec fn holds(packet: Seq<u8>, xor_salt: u64, ms: Seq<MessageView>) -> bool {
    packets::parse_packet(packet) matches Ok((p, rest)) && p.body == (PacketBody::Messages {
        xor_salt,
    }) && rest == delivery::joined_bytes(ms)
}

/// Whether message `m` is in a packet.
pub open spec fn is_in(packet: Seq<u8>, xor_salt: u64, m: MessageView) -> bool {
    exists|ms: Seq<MessageView>| #[trigger] holds(packet, xor_salt, ms) && ms.contains(m)
}

/// Whether message `m` is in one of the packets from number `from` on.
pub open spec fn is_in_any(packets: Seq<Seq<u8>>, from: int, xor_salt: u64, m: MessageView) -> bool {
    exists|j: int| from <= j < packets.len() && is_in(#[trigger] packets[j], xor_salt, m)
}

/// One packet that is composed: what it holds was taken from the queues.
pub proof fn lemma_packet_taken(e: EndpointView, xor_salt: u64)
    requires
        e.wf(),
        delivery::genuine_channels(e.channels),
        e.xor_salt == Some(xor_salt),
        e.packet_composed().result is Ok,
    ensures
        ({
            let next = e.packet_composed().state;
            let ms = e.next_filling().picked();
            &&& next.outbox == e.outbox.push(next.outbox.last())
            &&& holds(next.outbox.last(), xor_salt, ms)
            &&& taken_from_all(e.channels, next.channels, ms)
        }),
{
    delivery::lemma_packet_holds(e, xor_salt);
    lemma_filled_taken(e.next_filling());
    lemma_packet_channels(e);
}

proof fn lemma_packet_channels(e: EndpointView)
    requires
        e.packet_composed().result is Ok,
    ensures
        e.packet_composed().state.channels == e.next_filling().filled().channels,
{
    reveal(EndpointView::packet_composed);
}

proof fn lemma_ready_sent(e: EndpointView, xor_salt: u64, k: u8, q: Queued)
    requires
        e.wf(),
        delivery::genuine_channels(e.channels),
        e.xor_salt == Some(xor_salt),
        e.messages_composed().result is Ok,
        ready_in(e.channels, k, q),
    ensures
        is_in_any(
            e.messages_composed().state.outbox,
            e.outbox.len() as int,
            xor_salt,
            q.message,
        ),
    decreases e.sequence_lag(), MAX_UNACKED_PACKETS - e.sent_unacked(),
{
    channel::lemma_first_ready(e.channels, 0);
    let i = e.channels[k].queue.index_of(q);
    assert(e.channels[k].ready(e.channels[k].queue[i]));
    assert(e.channels[k].any_ready());
    assert(channel::first_ready(e.channels, 0) is Some);
    assert(e.packet_composed().result is Ok);
    e.lemma_packet_composed();
    lemma_packet_taken(e, xor_salt);
    delivery::lemma_packet_holds(e, xor_salt);
    let next = e.packet_composed().state;
    let ms = e.next_filling().picked();
    let last = e.messages_composed().state;
    assert(last == next.messages_composed().state);
    if ms.contains(q.message) {
        handshake::lemma_composed_keeps(next);
        let j = e.outbox.len() as int;
        assert(last.outbox[j] == next.outbox[j]);
        assert(is_in(last.outbox[j], xor_salt, q.message));
    } else {
        assert(taken_from(e.channels[k], next.channels[k], ms));
        assert(next.channels.dom().contains(k));
        assert(ready_in(next.channels, k, q));
        lemma_ready_sent(next, xor_salt, k, q);
        let j = choose|j: int|
            next.outbox.len() <= j < last.outbox.len() && is_in(
                #[trigger] last.outbox[j],
                xor_salt,
                q.message,
            );
        assert(is_in(last.outbox[j], xor_salt, q.message));
    }
}

/// Unless something stands in the way, every message that is ready goes out now, whatever its
/// channel and however many there are: it is in one of the packets that are handed out to be sent.
pub proof fn lemma_all_ready_sent(e: EndpointView, xor_salt: u64, k: u8, q: Queued)
    requires
        e.wf(),
        delivery::genuine_channels(e.channels),
        e.xor_salt == Some(xor_salt),
        e.composed().result is Ok,
        ready_in(e.channels, k, q),
    ensures
        e.drained().2 is None,
        is_in_any(e.drained().1, e.outbox.len() as int, xor_salt, q.message),
{
    let sent = e.messages_composed();
    assert(sent.result is Ok);
    lemma_ready_sent(e, xor_salt, k, q);
    let j = choose|j: int|
        e.outbox.len() <= j < sent.state.outbox.len() && is_in(
            #[trigger] sent.state.outbox[j],
            xor_salt,
            q.message,
        );
    assert(e.drained().1[j] == sent.state.outbox[j]);
}

/// From handing a message in to the packet that it goes out in: a message of up to 1024 bytes that
/// is taken is in one of the packets that are handed out to be sent next.
pub proof fn lemma_message_goes_out(
    e: EndpointView,
    xor_salt: u64,
    channel: u8,
    payload: Seq<u8>,
)
    requires
        e.wf(),
        e.config.valid(),
        delivery::genuine_channels(e.channels),
        e.xor_salt == Some(xor_salt),
        payload.len() <= 1024,
        e.message_sent(channel, payload).1 is Ok,
        e.message_sent(channel, payload).0.wf(),
        e.message_sent(channel, payload).0.composed().result is Ok,
    ensures
        ({
            let (next, result) = e.message_sent(channel, payload);
            exists|m: MessageView|
                {
                    &&& #[trigger] reads_as(m, result->Ok_0, channel, None, payload)
                    &&& is_in_any(next.drained().1, next.outbox.len() as int, xor_salt, m)
                }
        }),
{
    let (next, result) = e.message_sent(channel, payload);
    lemma_message_queued(e, channel, payload);
    delivery::lemma_message_sent_genuine(e, channel, payload);
    let c = next.channels[channel];
    let q = c.queue[e.channels[channel].queue.len() as int];
    assert(next.channels.dom().contains(channel));
    assert(c.queue.contains(q));
    assert(ready_in(next.channels, channel, q));
    lemma_all_ready_sent(next, xor_salt, channel, q);
    assert(reads_as(q.message, result->Ok_0, channel, None, payload));
}

/// A packet with room for the largest message there is, while any message is ready, takes at least
/// one. Of the lowest channel that has one ready, it is the first that is.
pub proof fn lemma_packet_takes_one(f: Filling)
    requires
        endpoint::channels_wf(f.channels),
        delivery::genuine_channels(f.channels),
        f.out.room >= 1043,
        channel::first_ready(f.channels, 0) is Some,
    ensures
        ({
            let k = channel::first_ready(f.channels, 0)->0;
            let c = f.channels[k];
            &&& f.picked().len() > 0
            &&& f.channels.contains_key(k)
            &&& forall|j: u8|
                j < k && #[trigger] f.channels.contains_key(j) ==> !f.channels[j].any_ready()
            &&& exists|i: int| #[trigger]
                is_first_ready(c, i) && f.picked()[0] == c.queue[i].message
        }),
{
    channel::lemma_first_ready(f.channels, 0);
    let k = channel::first_ready(f.channels, 0)->0;
    let c = f.channels[k];
    assert forall|i: int| 0 <= i < c.queue.len() implies (#[trigger] c.queue[i]).message.size()
        <= 1043 by {
        let m = c.queue[i].message;
        assert(delivery::genuine(m, c.id));
        let payload = choose|payload: Seq<u8>| delivery::carries(m, c.id, payload);
        message::lemma_outbound_len(m.id, c.id, payload, m.fragment);
        assert(m.wf());
    }
    c.lemma_first_fit(f.out.room, 0);
    let i = choose|i: int| 0 <= i < c.queue.len() && c.ready(#[trigger] c.queue[i]);
    assert(c.queue[i].message.size() <= 1043);
    let first = c.first_fit(f.out.room, 0)->0;
    assert forall|j: int| 0 <= j < first implies !c.ready(#[trigger] c.queue[j]) by {
        assert(c.queue[j].message.size() <= 1043);
    }
    assert(is_first_ready(c, first));
    assert(f.picked_from(k)[0] == c.queue[first].message);
}

/// Whether message number `i` of a channel is the first that is ready.
pub open spec fn is_first_ready(c: ChannelView, i: int) -> bool {
    &&& 0 <= i < c.queue.len()
    &&& c.ready(c.queue[i])
    &&& forall|j: int| 0 <= j < i ==> !c.ready(#[trigger] c.queue[j])
}

/// What putting a message into a packet does to its channel: an unreliable channel no longer has it,
/// a reliable one has it still, marked as sent just now. All other messages stay where they are.
pub proof fn lemma_put_into_packet(c: ChannelView, i: int)
    requires
        0 <= i < c.queue.len(),
    ensures
        !c.reliable ==> c.sent(i).queue.insert(i, c.queue[i]) == c.queue,
        c.reliable ==> c.sent(i).queue == c.queue.update(
            i,
            Queued { message: c.queue[i].message, last_sent: Some(c.time) },
        ),
        same_but_queue(c.sent(i), c),
{
    if !c.reliable {
        assert(c.sent(i).queue.insert(i, c.queue[i]) =~= c.queue);
    }
}

/// Whether a channel has no message that may go out now and that there is room for.
pub open spec fn none_fits(c: ChannelView, room: nat) -> bool {
    forall|i: int|
        0 <= i < c.queue.len() && c.ready(#[trigger] c.queue[i]) ==> c.queue[i].message.size() > room
}

proof fn lemma_channel_full(f: Filling, id: u8)
    requires
        endpoint::channels_wf(f.channels),
        f.channels.contains_key(id),
    ensures
        ({
            let next = f.with_channel(id);
            &&& next.out.room < 3 || none_fits(next.channels[id], next.out.room)
            &&& next.handles.len() == f.handles.len() ==> next == f
        }),
    decreases f.out.room,
{
    f.channels[id].lemma_first_fit(f.out.room, 0);
    if let Some(i) = f.channels[id].first_fit(f.out.room, 0) {
        f.lemma_with_message(id);
        let next = f.with_message(id, i);
        if next.out.room >= 3 {
            lemma_channel_full(next, id);
            next.lemma_with_channel(id);
        }
    }
}

/// A packet is filled as far as it goes: in the end there is next to no room left, or no message is
/// ready any more, or the lowest channel that has one ready has none that there is room for.
pub proof fn lemma_packet_full(f: Filling)
    requires
        endpoint::channels_wf(f.channels),
    ensures
        ({
            let next = f.filled();
            ||| next.out.room < 3
            ||| channel::first_ready(next.channels, 0) is None
            ||| (channel::first_ready(next.channels, 0) matches Some(k) && none_fits(
                next.channels[k],
                next.out.room,
            ))
        }),
    decreases f.out.room,
{
    if let Some(id) = channel::first_ready(f.channels, 0) {
        channel::lemma_first_ready(f.channels, 0);
        f.lemma_with_channel(id);
        lemma_channel_full(f, id);
        let next = f.with_channel(id);
        if !(next.handles.len() == f.handles.len() || next.out.room < 3) {
            lemma_packet_full(next);
        }
    }
}

/// How much of a packet is set aside for a message: no less than it takes, and not much more.
pub proof fn lemma_set_aside(m: MessageView)
    ensures
        m.bytes.len() + 4 <= m.size() <= m.bytes.len() + 10,
        m.fragment is None ==> m.size() <= m.bytes.len() + 5,
{
}

} // verus!
