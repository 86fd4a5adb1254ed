//! What holds of packets that are received twice, and of acks.

use crate::channel::{ChannelView, Queued};
use crate::delivery;
use crate::dispatcher::{self, AckProgress, FragStatus, MessageHandle};
use crate::endpoint::EndpointView;
use crate::error::PicklebackError;
use crate::protocol::ack_header::MAX_UNACKED_PACKETS;
use crate::protocol::message::{self, MessageView};
use crate::protocol::packets::{HeaderView, PacketType};
use crate::sequence_buffer::{self, Window};
use crate::{channel, MessageId, PicklebackStats, ReceivedMeta, SentMeta};
use vstd::prelude::*;

verus! {

/// Whether two endpoints differ in their counters at most.
pub open spec fn same_but_counters(a: EndpointView, b: EndpointView) -> bool {
    a == EndpointView { stats: a.stats, ..b }
}

proof fn lemma_acks_keep_received(
    e: EndpointView,
    entries: Seq<(u16, bool)>,
    n: int,
)
    ensures
        e.acks_noted(entries, n).received == e.received,
    decreases n,
{
    if n > 0 {
        lemma_acks_keep_received(e, entries, n - 1);
    }
}

proof fn lemma_messages_keep_received(e: EndpointView, s: Seq<u8>)
    ensures
        e.messages_received(s).state.received == e.received,
    decreases s.len(),
{
    if s.len() > 0 {
        if let Ok((m, rest)) = message::parse_message(s) {
            message::lemma_parse_consumes(s);
            lemma_messages_keep_received(e.message_received(m), rest);
        }
    }
}

/// Receiving a packet that is not refused notes its number.
pub proof fn lemma_packet_noted(e: EndpointView, header: HeaderView, rest: Seq<u8>)
    requires
        e.received.in_range(header.id.0),
        e.received.lookup(header.id.0) is None,
    ensures
        ({
            let next = e.packet_received(header, rest).state;
            &&& next.received == e.received.inserted(header.id.0, e.received_meta(header, rest))
            &&& next.received.lookup(header.id.0) is Some
        }),
{
    let counted = EndpointView {
        stats: PicklebackStats {
            packets_received: e.stats.packets_received.wrapping_add(1),
            ..e.stats
        },
        received: e.received.inserted(header.id.0, e.received_meta(header, rest)),
        ..e
    };
    e.received.lemma_inserted(header.id.0, e.received_meta(header, rest));
    if let Some(ack) = header.ack {
        lemma_acks_keep_received(
            counted,
            ack.entries(),
            ack.entries().len() as int,
        );
    }
    lemma_messages_keep_received(e.packet_noted(header, rest), rest);
}

/// A packet with a number that was received before, or one that is too old, is refused, whatever is
/// in it, and changes nothing but the counters.
pub proof fn lemma_packet_refused(e: EndpointView, header: HeaderView, rest: Seq<u8>)
    requires
        !e.received.in_range(header.id.0) || e.received.lookup(header.id.0) is Some,
    ensures
        ({
            let o = e.packet_received(header, rest);
            &&& same_but_counters(o.state, e)
            &&& o.result == if e.received.in_range(header.id.0) {
                Err::<(), _>(PicklebackError::DuplicatePacket)
            } else {
                Err(PicklebackError::StalePacket)
            }
        }),
{
}

proof fn lemma_still_in_range(w: Window<ReceivedMeta>, id: u16, meta: ReceivedMeta)
    requires
        0 < w.size < 0x8000,
        w.in_range(id),
    ensures
        w.inserted(id, meta).in_range(id),
{
    w.lemma_inserted(id, meta);
}

/// The same packet is not received twice: the second time it is refused, and changes nothing but
/// the counters. It counts as a duplicate, unless the buffer is so large that sequence numbers
/// wrap around within it.
pub proof fn lemma_not_received_twice(
    e: EndpointView,
    once: EndpointView,
    header: HeaderView,
    first: Seq<u8>,
    second: Seq<u8>,
)
    requires
        e.received.in_range(header.id.0),
        e.received.lookup(header.id.0) is None,
        once == e.packet_received(header, first).state,
    ensures
        once.packet_received(header, second).result is Err,
        0 < e.received.size < 0x8000 ==> once.packet_received(header, second).result == Err::<
            (),
            _,
        >(PicklebackError::DuplicatePacket),
        same_but_counters(once.packet_received(header, second).state, once),
{
    let id = header.id.0;
    assert(once.received.lookup(id) is Some && (0 < e.received.size < 0x8000
        ==> once.received.in_range(id))) by {
        lemma_packet_noted(e, header, first);
        if 0 < e.received.size < 0x8000 {
            lemma_still_in_range(e.received, id, e.received_meta(header, first));
        }
    }
    lemma_packet_refused(once, header, second);
}

/// A packet that was received is acked by the headers written from then on, for as long as it is
/// among the packets that the other side may not have seen an ack of.
pub proof fn lemma_received_is_acked(e: EndpointView, packet_type: PacketType, back: int)
    requires
        0 <= back < e.received_unacked() <= MAX_UNACKED_PACKETS,
    ensures
        ({
            let header = e.header(packet_type)->Ok_0;
            let id = ((e.received.sequence - back) % 0x1_0000) as u16;
            &&& e.header(packet_type) is Ok
            &&& header.ack is Some
            &&& header.ack->0.entries()[back] == (id, e.received.lookup(id) is Some)
            &&& back < header.ack->0.entries().len()
        }),
{
    delivery::lemma_header(e, packet_type);
}

/// What noting acks does to one of the packets that were sent: it stays as it is, or is acked.
pub open spec fn acked_or_same(before: Option<SentMeta>, after: Option<SentMeta>) -> bool {
    after == before || (before matches Some(meta) && after == Some(
        SentMeta { acked: true, ..meta },
    ))
}

proof fn lemma_acks_noted_sent(
    e: EndpointView,
    entries: Seq<(u16, bool)>,
    n: int,
    id: u16,
)
    requires
        0 <= n <= entries.len(),
    ensures
        acked_or_same(
            e.sent.lookup(id),
            e.acks_noted(entries, n).sent.lookup(id),
        ),
    decreases n,
{
    if n > 0 {
        lemma_acks_noted_sent(e, entries, n - 1, id);
    }
}

proof fn lemma_ack_lasts(
    e: EndpointView,
    entries: Seq<(u16, bool)>,
    i: int,
    n: int,
)
    requires
        0 <= i < n <= entries.len(),
        entries[i].1,
        e.sent.lookup(entries[i].0) is Some,
    ensures
        e.acks_noted(entries, n).sent.lookup(entries[i].0) matches Some(meta)
            && meta.acked,
    decreases n,
{
    let id = entries[i].0;
    lemma_acks_noted_sent(e, entries, n - 1, id);
    if i < n - 1 {
        lemma_ack_lasts(e, entries, i, n - 1);
    }
}

/// Every packet that a header acks, and that is still known, is acked once the header was looked
/// at.
pub proof fn lemma_header_acks(e: EndpointView, header: HeaderView, i: int)
    requires
        header.ack matches Some(ack) && 0 <= i < ack.entries().len() && ack.entries()[i].1
            && e.sent.lookup(ack.entries()[i].0) is Some,
    ensures
        e.header_noted(header).sent.lookup(header.ack->0.entries()[i].0) matches Some(meta)
            && meta.acked,
{
    let entries = header.ack->0.entries();
    lemma_ack_lasts(e, entries, i, entries.len() as int);
}

/// Acking a packet again changes nothing.
pub proof fn lemma_acked_once(e: EndpointView, entry: (u16, bool))
    ensures
        e.ack_noted(entry).ack_noted(entry) == e.ack_noted(entry),
{
}

/// The packets that the first `n` entries of an ack header say have arrived, that are still known
/// and were not acked before.
pub open spec fn newly_acked(sent: Window<SentMeta>, entries: Seq<(u16, bool)>, n: int) -> Set<
    u16,
> {
    Set::new(
        |s: u16|
            entries.take(n).contains((s, true)) && (sent.lookup(s) matches Some(meta)
                && !meta.acked),
    )
}

proof fn lemma_newly_acked(sent: Window<SentMeta>, entries: Seq<(u16, bool)>, n: int)
    requires
        0 < n <= entries.len(),
    ensures
        ({
            let (s, acked) = entries[n - 1];
            let before = newly_acked(sent, entries, n - 1);
            newly_acked(sent, entries, n) == if acked && (sent.lookup(s) matches Some(meta)
                && !meta.acked) {
                before.insert(s)
            } else {
                before
            }
        }),
{
    let (s, acked) = entries[n - 1];
    assert(entries.take(n) =~= entries.take(n - 1).push(entries[n - 1]));
    assert forall|t: u16| #[trigger]
        entries.take(n).contains((t, true)) == (entries.take(n - 1).contains((t, true)) || (t == s
            && acked)) by {
        if entries.take(n - 1).contains((t, true)) {
            let i = entries.take(n - 1).index_of((t, true));
            assert(entries.take(n)[i] == (t, true));
        }
        if t == s && acked {
            assert(entries.take(n)[n - 1] == (t, true));
        }
        if entries.take(n).contains((t, true)) {
            let i = entries.take(n).index_of((t, true));
            if i < n - 1 {
                assert(entries.take(n - 1)[i] == (t, true));
            }
        }
    }
    let before = newly_acked(sent, entries, n - 1);
    if acked && (sent.lookup(s) matches Some(meta) && !meta.acked) {
        assert(newly_acked(sent, entries, n) =~= before.insert(s));
    } else {
        assert(newly_acked(sent, entries, n) =~= before);
    }
}

/// What became of packet `s` once the packets in `acked` were.
pub open spec fn after_acks(sent: Window<SentMeta>, acked: Set<u16>, s: u16) -> Option<SentMeta> {
    match sent.lookup(s) {
        Some(meta) if acked.contains(s) => Some(SentMeta { acked: true, ..meta }),
        other => other,
    }
}

proof fn lemma_acks_counted(e: EndpointView, entries: Seq<(u16, bool)>, n: int)
    requires
        0 <= n <= entries.len(),
    ensures
        ({
            let next = e.acks_noted(entries, n);
            let acked = newly_acked(e.sent, entries, n);
            &&& acked.finite()
            &&& next.stats.packets_acked == (e.stats.packets_acked + acked.len())
                % 0x1_0000_0000_0000_0000
            &&& forall|s: u16| #[trigger] next.sent.lookup(s) == after_acks(e.sent, acked, s)
        }),
    decreases n,
{
    let acked = newly_acked(e.sent, entries, n);
    if n == 0 {
        assert(acked =~= Set::empty());
    } else {
        lemma_acks_counted(e, entries, n - 1);
        lemma_newly_acked(e.sent, entries, n);
        let before = e.acks_noted(entries, n - 1);
        let (s, is_acked) = entries[n - 1];
        let so_far = newly_acked(e.sent, entries, n - 1);
        assert(before.sent.lookup(s) == after_acks(e.sent, so_far, s));
        let next = e.acks_noted(entries, n);
        assert forall|t: u16| #[trigger] next.sent.lookup(t) == after_acks(e.sent, acked, t) by {
            assert(before.sent.lookup(t) == after_acks(e.sent, so_far, t));
        }
    }
}

proof fn lemma_acks_again(e: EndpointView, entries: Seq<(u16, bool)>, n: int)
    requires
        0 <= n <= entries.len(),
        forall|i: int|
            0 <= i < n && (#[trigger] entries[i]).1 ==> (e.sent.lookup(entries[i].0) matches Some(
                meta,
            ) ==> meta.acked),
    ensures
        e.acks_noted(entries, n) == e,
    decreases n,
{
    if n > 0 {
        lemma_acks_again(e, entries, n - 1);
        assert(entries[n - 1].1 ==> (e.sent.lookup(entries[n - 1].0) matches Some(meta)
            ==> meta.acked));
    }
}

/// Whether the acks of a header that is looked at count once: exactly those packets become acked
/// that it says have arrived, that are still known and were not acked before, and the counter goes
/// up by how many they are. Any header with the same acks after that, of whatever packet, changes
/// nothing at all.
pub open spec fn counted_once(
    before: EndpointView,
    header: HeaderView,
    after: EndpointView,
) -> bool {
    header.ack matches Some(ack) ==> {
        let acked = newly_acked(before.sent, ack.entries(), ack.entries().len() as int);
        &&& acked.finite()
        &&& after.stats.packets_acked == (before.stats.packets_acked + acked.len())
            % 0x1_0000_0000_0000_0000
        &&& forall|s: u16| #[trigger] after.sent.lookup(s) == after_acks(before.sent, acked, s)
        &&& forall|again: HeaderView|
            again.ack == header.ack ==> #[trigger] after.header_noted(again) == after
    }
}

/// The acks of a whole header count once.
pub proof fn lemma_header_counted(e: EndpointView, header: HeaderView)
    ensures
        counted_once(e, header, e.header_noted(header)),
{
    if let Some(ack) = header.ack {
        let entries = ack.entries();
        let n = entries.len() as int;
        lemma_acks_counted(e, entries, n);
        let next = e.header_noted(header);
        let noted = e.acks_noted(entries, n);
        assert(next.sent == noted.sent);
        let acked = newly_acked(e.sent, entries, n);
        assert forall|i: int| 0 <= i < n && (#[trigger] entries[i]).1 implies (next.sent.lookup(
            entries[i].0,
        ) matches Some(meta) ==> meta.acked) by {
            let s = entries[i].0;
            assert(noted.sent.lookup(s) == after_acks(e.sent, acked, s));
            assert(entries.take(n)[i] == (s, true));
        }
        lemma_acks_again(next, entries, n);
    }
}

proof fn lemma_steps_keep(p: AckProgress, handles: Seq<MessageHandle>, from: int, n: int, c: u8)
    requires
        0 <= from <= n <= handles.len(),
        p.acks.contains_key(c),
    ensures
        p.steps(handles, from).acks[c].is_prefix_of(p.steps(handles, n).acks[c]),
        p.steps(handles, n).acks.contains_key(c),
    decreases n,
{
    if from < n {
        lemma_steps_keep(p, handles, from, n - 1, c);
        assert(p.steps(handles, n - 1).acks[c].is_prefix_of(p.steps(handles, n).acks[c]));
    } else if n > 0 {
        lemma_steps_keep(p, handles, n - 1, n - 1, c);
    }
}

/// Once the packet that a message went out in is acked, the consumer is told that the message is,
/// on the channel that it was sent on. Acks that the consumer has not taken yet are kept.
pub proof fn lemma_message_acked(
    e: EndpointView,
    sequence: u16,
    handles: Seq<MessageHandle>,
    i: int,
)
    requires
        e.sent.lookup(sequence) matches Some(meta) && !meta.acked,
        e.dispatcher.packets.lookup(sequence) == Some(handles),
        0 <= i < handles.len(),
        handles[i].frag_index is None,
        e.dispatcher.acks.contains_key(handles[i].channel),
    ensures
        ({
            let next = e.ack_noted((sequence, true));
            let c = handles[i].channel;
            &&& next.dispatcher.acks[c].contains(handles[i].id)
            &&& e.dispatcher.acks[c].is_prefix_of(next.dispatcher.acks[c])
        }),
{
    let p = AckProgress {
        frags: e.dispatcher.frags,
        acks: e.dispatcher.acks,
        channels: e.channels,
        returned: Seq::empty(),
    };
    let c = handles[i].channel;
    lemma_steps_keep(p, handles, 0, handles.len() as int, c);
    lemma_steps_keep(p, handles, 0, i, c);
    lemma_steps_keep(p, handles, i + 1, handles.len() as int, c);
    let told = p.steps(handles, i + 1).acks[c];
    assert(told.last() == handles[i].id);
    let all = p.steps(handles, handles.len() as int).acks[c];
    assert(all[told.len() - 1] == handles[i].id);
}

/// A message on a reliable channel is not sent again once the packet that it went out in is acked.
pub proof fn lemma_acked_not_resent(c: ChannelView, m: MessageView)
    requires
        c.reliable,
        m.channel == c.id,
        m.fragment matches Some(f) ==> f.parent_id == MessageId(m.id.0.wrapping_sub(f.index)),
    ensures
        forall|i: int|
            0 <= i < c.acked(delivery::handle_of(m)).queue.len() ==> (#[trigger] c.acked(
                delivery::handle_of(m),
            ).queue[i]).message != m,
{
    let h = delivery::handle_of(m);
    c.lemma_acked(h);
    assert forall|i: int| 0 <= i < c.acked(h).queue.len() implies (#[trigger] c.acked(
        h,
    ).queue[i]).message != m by {
        assert(!c.acked(h).queue[i].dismissed_by(h));
    }
}

/// Whether an ack of the first `n` of `handles` says that message `q` on channel `c` has arrived.
pub open spec fn arrived(q: Queued, c: u8, handles: Seq<MessageHandle>, n: int) -> bool {
    exists|i: int|
        0 <= i < n && (#[trigger] handles[i]).channel == c && q.dismissed_by(handles[i])
}

proof fn lemma_acked_queue(c: ChannelView, handle: MessageHandle, q: Queued)
    requires
        c.reliable,
    ensures
        c.acked(handle).queue.contains(q) <==> c.queue.contains(q) && !q.dismissed_by(handle),
{
    let keep = |q: Queued| !q.dismissed_by(handle);
    if c.acked(handle).queue.contains(q) {
        c.queue.lemma_filter_contains_rev(keep, q);
        c.queue.lemma_filter_pred(keep, c.queue.filter(keep).index_of(q));
    }
    if c.queue.contains(q) && !q.dismissed_by(handle) {
        c.queue.lemma_filter_contains(keep, c.queue.index_of(q));
    }
}

proof fn lemma_steps_dismiss(
    p: AckProgress,
    handles: Seq<MessageHandle>,
    n: int,
    c: u8,
    q: Queued,
)
    requires
        0 <= n <= handles.len(),
        p.channels.contains_key(c),
        p.channels[c].reliable,
    ensures
        p.steps(handles, n).channels.contains_key(c),
        p.steps(handles, n).channels[c].reliable,
        p.steps(handles, n).channels[c].queue.contains(q) <==> p.channels[c].queue.contains(q)
            && !arrived(q, c, handles, n),
    decreases n,
{
    if n > 0 {
        lemma_steps_dismiss(p, handles, n - 1, c, q);
        let before = p.steps(handles, n - 1).channels[c];
        let h = handles[n - 1];
        if h.channel == c {
            lemma_acked_queue(before, h, q);
        }
    }
}

/// An ack of a packet takes exactly those messages out of a reliable channel that went out in the
/// packet. Every other message stays, to be sent again.
pub proof fn lemma_ack_dismisses(
    e: EndpointView,
    sequence: u16,
    handles: Seq<MessageHandle>,
    c: u8,
    q: Queued,
)
    requires
        e.sent.lookup(sequence) matches Some(meta) && !meta.acked,
        e.dispatcher.packets.lookup(sequence) == Some(handles),
        e.channels.contains_key(c),
        e.channels[c].reliable,
    ensures
        ({
            let next = e.ack_noted((sequence, true));
            &&& next.channels.contains_key(c)
            &&& next.channels[c].queue.contains(q) <==> e.channels[c].queue.contains(q)
                && !arrived(q, c, handles, handles.len() as int)
        }),
{
    let p = AckProgress {
        frags: e.dispatcher.frags,
        acks: e.dispatcher.acks,
        channels: e.channels,
        returned: Seq::empty(),
    };
    lemma_steps_dismiss(p, handles, handles.len() as int, c, q);
}

proof fn lemma_without(ids: Seq<MessageId>, id: MessageId)
    ensures
        forall|other: MessageId|
            #![trigger dispatcher::without(ids, id).contains(other)]
            dispatcher::without(ids, id).contains(other) <==> ids.contains(other) && other != id,
{
    let p = dispatcher::other_than(id);
    assert forall|other: MessageId|
        #![trigger dispatcher::without(ids, id).contains(other)]
        dispatcher::without(ids, id).contains(other) <==> ids.contains(other) && other != id by {
        if dispatcher::without(ids, id).contains(other) {
            ids.lemma_filter_contains_rev(p, other);
            let i = ids.filter(p).index_of(other);
            ids.lemma_filter_pred(p, i);
        }
        if ids.contains(other) && other != id {
            ids.lemma_filter_contains(p, ids.index_of(other));
        }
    }
}

/// The fragments of a message may be acked in any order. Each ack takes one off those that are
/// still to be acked; the message is acked with the last of them, and never again after that.
pub proof fn lemma_fragments_acked(
    frags: Window<FragStatus>,
    parent: MessageId,
    ids: Seq<MessageId>,
    id: MessageId,
    later: MessageId,
)
    requires
        frags.lookup(parent.0) == Some(FragStatus::Partial(ids)),
    ensures
        ({
            let (next, done) = dispatcher::fragment_acked(frags, parent, id);
            &&& done <==> forall|i: int| 0 <= i < ids.len() ==> #[trigger] ids[i] == id
            &&& done ==> next.lookup(parent.0) == Some(FragStatus::Complete)
                && !dispatcher::fragment_acked(next, parent, later).1
                && dispatcher::fragment_acked(next, parent, later).0 == next
            &&& !done ==> exists|left: Seq<MessageId>|
                {
                    &&& #[trigger] next.lookup(parent.0) == Some(FragStatus::Partial(left))
                    &&& forall|other: MessageId| #[trigger]
                        left.contains(other) <==> ids.contains(other) && other != id
                }
        }),
{
    let left = dispatcher::without(ids, id);
    lemma_without(ids, id);
    if left.len() == 0 {
        assert forall|i: int| 0 <= i < ids.len() implies #[trigger] ids[i] == id by {
            assert(ids.contains(ids[i]));
            assert(!left.contains(ids[i]));
        }
    } else {
        assert(left.contains(left[0]));
        let i = ids.index_of(left[0]);
        assert(ids[i] != id);
        assert(frags.replaced(parent.0, FragStatus::Partial(left)).lookup(parent.0) == Some(
            FragStatus::Partial(left),
        ));
    }
}

proof fn lemma_backpressure_step(sent: u16, acked: u16)
    requires
        sent.wrapping_sub(acked) < MAX_UNACKED_PACKETS,
    ensures
        sequence_buffer::seq_gt(sent.wrapping_add(1), sent),
        sent.wrapping_add(1).wrapping_sub(acked) == sent.wrapping_sub(acked) + 1,
{
}

proof fn lemma_packet_backpressure(e: EndpointView)
    requires
        e.wf(),
        e.sent_unacked() <= MAX_UNACKED_PACKETS,
        e.sequence_id == e.sent.sequence,
    ensures
        e.packet_composed().state.sent_unacked() <= MAX_UNACKED_PACKETS,
        e.packet_composed().result is Ok ==> e.packet_composed().state.sequence_id
            == e.packet_composed().state.sent.sequence,
{
    reveal(EndpointView::packet_composed);
    let begun = e.next_begun();
    if e.sent_unacked() < MAX_UNACKED_PACKETS {
        lemma_backpressure_step(
            e.sent.sequence,
            match e.newest_ack {
                Some(n) => n,
                None => 0,
            },
        );
        assert forall|meta: SentMeta| #[trigger]
            e.sent.inserted(begun.sequence_id, meta).sequence == begun.sequence_id by {
            e.sent.lemma_inserted(begun.sequence_id, meta);
        }
    }
}

/// However many messages there are to send, no more packets are sent than may be unacked.
pub proof fn lemma_backpressure(e: EndpointView)
    requires
        e.wf(),
        e.sent_unacked() <= MAX_UNACKED_PACKETS,
        e.sequence_id == e.sent.sequence,
    ensures
        e.messages_composed().state.sent_unacked() <= MAX_UNACKED_PACKETS,
    decreases e.sequence_lag(), MAX_UNACKED_PACKETS - e.sent_unacked(),
{
    if channel::first_ready(e.channels, 0) is Some {
        lemma_packet_backpressure(e);
        if e.packet_composed().result is Ok {
            e.lemma_packet_composed();
            lemma_backpressure(e.packet_composed().state);
        }
    }
}

/// While too many packets are unacked, messages are refused, and nothing is sent.
pub proof fn lemma_refused_under_backpressure(e: EndpointView, channel: u8, payload: Seq<u8>)
    requires
        e.sent_unacked() >= MAX_UNACKED_PACKETS,
        payload.len() <= e.config.max_message_size,
    ensures
        e.message_sent(channel, payload).0 == e,
        e.message_sent(channel, payload).1 matches Err(PicklebackError::Backpressure(_)),
        e.composed().state == e,
        e.composed().result matches Err(PicklebackError::Backpressure(_)),
{
}

/// A message that is not too big, and for a channel that exists, is taken and gets the next id
/// unless too many packets are unacked. It makes no difference what was sent before. If it is sent
/// in fragments, all of those are to be acked.
pub proof fn lemma_message_taken(e: EndpointView, channel: u8, payload: Seq<u8>)
    requires
        e.wf(),
        e.config.valid(),
        payload.len() <= e.config.max_message_size,
        e.sent_unacked() < MAX_UNACKED_PACKETS,
        e.channels.contains_key(channel),
    ensures
        ({
            let (next, result) = e.message_sent(channel, payload);
            let parent = e.dispatcher.next_message_id;
            &&& result == Ok::<_, PicklebackError>(MessageId(parent))
            &&& payload.len() > message::FRAGMENT_SIZE ==> next.dispatcher.frags.lookup(parent)
                == Some(
                FragStatus::Partial(
                    dispatcher::fragment_ids(parent, dispatcher::fragment_count(payload.len())),
                ),
            )
        }),
{
    e.dispatcher.lemma_sent_tracked(e.channels[channel], payload);
}

/// Messages get consecutive ids. One that is sent in fragments takes as many as it has fragments.
pub proof fn lemma_ids_consecutive(e: EndpointView, channel: u8, payload: Seq<u8>)
    ensures
        e.message_sent(channel, payload).1 matches Ok(id) ==> {
            &&& id == MessageId(e.dispatcher.next_message_id)
            &&& e.message_sent(channel, payload).0.dispatcher.next_message_id == ((
            e.dispatcher.next_message_id + if payload.len() <= message::FRAGMENT_SIZE {
                1
            } else {
                dispatcher::fragment_count(payload.len())
            }) % 0x1_0000) as u16
        },
{
}

/// Whether an ack of packet `sequence` is still to come, or the consumer was told that message `id`
/// on channel `c` is acked.
spec fn awaits_ack(
    e: EndpointView,
    sequence: u16,
    handles: Seq<MessageHandle>,
    c: u8,
    id: MessageId,
) -> bool {
    &&& e.sent.slotted()
    &&& e.sent.modulus() == e.dispatcher.packets.modulus()
    &&& e.dispatcher.acks.contains_key(c)
    &&& e.dispatcher.acks[c].contains(id) || {
        &&& e.sent.lookup(sequence) matches Some(meta) && !meta.acked
        &&& e.dispatcher.packets.lookup(sequence) == Some(handles)
    }
}

proof fn lemma_awaits_ack_step(
    e: EndpointView,
    entry: (u16, bool),
    sequence: u16,
    handles: Seq<MessageHandle>,
    i: int,
)
    requires
        0 <= i < handles.len(),
        handles[i].frag_index is None,
        awaits_ack(e, sequence, handles, handles[i].channel, handles[i].id),
    ensures
        ({
            let next = e.ack_noted(entry);
            let (c, id) = (handles[i].channel, handles[i].id);
            &&& awaits_ack(next, sequence, handles, c, id)
            &&& entry == (sequence, true) ==> next.dispatcher.acks[c].contains(id)
            &&& e.dispatcher.acks[c].contains(id) ==> next.dispatcher.acks[c].contains(id)
        }),
{
    let (c, id) = (handles[i].channel, handles[i].id);
    let next = e.ack_noted(entry);
    if let Some(meta) = e.sent.lookup(entry.0) {
        if entry.1 && !meta.acked {
            e.sent.lemma_slotted(entry.0, SentMeta { acked: true, ..meta });
            let p = AckProgress {
                frags: e.dispatcher.frags,
                acks: e.dispatcher.acks,
                channels: e.channels,
                returned: Seq::empty(),
            };
            if let Some(hs) = e.dispatcher.packets.lookup(entry.0) {
                lemma_steps_keep(p, hs, 0, hs.len() as int, c);
            }
            assert(e.dispatcher.acks[c].is_prefix_of(next.dispatcher.acks[c]));
            if e.dispatcher.acks[c].contains(id) {
                let j = e.dispatcher.acks[c].index_of(id);
                assert(next.dispatcher.acks[c][j] == id);
            } else if entry.0 == sequence {
                lemma_message_acked(e, sequence, handles, i);
            } else {
                assert(e.sent.slot(entry.0) != e.sent.slot(sequence));
                assert(next.dispatcher.packets.lookup(sequence) == Some(handles));
            }
        }
    }
}

proof fn lemma_awaits_ack_steps(
    e: EndpointView,
    entries: Seq<(u16, bool)>,
    n: int,
    sequence: u16,
    handles: Seq<MessageHandle>,
    i: int,
)
    requires
        0 <= n <= entries.len(),
        0 <= i < handles.len(),
        handles[i].frag_index is None,
        awaits_ack(e, sequence, handles, handles[i].channel, handles[i].id),
    ensures
        ({
            let next = e.acks_noted(entries, n);
            let (c, id) = (handles[i].channel, handles[i].id);
            &&& awaits_ack(next, sequence, handles, c, id)
            &&& entries.take(n).contains((sequence, true)) ==> next.dispatcher.acks[c].contains(id)
        }),
    decreases n,
{
    if n > 0 {
        lemma_awaits_ack_steps(e, entries, n - 1, sequence, handles, i);
        let before = e.acks_noted(entries, n - 1);
        lemma_awaits_ack_step(before, entries[n - 1], sequence, handles, i);
        let entry = (sequence, true);
        if entries.take(n).contains(entry) && entries[n - 1] != entry {
            let j = entries.take(n).index_of(entry);
            assert(entries.take(n - 1)[j] == entry);
        }
    }
}

/// Once a header acks the packet that a message went out in, the consumer is told that the message
/// is acked. Whatever else the header acks makes no difference.
pub proof fn lemma_header_acks_message(
    e: EndpointView,
    header: HeaderView,
    sequence: u16,
    handles: Seq<MessageHandle>,
    i: int,
)
    requires
        e.sent.slotted(),
        e.sent.modulus() == e.dispatcher.packets.modulus(),
        e.sent.lookup(sequence) matches Some(meta) && !meta.acked,
        e.dispatcher.packets.lookup(sequence) == Some(handles),
        0 <= i < handles.len(),
        handles[i].frag_index is None,
        e.dispatcher.acks.contains_key(handles[i].channel),
        header.ack matches Some(ack) && ack.entries().contains((sequence, true)),
    ensures
        e.header_noted(header).dispatcher.acks[handles[i].channel].contains(handles[i].id),
{
    let entries = header.ack->0.entries();
    lemma_awaits_ack_steps(
        e,
        entries,
        entries.len() as int,
        sequence,
        handles,
        i,
    );
    assert(entries.take(entries.len() as int) =~= entries);
}

/// Whether `h` is for fragment `id` of message `parent`, sent on channel `c`.
pub open spec fn is_fragment(h: MessageHandle, parent: MessageId, c: u8, id: MessageId) -> bool {
    h.id == id && h.parent() == Some(parent) && h.channel == c
}

/// Whether one of the first `n` of `handles` is for fragment `id` of message `parent`.
pub open spec fn has_fragment(
    handles: Seq<MessageHandle>,
    n: int,
    parent: MessageId,
    c: u8,
    id: MessageId,
) -> bool {
    exists|i: int| 0 <= i < n && is_fragment(#[trigger] handles[i], parent, c, id)
}

/// Whether all fragments of message `parent` among `handles` were sent on channel `c`.
pub open spec fn all_on(handles: Seq<MessageHandle>, parent: MessageId, c: u8) -> bool {
    forall|i: int|
        0 <= i < handles.len() && (#[trigger] handles[i]).parent() == Some(parent)
            ==> handles[i].channel == c
}

/// Whether fragment `id` of message `parent` went out in packet `sequence`, which is not acked yet.
pub open spec fn fragment_out(
    e: EndpointView,
    parent: MessageId,
    c: u8,
    id: MessageId,
    sequence: u16,
) -> bool {
    &&& e.sent.lookup(sequence) matches Some(meta) && !meta.acked
    &&& e.dispatcher.packets.lookup(sequence) matches Some(handles) && has_fragment(
        handles,
        handles.len() as int,
        parent,
        c,
        id,
    )
}

/// The fragments of message `parent` that are still to be acked.
pub open spec fn missing(e: EndpointView, parent: MessageId) -> Seq<MessageId> {
    match e.dispatcher.frags.lookup(parent.0) {
        Some(FragStatus::Partial(ids)) => ids,
        _ => Seq::empty(),
    }
}

/// Whether the consumer was told that message `parent` on channel `c` is acked, and has not taken
/// that yet.
pub open spec fn told(e: EndpointView, parent: MessageId, c: u8) -> bool {
    e.dispatcher.acks[c].contains(parent)
}

/// Whether message `parent` is told to be acked on channel `c`, or is waiting for acks of
/// fragments, each of which went out in the packet that `packets` gives for it.
pub open spec fn fragments_await(
    e: EndpointView,
    parent: MessageId,
    c: u8,
    packets: Map<MessageId, u16>,
) -> bool {
    &&& e.sent.slotted()
    &&& e.sent.modulus() == e.dispatcher.packets.modulus()
    &&& e.dispatcher.acks.contains_key(c)
    &&& forall|s: u16| #[trigger]
        e.dispatcher.packets.contents.dom().contains(s) ==> all_on(
            e.dispatcher.packets.contents[s],
            parent,
            c,
        )
    &&& told(e, parent, c) || {
        &&& missing(e, parent).len() > 0
        &&& forall|id: MessageId| #[trigger]
            missing(e, parent).contains(id) ==> fragment_out(e, parent, c, id, packets[id])
    }
}

/// What is left of fragments `ids` once the messages of the first `n` of `handles` were acked.
spec fn left_after(
    p: AckProgress,
    handles: Seq<MessageHandle>,
    n: int,
    parent: MessageId,
    c: u8,
    ids: Seq<MessageId>,
) -> bool {
    p.frags.lookup(parent.0) matches Some(FragStatus::Partial(left)) && left.len() > 0 && forall|
        id: MessageId,
    | #[trigger]
        left.contains(id) <==> ids.contains(id) && !has_fragment(handles, n, parent, c, id)
}

proof fn lemma_has_fragment(
    handles: Seq<MessageHandle>,
    n: int,
    parent: MessageId,
    c: u8,
    id: MessageId,
)
    requires
        0 < n <= handles.len(),
    ensures
        has_fragment(handles, n, parent, c, id) <==> has_fragment(handles, n - 1, parent, c, id)
            || is_fragment(handles[n - 1], parent, c, id),
{
    if has_fragment(handles, n, parent, c, id) {
        let i = choose|i: int|
            0 <= i < n && is_fragment(#[trigger] handles[i], parent, c, id);
        if i < n - 1 {
            assert(is_fragment(handles[i], parent, c, id));
        }
    }
    if has_fragment(handles, n - 1, parent, c, id) {
        let i = choose|i: int|
            0 <= i < n - 1 && is_fragment(#[trigger] handles[i], parent, c, id);
        assert(is_fragment(handles[i], parent, c, id));
    }
}

proof fn lemma_steps_fragments(
    p: AckProgress,
    handles: Seq<MessageHandle>,
    n: int,
    parent: MessageId,
    c: u8,
    ids: Seq<MessageId>,
)
    requires
        0 <= n <= handles.len(),
        all_on(handles, parent, c),
        p.acks.contains_key(c),
        p.frags.lookup(parent.0) == Some(FragStatus::Partial(ids)),
        ids.len() > 0,
    ensures
        p.steps(handles, n).acks[c].contains(parent) || left_after(
            p.steps(handles, n),
            handles,
            n,
            parent,
            c,
            ids,
        ),
    decreases n,
{
    if n > 0 {
        lemma_steps_fragments(p, handles, n - 1, parent, c, ids);
        lemma_steps_keep(p, handles, n - 1, n, c);
        let before = p.steps(handles, n - 1);
        let after = p.steps(handles, n);
        let h = handles[n - 1];
        if before.acks[c].contains(parent) {
            let j = before.acks[c].index_of(parent);
            assert(after.acks[c][j] == parent);
        } else {
            let left = before.frags.lookup(parent.0)->0->Partial_0;
            assert forall|id: MessageId| #[trigger]
                has_fragment(handles, n, parent, c, id) == (has_fragment(
                    handles,
                    n - 1,
                    parent,
                    c,
                    id,
                ) || is_fragment(h, parent, c, id)) by {
                lemma_has_fragment(handles, n, parent, c, id);
            }
            if h.parent() == Some(parent) {
                assert(h.channel == c);
                lemma_without(left, h.id);
                let rest = dispatcher::without(left, h.id);
                if rest.len() > 0 {
                    assert(after.frags.lookup(parent.0) == Some(FragStatus::Partial(rest)));
                    assert(left_after(after, handles, n, parent, c, ids));
                } else {
                    assert(after.acks[c].last() == parent);
                }
            } else {
                assert(after.frags.lookup(parent.0) == Some(FragStatus::Partial(left)));
                assert(left_after(after, handles, n, parent, c, ids));
            }
        }
    }
}

/// Whether acks that were looked at have kept track of the fragments of a message.
spec fn fragments_noted(
    before: EndpointView,
    after: EndpointView,
    parent: MessageId,
    c: u8,
    packets: Map<MessageId, u16>,
) -> bool {
    &&& fragments_await(after, parent, c, packets)
    &&& told(before, parent, c) ==> told(after, parent, c)
    &&& !told(after, parent, c) ==> forall|id: MessageId| #[trigger]
        missing(after, parent).contains(id) ==> missing(before, parent).contains(id)
}

proof fn lemma_fragments_step(
    e: EndpointView,
    entry: (u16, bool),
    parent: MessageId,
    c: u8,
    packets: Map<MessageId, u16>,
)
    requires
        fragments_await(e, parent, c, packets),
    ensures
        ({
            let next = e.ack_noted(entry);
            &&& fragments_noted(e, next, parent, c, packets)
            &&& !told(next, parent, c) && entry.1 ==> forall|id: MessageId| #[trigger]
                missing(next, parent).contains(id) ==> packets[id] != entry.0
        }),
{
    let next = e.ack_noted(entry);
    let s = entry.0;
    if next != e {
        let meta = e.sent.lookup(s)->0;
        e.sent.lemma_slotted(s, SentMeta { acked: true, ..meta });
        let ids = missing(e, parent);
        let p = AckProgress {
            frags: e.dispatcher.frags,
            acks: e.dispatcher.acks,
            channels: e.channels,
            returned: Seq::empty(),
        };
        if let Some(hs) = e.dispatcher.packets.lookup(s) {
            assert(all_on(e.dispatcher.packets.contents[s], parent, c));
            lemma_steps_keep(p, hs, 0, hs.len() as int, c);
            if !told(e, parent, c) {
                lemma_steps_fragments(p, hs, hs.len() as int, parent, c, ids);
            }
        }
        assert(e.dispatcher.acks[c].is_prefix_of(next.dispatcher.acks[c]));
        if told(e, parent, c) {
            let j = e.dispatcher.acks[c].index_of(parent);
            assert(next.dispatcher.acks[c][j] == parent);
        } else if !told(next, parent, c) {
            assert forall|id: MessageId| #[trigger] missing(next, parent).contains(id) implies ids.contains(
                id,
            ) && packets[id] != s && fragment_out(next, parent, c, id, packets[id]) by {
                assert(ids.contains(id));
                assert(fragment_out(e, parent, c, id, packets[id]));
                assert(e.sent.slot(packets[id]) != e.sent.slot(s) || packets[id] == s);
            }
        }
    } else if !told(e, parent, c) {
        assert forall|id: MessageId| #[trigger]
            missing(e, parent).contains(id) && entry.1 implies packets[id] != s by {
            assert(fragment_out(e, parent, c, id, packets[id]));
            assert(packets[id] == s ==> next.sent.lookup(s) != e.sent.lookup(s));
        }
    }
}

proof fn lemma_fragments_steps(
    e: EndpointView,
    entries: Seq<(u16, bool)>,
    n: int,
    parent: MessageId,
    c: u8,
    packets: Map<MessageId, u16>,
)
    requires
        0 <= n <= entries.len(),
        fragments_await(e, parent, c, packets),
    ensures
        ({
            let next = e.acks_noted(entries, n);
            &&& fragments_noted(e, next, parent, c, packets)
            &&& !told(next, parent, c) ==> forall|id: MessageId| #[trigger]
                missing(next, parent).contains(id) ==> !entries.take(n).contains(
                    (packets[id], true),
                )
        }),
    decreases n,
{
    if n > 0 {
        lemma_fragments_steps(e, entries, n - 1, parent, c, packets);
        let before = e.acks_noted(entries, n - 1);
        lemma_fragments_step(before, entries[n - 1], parent, c, packets);
        let next = e.acks_noted(entries, n);
        if !told(next, parent, c) {
            assert forall|id: MessageId| #[trigger] missing(next, parent).contains(id) implies missing(
                e,
                parent,
            ).contains(id) && !entries.take(n).contains((packets[id], true)) by {
                assert(missing(before, parent).contains(id));
                let entry = (packets[id], true);
                if entries.take(n).contains(entry) {
                    let j = entries.take(n).index_of(entry);
                    if j < n - 1 {
                        assert(entries.take(n - 1)[j] == entry);
                    }
                }
            }
        }
    }
}

/// Headers may ack the packets that the fragments of a message went out in one by one, in any
/// order, and whatever else along with them. The message waits for the fragments whose packets were
/// not acked, and for no others; once none is left, the consumer is told that the message is acked.
pub proof fn lemma_fragments_await(
    e: EndpointView,
    header: HeaderView,
    parent: MessageId,
    c: u8,
    packets: Map<MessageId, u16>,
)
    requires
        fragments_await(e, parent, c, packets),
        header.ack is Some,
    ensures
        ({
            let next = e.header_noted(header);
            &&& fragments_await(next, parent, c, packets)
            &&& told(e, parent, c) ==> told(next, parent, c)
            &&& !told(next, parent, c) ==> forall|id: MessageId| #[trigger]
                missing(next, parent).contains(id) ==> missing(e, parent).contains(id)
                    && !header.ack->0.entries().contains((packets[id], true))
        }),
{
    let entries = header.ack->0.entries();
    let n = entries.len() as int;
    lemma_fragments_steps(e, entries, n, parent, c, packets);
    assert(entries.take(n) =~= entries);
    let noted = e.acks_noted(entries, n);
    let next = e.header_noted(header);
    assert(next.dispatcher == noted.dispatcher && next.sent == noted.sent);
    assert(missing(next, parent) == missing(noted, parent));
    if !told(next, parent, c) {
        assert forall|id: MessageId| #[trigger] missing(next, parent).contains(id) implies fragment_out(
            next,
            parent,
            c,
            id,
            packets[id],
        ) by {
            assert(fragment_out(noted, parent, c, id, packets[id]));
        }
    }
}

/// Once the packets of all fragments that a message waits for are acked, the consumer is told that
/// the message is acked.
pub proof fn lemma_all_fragments_acked(
    e: EndpointView,
    header: HeaderView,
    parent: MessageId,
    c: u8,
    packets: Map<MessageId, u16>,
)
    requires
        fragments_await(e, parent, c, packets),
        header.ack is Some,
        forall|id: MessageId| #[trigger]
            missing(e, parent).contains(id) ==> header.ack->0.entries().contains(
                (packets[id], true),
            ),
    ensures
        told(e.header_noted(header), parent, c),
{
    lemma_fragments_await(e, header, parent, c, packets);
    let next = e.header_noted(header);
    if !told(next, parent, c) {
        let id = missing(next, parent)[0];
        assert(missing(next, parent).contains(id));
    }
}

/// A fragment that is picked for a packet goes out in it, and is to be acked with it.
pub proof fn lemma_fragment_out(e: EndpointView, xor_salt: u64, i: int)
    requires
        e.wf(),
        delivery::genuine_channels(e.channels),
        e.xor_salt == Some(xor_salt),
        e.packet_composed().result is Ok,
        0 <= i < e.next_filling().picked().len(),
        e.next_filling().picked()[i].fragment is Some,
    ensures
        ({
            let m = e.next_filling().picked()[i];
            fragment_out(
                e.packet_composed().state,
                m.fragment->0.parent_id,
                m.channel,
                m.id,
                e.next_begun().sequence_id,
            )
        }),
{
    delivery::lemma_packet_holds(e, xor_salt);
    let ms = e.next_filling().picked();
    let m = ms[i];
    assert(delivery::genuine(ms[i], ms[i].channel));
    let handles = delivery::handles_of(ms);
    assert(is_fragment(handles[i], m.fragment->0.parent_id, m.channel, m.id));
}

/// What acking one message tells the consumer. A message that is not a fragment is told at once, on
/// its channel. One that was sent in fragments is told if the fragment was the only one still to be
/// acked, and otherwise nobody is told anything. Either way it is one more id on one channel.
pub proof fn lemma_told_step(p: AckProgress, h: MessageHandle)
    ensures
        h.frag_index is None ==> {
            &&& p.step(h).acks == p.acks.insert(h.channel, p.acks[h.channel].push(h.id))
            &&& p.step(h).frags == p.frags
        },
        h.frag_index matches Some(index) ==> {
            let parent = MessageId(h.id.0.wrapping_sub(index));
            match p.frags.lookup(parent.0) {
                Some(FragStatus::Partial(ids)) => if forall|i: int|
                    0 <= i < ids.len() ==> #[trigger] ids[i] == h.id {
                    &&& p.step(h).acks == p.acks.insert(h.channel, p.acks[h.channel].push(parent))
                    &&& p.step(h).frags.lookup(parent.0) == Some(FragStatus::Complete)
                } else {
                    &&& p.step(h).acks == p.acks
                    &&& p.step(h).frags.lookup(parent.0) matches Some(FragStatus::Partial(left))
                        && left.len() > 0 && forall|id: MessageId| #[trigger]
                        left.contains(id) <==> ids.contains(id) && id != h.id
                },
                _ => p.step(h).acks == p.acks && p.step(h).frags == p.frags,
            }
        },
        forall|other: u16|
            h.parent() != Some(MessageId(other)) ==> #[trigger] p.step(h).frags.lookup(other)
                == p.frags.lookup(other),
{
    if let Some(index) = h.frag_index {
        let parent = MessageId(h.id.0.wrapping_sub(index));
        if let Some(FragStatus::Partial(ids)) = p.frags.lookup(parent.0) {
            lemma_without(ids, h.id);
            let left = dispatcher::without(ids, h.id);
            if forall|i: int| 0 <= i < ids.len() ==> #[trigger] ids[i] == h.id {
                if left.len() > 0 {
                    assert(left.contains(left[0]));
                    assert(ids.contains(left[0]));
                }
            } else {
                let i = choose|i: int| 0 <= i < ids.len() && #[trigger] ids[i] != h.id;
                assert(ids.contains(ids[i]));
                assert(left.contains(ids[i]));
            }
        }
    }
}

/// Whether an ack of `h` can be the reason for telling the consumer of channel `c` about message
/// `x`.
pub open spec fn tells(h: MessageHandle, c: u8, x: MessageId) -> bool {
    h.channel == c && (h.parent() == Some(x) || (h.frag_index is None && h.id == x))
}

/// Whether one of `handles` is a reason for telling the consumer of channel `c` about message `x`:
/// it is the message itself or, if no fragment is missing any more, a fragment of it.
pub open spec fn is_reason(
    handles: Seq<MessageHandle>,
    frags: Window<FragStatus>,
    c: u8,
    x: MessageId,
) -> bool {
    exists|i: int|
        0 <= i < handles.len() && tells(#[trigger] handles[i], c, x) && (handles[i].frag_index is Some
            ==> frags.lookup(x.0) == Some(FragStatus::Complete))
}

proof fn lemma_complete_lasts(p: AckProgress, handles: Seq<MessageHandle>, n: int, x: MessageId)
    requires
        0 <= n <= handles.len(),
        p.frags.lookup(x.0) == Some(FragStatus::Complete),
    ensures
        p.steps(handles, n).frags.lookup(x.0) == Some(FragStatus::Complete),
    decreases n,
{
    if n > 0 {
        lemma_complete_lasts(p, handles, n - 1, x);
        lemma_told_step(p.steps(handles, n - 1), handles[n - 1]);
    }
}

proof fn lemma_steps_told(p: AckProgress, handles: Seq<MessageHandle>, n: int, c: u8, j: int)
    requires
        0 <= n <= handles.len(),
        p.acks.contains_key(c),
        p.acks[c].len() <= j < p.steps(handles, n).acks[c].len(),
    ensures
        is_reason(
            handles.take(n),
            p.steps(handles, n).frags,
            c,
            p.steps(handles, n).acks[c][j],
        ),
    decreases n,
{
    if n > 0 {
        let before = p.steps(handles, n - 1);
        let after = p.steps(handles, n);
        let h = handles[n - 1];
        lemma_told_step(before, h);
        lemma_steps_keep(p, handles, n - 1, n, c);
        let x = after.acks[c][j];
        if j < before.acks[c].len() {
            lemma_steps_told(p, handles, n - 1, c, j);
            assert(before.acks[c][j] == x);
            let i = choose|i: int|
                0 <= i < n - 1 && tells(#[trigger] handles.take(n - 1)[i], c, x) && (
                handles.take(n - 1)[i].frag_index is Some ==> before.frags.lookup(x.0) == Some(
                    FragStatus::Complete,
                ));
            assert(handles.take(n)[i] == handles.take(n - 1)[i]);
        } else {
            assert(handles.take(n)[n - 1] == h);
        }
    }
}

/// Whether the consumer of channel `c` was told about message `x` between two states.
pub open spec fn newly_told(before: EndpointView, after: EndpointView, c: u8, x: MessageId) -> bool {
    exists|j: int|
        before.dispatcher.acks[c].len() <= j < after.dispatcher.acks[c].len()
            && #[trigger] after.dispatcher.acks[c][j] == x
}

proof fn lemma_ack_told(e: EndpointView, entry: (u16, bool), c: u8, j: int)
    requires
        e.dispatcher.acks.contains_key(c),
        e.dispatcher.acks[c].len() <= j < e.ack_noted(entry).dispatcher.acks[c].len(),
    ensures
        ({
            let next = e.ack_noted(entry);
            &&& entry.1
            &&& e.sent.lookup(entry.0) matches Some(meta) && !meta.acked
            &&& e.dispatcher.packets.lookup(entry.0) matches Some(hs) && is_reason(
                hs,
                next.dispatcher.frags,
                c,
                next.dispatcher.acks[c][j],
            )
        }),
{
    let p = AckProgress {
        frags: e.dispatcher.frags,
        acks: e.dispatcher.acks,
        channels: e.channels,
        returned: Seq::empty(),
    };
    if let Some(hs) = e.dispatcher.packets.lookup(entry.0) {
        assert(hs.take(hs.len() as int) =~= hs);
        lemma_steps_told(p, hs, hs.len() as int, c, j);
    }
}

proof fn lemma_ack_keeps(e: EndpointView, entry: (u16, bool), c: u8, x: MessageId)
    requires
        e.dispatcher.acks.contains_key(c),
    ensures
        ({
            let next = e.ack_noted(entry);
            &&& next.dispatcher.acks.contains_key(c)
            &&& e.dispatcher.acks[c].is_prefix_of(next.dispatcher.acks[c])
            &&& e.dispatcher.frags.lookup(x.0) == Some(FragStatus::Complete)
                ==> next.dispatcher.frags.lookup(x.0) == Some(FragStatus::Complete)
            &&& forall|s: u16|
                (#[trigger] next.dispatcher.packets.lookup(s)) is Some
                    ==> next.dispatcher.packets.lookup(s) == e.dispatcher.packets.lookup(s)
        }),
{
    let p = AckProgress {
        frags: e.dispatcher.frags,
        acks: e.dispatcher.acks,
        channels: e.channels,
        returned: Seq::empty(),
    };
    if let Some(hs) = e.dispatcher.packets.lookup(entry.0) {
        lemma_steps_keep(p, hs, 0, hs.len() as int, c);
        if e.dispatcher.frags.lookup(x.0) == Some(FragStatus::Complete) {
            lemma_complete_lasts(p, hs, hs.len() as int, x);
        }
    }
}

/// Whether there is a reason, among the packets in `acked`, for telling the consumer of channel `c`
/// about message `x`.
pub open spec fn has_reason(
    e: EndpointView,
    acked: Set<u16>,
    frags: Window<FragStatus>,
    c: u8,
    x: MessageId,
) -> bool {
    exists|s: u16| #[trigger]
        acked.contains(s) && (e.dispatcher.packets.lookup(s) matches Some(hs) && is_reason(
            hs,
            frags,
            c,
            x,
        ))
}

proof fn lemma_acks_told(e: EndpointView, entries: Seq<(u16, bool)>, n: int, c: u8, j: int)
    requires
        0 <= n <= entries.len(),
        e.dispatcher.acks.contains_key(c),
    ensures
        ({
            let next = e.acks_noted(entries, n);
            &&& next.dispatcher.acks.contains_key(c)
            &&& e.dispatcher.acks[c].is_prefix_of(next.dispatcher.acks[c])
            &&& forall|s: u16|
                (#[trigger] next.dispatcher.packets.lookup(s)) is Some
                    ==> next.dispatcher.packets.lookup(s) == e.dispatcher.packets.lookup(s)
            &&& e.dispatcher.acks[c].len() <= j < next.dispatcher.acks[c].len() ==> has_reason(
                e,
                newly_acked(e.sent, entries, n),
                next.dispatcher.frags,
                c,
                next.dispatcher.acks[c][j],
            )
        }),
    decreases n,
{
    if n > 0 {
        lemma_acks_told(e, entries, n - 1, c, j);
        lemma_acks_counted(e, entries, n - 1);
        lemma_newly_acked(e.sent, entries, n);
        let before = e.acks_noted(entries, n - 1);
        let next = e.acks_noted(entries, n);
        let so_far = newly_acked(e.sent, entries, n - 1);
        let acked = newly_acked(e.sent, entries, n);
        let x = next.dispatcher.acks[c][j];
        lemma_ack_keeps(before, entries[n - 1], c, x);
        if e.dispatcher.acks[c].len() <= j < next.dispatcher.acks[c].len() {
            if j < before.dispatcher.acks[c].len() {
                assert(before.dispatcher.acks[c][j] == x);
                let s = choose|s: u16| #[trigger]
                    so_far.contains(s) && (e.dispatcher.packets.lookup(s) matches Some(hs)
                        && is_reason(hs, before.dispatcher.frags, c, x));
                let hs = e.dispatcher.packets.lookup(s)->0;
                let i = choose|i: int|
                    0 <= i < hs.len() && tells(#[trigger] hs[i], c, x) && (hs[i].frag_index is Some
                        ==> before.dispatcher.frags.lookup(x.0) == Some(FragStatus::Complete));
                assert(is_reason(hs, next.dispatcher.frags, c, x));
                assert(acked.contains(s));
            } else {
                lemma_ack_told(before, entries[n - 1], c, j);
                let s = entries[n - 1].0;
                assert(before.sent.lookup(s) == after_acks(e.sent, so_far, s));
                assert(before.dispatcher.packets.lookup(s) is Some);
                assert(acked.contains(s));
            }
        }
    }
}

/// The consumer is told about a message for no other reason than that a packet was acked for the
/// first time in which the message went out on that channel or, once no fragment of it is missing,
/// one of its fragments. What was told before stays, in front.
pub proof fn lemma_told_for_a_reason(e: EndpointView, header: HeaderView, c: u8, x: MessageId)
    requires
        e.dispatcher.acks.contains_key(c),
    ensures
        ({
            let next = e.header_noted(header);
            &&& e.dispatcher.acks[c].is_prefix_of(next.dispatcher.acks[c])
            &&& newly_told(e, next, c, x) ==> (header.ack matches Some(ack) && has_reason(
                e,
                newly_acked(e.sent, ack.entries(), ack.entries().len() as int),
                next.dispatcher.frags,
                c,
                x,
            ))
        }),
{
    let next = e.header_noted(header);
    if let Some(ack) = header.ack {
        let entries = ack.entries();
        let n = entries.len() as int;
        assert(next.dispatcher == e.acks_noted(entries, n).dispatcher);
        lemma_acks_told(e, entries, n, c, 0);
        if newly_told(e, next, c, x) {
            let j = choose|j: int|
                e.dispatcher.acks[c].len() <= j < next.dispatcher.acks[c].len()
                    && #[trigger] next.dispatcher.acks[c][j] == x;
            lemma_acks_told(e, entries, n, c, j);
        }
    }
}

/// A message that is sent in fragments is told to be acked with the last of them and not before:
/// while a fragment is missing, no header makes the consumer be told about the message.
pub proof fn lemma_not_told_early(e: EndpointView, header: HeaderView, parent: MessageId, c: u8)
    requires
        e.dispatcher.acks.contains_key(c),
        missing(e.header_noted(header), parent).len() > 0,
        forall|s: u16, i: int|
            e.dispatcher.packets.contents.dom().contains(s) && 0 <= i
                < e.dispatcher.packets.contents[s].len() && (
            #[trigger] e.dispatcher.packets.contents[s][i]).id == parent
                ==> e.dispatcher.packets.contents[s][i].frag_index is Some,
    ensures
        !newly_told(e, e.header_noted(header), c, parent),
{
    lemma_told_for_a_reason(e, header, c, parent);
    let next = e.header_noted(header);
    if newly_told(e, next, c, parent) {
        let ack = header.ack->0;
        let acked = newly_acked(e.sent, ack.entries(), ack.entries().len() as int);
        let s = choose|s: u16| #[trigger]
            acked.contains(s) && (e.dispatcher.packets.lookup(s) matches Some(hs) && is_reason(
                hs,
                next.dispatcher.frags,
                c,
                parent,
            ));
        let hs = e.dispatcher.packets.lookup(s)->0;
        let i = choose|i: int|
            0 <= i < hs.len() && tells(#[trigger] hs[i], c, parent) && (hs[i].frag_index is Some
                ==> next.dispatcher.frags.lookup(parent.0) == Some(FragStatus::Complete));
        assert(e.dispatcher.packets.contents[s][i] == hs[i]);
    }
}

/// A header written by an endpoint that has received a packet acks it, while the packet is among
/// those that the other side may not have seen an ack of.
pub proof fn lemma_receiver_acks(e: EndpointView, packet_type: PacketType, id: u16)
    requires
        e.received.lookup(id) is Some,
        e.received.sequence.wrapping_sub(id) < e.received_unacked() <= MAX_UNACKED_PACKETS,
    ensures
        e.header(packet_type) is Ok,
        e.header(packet_type)->Ok_0.ack matches Some(ack) && ack.entries().contains((id, true)),
{
    let back = e.received.sequence.wrapping_sub(id) as int;
    assert(((e.received.sequence - back) % 0x1_0000) as u16 == id);
    lemma_received_is_acked(e, packet_type, back);
    let entries = e.header(packet_type)->Ok_0.ack->0.entries();
    assert(entries[back] == (id, true));
}

/// From end to end: a message goes out in a packet, and the other end has received the packet. Then
/// a header that is written there, while the packet is among those that the sender may not have
/// seen an ack of, tells the sender's consumer that the message is acked.
#[verifier::spinoff_prover]
pub proof fn lemma_round_trip(
    sender: EndpointView,
    receiver: EndpointView,
    xor_salt: u64,
    packet_type: PacketType,
    i: int,
)
    requires
        sender.wf(),
        delivery::genuine_channels(sender.channels),
        sender.xor_salt == Some(xor_salt),
        sender.packet_composed().result is Ok,
        sender.packet_composed().state.sent.slotted(),
        sender.sent.modulus() == sender.dispatcher.packets.modulus(),
        0 <= i < sender.next_filling().picked().len(),
        sender.next_filling().picked()[i].fragment is None,
        sender.dispatcher.acks.contains_key(sender.next_filling().picked()[i].channel),
        receiver.received.lookup(sender.next_begun().sequence_id) is Some,
        receiver.received_unacked() <= MAX_UNACKED_PACKETS,
        receiver.received.sequence.wrapping_sub(sender.next_begun().sequence_id)
            < receiver.received_unacked(),
    ensures
        ({
            let header = receiver.header(packet_type)->Ok_0;
            let m = sender.next_filling().picked()[i];
            let told = sender.packet_composed().state.header_noted(header);
            &&& receiver.header(packet_type) is Ok
            &&& told.dispatcher.acks[m.channel].contains(m.id)
        }),
{
    let sent = sender.packet_composed().state;
    let id = sender.next_begun().sequence_id;
    let handles = delivery::handles_of(sender.next_filling().picked());
    assert(sent.sent.lookup(id) matches Some(meta) && !meta.acked) by {
        delivery::lemma_packet_holds(sender, xor_salt);
    }
    assert(sent.dispatcher.packets.lookup(id) == Some(handles)) by {
        delivery::lemma_packet_holds(sender, xor_salt);
    }
    lemma_receiver_acks(receiver, packet_type, id);
    let header = receiver.header(packet_type)->Ok_0;
    lemma_sent_kept(sender);
    lemma_header_acks_message(sent, header, id, handles, i);
}

/// From end to end, for a message that is sent in fragments: the other end has received the packets
/// that all fragments went out in that are still to be acked. Then a header that is written there,
/// while those packets are among those that the sender may not have seen an ack of, tells the
/// sender's consumer that the message is acked.
pub proof fn lemma_fragments_round_trip(
    sender: EndpointView,
    receiver: EndpointView,
    packet_type: PacketType,
    parent: MessageId,
    c: u8,
    packets: Map<MessageId, u16>,
)
    requires
        fragments_await(sender, parent, c, packets),
        receiver.received_unacked() <= MAX_UNACKED_PACKETS,
        forall|id: MessageId| #[trigger]
            missing(sender, parent).contains(id) ==> receiver.received.lookup(packets[id]) is Some
                && receiver.received.sequence.wrapping_sub(packets[id])
                < receiver.received_unacked(),
    ensures
        receiver.header(packet_type) is Ok,
        told(sender.header_noted(receiver.header(packet_type)->Ok_0), parent, c),
{
    delivery::lemma_header(receiver, packet_type);
    let header = receiver.header(packet_type)->Ok_0;
    if told(sender, parent, c) {
        if header.ack is Some {
            lemma_fragments_await(sender, header, parent, c, packets);
        }
    } else {
        assert forall|id: MessageId| #[trigger] missing(sender, parent).contains(id) implies (
        header.ack matches Some(ack) && ack.entries().contains((packets[id], true))) by {
            lemma_receiver_acks(receiver, packet_type, packets[id]);
        }
        let first = missing(sender, parent)[0];
        assert(missing(sender, parent).contains(first));
        lemma_all_fragments_acked(sender, header, parent, c, packets);
    }
}

/// Composing a packet leaves the acks alone that the consumer has not taken yet, and the sizes of
/// the buffers.
proof fn lemma_sent_kept(e: EndpointView)
    requires
        e.wf(),
        e.packet_composed().result is Ok,
    ensures
        ({
            let next = e.packet_composed().state;
            &&& next.dispatcher.acks == e.dispatcher.acks
            &&& next.sent.size == e.sent.size
            &&& next.dispatcher.packets.size == e.dispatcher.packets.size
        }),
{
    reveal(EndpointView::packet_composed);
    let id = e.next_begun().sequence_id;
    assert forall|meta: SentMeta| #[trigger] e.sent.inserted(id, meta).size == e.sent.size by {
        e.sent.lemma_inserted(id, meta);
    }
    assert forall|hs: Seq<MessageHandle>| #[trigger]
        e.dispatcher.packets.skipped(id).inserted(id, hs).size == e.dispatcher.packets.size by {
        e.dispatcher.packets.lemma_inserted(id, hs);
        e.dispatcher.packets.lemma_advanced_inserted(id, hs);
    }
}

} // verus!
