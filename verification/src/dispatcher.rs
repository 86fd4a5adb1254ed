//! Keeps track of which messages went out in which packets, and puts received fragments together.

use crate::buffer_pool::{self, BufPool, PoolState, PooledBuffer};
use crate::channel::{Channel, ChannelList, ChannelView, Queued};
use crate::config::PicklebackConfig;
use crate::error::PicklebackError;
use crate::message_reassembler::{self, MessageReassembler, Parts};
use crate::protocol::message::{self, Fragment, Fragmented, Message, MessageView, FRAGMENT_SIZE};
use crate::received_message::{self, ReceivedMessage, ReceivedView};
use crate::sequence_buffer::{self, SequenceBuffer, Window};
use crate::small_map::SmallMap;
use crate::{MessageId, PacketId, MAX_FRAGMENTS};
use vstd::prelude::*;

verus! {

/// Says which message was put into a packet.
#[derive(Debug, Clone, Copy, PartialEq, Eq, Structural)]
pub struct MessageHandle {
    pub id: MessageId,
    /// Place among the fragments of a larger message, if it is a fragment.
    pub frag_index: Option<u16>,
    pub channel: u8,
}

impl MessageHandle {
    /// The id of the larger message, if it is a fragment.
    pub open spec fn parent(self) -> Option<MessageId> {
        match self.frag_index {
            Some(index) => Some(MessageId(self.id.0.wrapping_sub(index))),
            None => None,
        }
    }

    /// The id of the message.
    pub fn id(&self) -> (r: MessageId)
        ensures
            r == self.id,
    {
        self.id
    }

    /// The id of the larger message, if it is a fragment.
    pub fn parent_id(&self) -> (r: Option<MessageId>)
        ensures
            r == self.parent(),
    {
        match self.frag_index {
            Some(index) => Some(MessageId(self.id.0.wrapping_sub(index))),
            None => None,
        }
    }
}

impl Default for MessageHandle {
    fn default() -> (r: Self)
        ensures
            r == (MessageHandle { id: MessageId(0), frag_index: None, channel: 0 }),
    {
        MessageHandle { id: MessageId(0), frag_index: None, channel: 0 }
    }
}

/// What is known of the acks of a fragmented message.
pub enum FragStatus {
    /// Nothing was sent under that id.
    Unknown,
    /// All fragments are acked.
    Complete,
    /// These fragments are still to be acked.
    Partial(Seq<MessageId>),
}

/// What is known of the acks of a fragmented message.
pub enum FragAckStatus {
    Unknown,
    Complete,
    /// The ids of the fragments still to be acked.
    Partial(Vec<MessageId>),
}

impl View for FragAckStatus {
    type V = FragStatus;

    open spec fn view(&self) -> FragStatus {
        match self {
            FragAckStatus::Unknown => FragStatus::Unknown,
            FragAckStatus::Complete => FragStatus::Complete,
            FragAckStatus::Partial(ids) => FragStatus::Partial(ids@),
        }
    }
}

impl Default for FragAckStatus {
    fn default() -> (r: Self)
        ensures
            r@ == FragStatus::Unknown,
    {
        FragAckStatus::Unknown
    }
}

impl Clone for FragAckStatus {
    fn clone(&self) -> (r: Self)
        ensures
            r@ == self@,
    {
        match self {
            FragAckStatus::Unknown => FragAckStatus::Unknown,
            FragAckStatus::Complete => FragAckStatus::Complete,
            FragAckStatus::Partial(ids) => {
                let mut copy: Vec<MessageId> = Vec::with_capacity(ids.len());
                copy.extend_from_slice(ids.as_slice());
                assert(copy@ =~= ids@);
                FragAckStatus::Partial(copy)
            },
        }
    }
}

/// Tells the ids other than `id`.
pub open spec fn other_than(id: MessageId) -> spec_fn(MessageId) -> bool {
    |other: MessageId| other != id
}

/// The fragments in `ids` other than `id`.
pub open spec fn without(ids: Seq<MessageId>, id: MessageId) -> Seq<MessageId> {
    ids.filter(other_than(id))
}

/// After fragment `fragment_id` of message `parent_id` was acked: what is known then, and whether
/// that was the last one of the message.
pub open spec fn fragment_acked(
    frags: Window<FragStatus>,
    parent_id: MessageId,
    fragment_id: MessageId,
) -> (Window<FragStatus>, bool) {
    match frags.lookup(parent_id.0) {
        Some(FragStatus::Partial(ids)) => {
            let left = without(ids, fragment_id);
            if left.len() > 0 {
                (frags.replaced(parent_id.0, FragStatus::Partial(left)), false)
            } else {
                (frags.replaced(parent_id.0, FragStatus::Complete), true)
            }
        },
        _ => (frags, false),
    }
}

/// Tracks the unacked ids assigned to the fragments of larger messages that were sent. They are
/// removed as they are acked, and once none is left the larger message is acked.
pub struct SentFragMap {
    m: SequenceBuffer<FragAckStatus>,
}

impl View for SentFragMap {
    type V = Window<FragStatus>;

    closed spec fn view(&self) -> Window<FragStatus> {
        self.m@.mapped(|s: FragAckStatus| s@)
    }
}

impl SentFragMap {
    /// The buffer can be looked up in.
    pub closed spec fn wf(&self) -> bool {
        self.m.wf() && self@.modulus() != 0
    }

    /// Room for the `size` most recent message ids.
    pub fn with_capacity(size: usize) -> (r: Self)
        requires
            size as int % 0x1_0000 != 0,
        ensures
            r.wf(),
            r@ == Window::<FragStatus>::fresh(size as nat),
    {
        let r = SentFragMap { m: SequenceBuffer::with_capacity(size) };
        assert(r@ =~= Window::<FragStatus>::fresh(size as nat));
        r
    }

    /// Moves on to a message id that was given out, so that none after it is taken for an old one.
    pub fn advance(&mut self, id: MessageId)
        requires
            old(self).wf(),
        ensures
            final(self).wf(),
            final(self)@ == old(self)@.advanced(id.0),
    {
        proof {
            self.m@.lemma_mapped(|s: FragAckStatus| s@, id.0, FragAckStatus::Unknown);
        }
        self.m.advance(id.0);
    }

    /// Notes the fragments of a message that is about to be sent.
    pub fn insert_fragmented_message(
        &mut self,
        id: MessageId,
        fragment_ids: Vec<MessageId>,
    ) -> (r: Result<(), PicklebackError>)
        requires
            old(self).wf(),
        ensures
            final(self).wf(),
            match r {
                Ok(_) => !old(self)@.too_old(id.0) && final(self)@ == old(self)@.inserted(
                    id.0,
                    FragStatus::Partial(fragment_ids@),
                ),
                Err(e) => {
                    &&& old(self)@.too_old(id.0)
                    &&& e == PicklebackError::SequenceTooOld
                    &&& final(self)@ == old(self)@
                },
            },
    {
        let status = FragAckStatus::Partial(fragment_ids);
        proof {
            self.m@.lemma_mapped(|s: FragAckStatus| s@, id.0, status);
        }
        match self.m.insert(id.0, status) {
            Ok(_) => Ok(()),
            Err(e) => Err(e),
        }
    }

    /// A fragment was acked. Returns true if that was the last one of the message.
    pub fn ack_fragment_message(&mut self, parent_id: MessageId, fragment_id: MessageId) -> (r:
        bool)
        requires
            old(self).wf(),
        ensures
            final(self).wf(),
            (final(self)@, r) == fragment_acked(old(self)@, parent_id, fragment_id),
    {
        let ghost f = |s: FragAckStatus| s@;
        let ghost w = self.m@;
        proof {
            assert forall|d: FragAckStatus|
                #![trigger w.replaced(parent_id.0, d)]
                w.replaced(parent_id.0, d).mapped(f) == w.mapped(f).replaced(parent_id.0, d@) by {
                w.lemma_mapped(f, parent_id.0, d);
            }
            w.lemma_mapped(f, parent_id.0, FragAckStatus::Unknown);
        }
        let ret = match self.m.get_mut(parent_id.0) {
            None => {
                return false;
            },
            Some(entry) => {
                let ret = match entry {
                    FragAckStatus::Complete => false,
                    FragAckStatus::Unknown => false,
                    FragAckStatus::Partial(remaining) => {
                        remove_id(remaining, fragment_id);
                        remaining.len() == 0
                    },
                };
                if ret {
                    *entry = FragAckStatus::Complete;
                }
                ret
            },
        };
        proof {
            if w.lookup(parent_id.0) is Some && !(w.lookup(parent_id.0)->0 is Partial) {
                assert(w.replaced(parent_id.0, w.contents[parent_id.0]) =~= w);
            }
        }
        ret
    }
}

/// Removes every occurrence of `id`.
fn remove_id(ids: &mut Vec<MessageId>, id: MessageId)
    ensures
        final(ids)@ == without(old(ids)@, id),
{
    let ghost all = ids@;
    let ghost keep = other_than(id);
    let mut i: usize = 0;
    let ghost mut n: int = 0;
    assert(all.take(0).filter(keep) =~= Seq::empty()) by {
        reveal(Seq::filter);
    }
    while i < ids.len()
        invariant
            i <= ids@.len(),
            0 <= n <= all.len(),
            ids@.len() - i == all.len() - n,
            ids@.take(i as int) =~= all.take(n).filter(keep),
            ids@.skip(i as int) =~= all.skip(n),
            keep == other_than(id),
            all == old(ids)@,
        decreases ids@.len() - i,
    {
        let ghost before = ids@;
        proof {
            assert(before.skip(i as int)[0] == all.skip(n)[0]);
            assert(all.take(n).push(all[n]) =~= all.take(n + 1));
            reveal(Seq::filter);
            assert(all.take(n + 1).drop_last() =~= all.take(n));
        }
        if ids[i] == id {
            ids.remove(i);
            assert(ids@.take(i as int) =~= before.take(i as int));
            assert(ids@.skip(i as int) =~= before.skip(i as int).skip(1));
        } else {
            i = i + 1;
            assert(ids@.take(i as int) =~= before.take(i - 1).push(before[i - 1]));
            assert(ids@.skip(i as int) =~= before.skip(i - 1).skip(1));
        }
        assert(all.skip(n).skip(1) =~= all.skip(n + 1));
        proof {
            n = n + 1;
        }
    }
    proof {
        assert(all.take(n) =~= all);
        assert(ids@.take(i as int) =~= ids@);
    }
}

/// Things set aside for the consumer, by channel.
pub struct Inbox<T> {
    map: SmallMap<Vec<T>>,
}

impl<T> View for Inbox<T> {
    type V = Map<u8, Seq<T>>;

    closed spec fn view(&self) -> Map<u8, Seq<T>> {
        Map::new(
            |k: u8| true,
            |k: u8|
                if self.map@.contains_key(k) {
                    self.map@[k]@
                } else {
                    Seq::empty()
                },
        )
    }
}

/// Nothing set aside for any channel.
pub open spec fn empty_inbox<T>() -> Map<u8, Seq<T>> {
    Map::new(|k: u8| true, |k: u8| Seq::empty())
}

impl<T> Inbox<T> {
    /// The map can be looked up in.
    pub closed spec fn wf(&self) -> bool {
        self.map.wf()
    }

    /// Nothing set aside.
    pub fn new() -> (r: Self)
        ensures
            r.wf(),
            r@ == empty_inbox::<T>(),
    {
        let r = Inbox { map: SmallMap::new() };
        assert(r@ =~= empty_inbox::<T>());
        r
    }

    /// Sets `item` aside for `channel`.
    pub fn push(&mut self, channel: u8, item: T)
        requires
            old(self).wf(),
        ensures
            final(self).wf(),
            final(self)@ == old(self)@.insert(channel, old(self)@[channel].push(item)),
    {
        match self.map.get_mut(channel) {
            Some(items) => {
                items.push(item);
            },
            None => {
                let mut items: Vec<T> = Vec::new();
                items.push(item);
                self.map.insert(channel, items);
            },
        }
        assert(self@ =~= old(self)@.insert(channel, old(self)@[channel].push(item)));
    }

    /// Takes out all that was set aside for `channel`.
    pub fn drain(&mut self, channel: u8) -> (r: Vec<T>)
        requires
            old(self).wf(),
        ensures
            final(self).wf(),
            r@ == old(self)@[channel],
            final(self)@ == old(self)@.insert(channel, Seq::empty()),
    {
        let mut r: Vec<T> = Vec::new();
        match self.map.get_mut(channel) {
            Some(items) => {
                std::mem::swap(&mut r, items);
            },
            None => {},
        }
        assert(self@ =~= old(self)@.insert(channel, Seq::empty()));
        r
    }
}

/// The state of a dispatcher.
#[verifier::ext_equal]
pub struct DispatcherView {
    /// The id that the next message gets.
    pub next_message_id: u16,
    /// The acks of fragmented messages.
    pub frags: Window<FragStatus>,
    /// The messages that went out in each packet.
    pub packets: Window<Seq<MessageHandle>>,
    /// The fragments that have arrived of each message.
    pub in_progress: Map<u16, Parts>,
    /// The messages received, by channel.
    pub messages: Map<u8, Seq<ReceivedView>>,
    /// The messages acked, by channel.
    pub acks: Map<u8, Seq<MessageId>>,
}

/// How many message ids the acks of fragmented messages are tracked over: as many as asked for, but
/// less than half of the ids there are, beyond which old ids cannot be told from new ones.
pub open spec fn frag_slots(size: nat) -> nat {
    if size < 0x8000 {
        size
    } else {
        0x7FFF
    }
}

/// How many fragments a payload of `len` bytes is split into.
pub open spec fn fragment_count(len: nat) -> nat {
    (len + 1023) / 1024
}

/// Fragment number `i` of a payload.
pub open spec fn fragment_payload(payload: Seq<u8>, i: int) -> Seq<u8> {
    payload.subrange(
        1024 * i,
        if 1024 * (i + 1) <= payload.len() {
            1024 * (i + 1)
        } else {
            payload.len() as int
        },
    )
}

/// Which fragment number `i` of a message is.
pub open spec fn nth_fragment(parent: u16, len: nat, i: int) -> Fragment {
    Fragment {
        index: i as u16,
        num_fragments: fragment_count(len) as u16,
        parent_id: MessageId(parent),
    }
}

/// The id of fragment number `i`: fragments have consecutive ids.
pub open spec fn nth_id(parent: u16, i: int) -> MessageId {
    MessageId(((parent + i) % 0x1_0000) as u16)
}

/// The ids of the first `n` fragments.
pub open spec fn fragment_ids(parent: u16, n: nat) -> Seq<MessageId> {
    Seq::new(n, |i: int| nth_id(parent, i))
}

/// A channel with the first `n` fragments of a message added to its queue.
pub open spec fn fragments_enqueued(
    channel: ChannelView,
    parent: u16,
    payload: Seq<u8>,
    n: int,
) -> ChannelView
    decreases n,
{
    if n <= 0 {
        channel
    } else {
        let i = n - 1;
        fragments_enqueued(channel, parent, payload, i).enqueued(
            message::outbound(
                nth_id(parent, i),
                channel.id,
                fragment_payload(payload, i),
                Some(nth_fragment(parent, payload.len(), i)),
            ),
        )
    }
}

/// The pools after a buffer was taken for each message in a queue from number `from` on.
pub open spec fn taken_for(pools: Seq<PoolState>, queue: Seq<Queued>, from: int) -> Seq<PoolState>
    decreases queue.len(),
{
    if queue.len() <= from || queue.len() == 0 {
        pools
    } else {
        buffer_pool::after_get(
            taken_for(pools, queue.drop_last(), from),
            queue.last().message.bytes.len(),
        )
    }
}

proof fn lemma_taken_for(pools: Seq<PoolState>, channel: ChannelView, from: int, m: MessageView)
    requires
        0 <= from <= channel.queue.len(),
    ensures
        taken_for(pools, channel.queue, channel.queue.len() as int) == pools,
        taken_for(pools, channel.enqueued(m).queue, from) == buffer_pool::after_get(
            taken_for(pools, channel.queue, from),
            m.bytes.len(),
        ),
{
    assert(channel.enqueued(m).queue.drop_last() =~= channel.queue);
}

/// What changes as the messages of an acked packet are told to be acked.
#[verifier::ext_equal]
pub struct AckProgress {
    pub frags: Window<FragStatus>,
    pub acks: Map<u8, Seq<MessageId>>,
    pub channels: Map<u8, ChannelView>,
    /// What the buffers hold that are no longer needed.
    pub returned: Seq<Seq<u8>>,
}

impl AckProgress {
    /// After the message of `handle` was acked: its channel is told, so that it is not sent
    /// again, and the consumer is, once no fragment is missing.
    pub open spec fn step(self, handle: MessageHandle) -> Self {
        let known = self.channels.contains_key(handle.channel);
        let channels = if known {
            self.channels.insert(handle.channel, self.channels[handle.channel].acked(handle))
        } else {
            self.channels
        };
        let returned = if known {
            self.returned + self.channels[handle.channel].dismissed(handle)
        } else {
            self.returned
        };
        let so_far = self.acks[handle.channel];
        match handle.parent() {
            None => AckProgress {
                channels,
                returned,
                acks: self.acks.insert(handle.channel, so_far.push(handle.id)),
                ..self
            },
            Some(parent) => {
                let (frags, done) = fragment_acked(self.frags, parent, handle.id);
                AckProgress {
                    channels,
                    returned,
                    frags,
                    acks: if done {
                        self.acks.insert(handle.channel, so_far.push(parent))
                    } else {
                        self.acks
                    },
                }
            },
        }
    }

    /// After the messages of the first `n` of `handles` were acked.
    pub open spec fn steps(self, handles: Seq<MessageHandle>, n: int) -> Self
        decreases n,
    {
        if n <= 0 {
            self
        } else {
            self.steps(handles, n - 1).step(handles[n - 1])
        }
    }
}

impl DispatcherView {
    /// The ids that the acks of fragmented messages are tracked over end where the message before
    /// the next one began.
    pub open spec fn wf(self) -> bool {
        &&& 0 < self.frags.size < 0x8000
        &&& (self.next_message_id - self.frags.sequence) % 0x1_0000 <= MAX_FRAGMENTS
    }

    /// Nothing sent or received.
    pub open spec fn fresh(frag_size: nat, packets_size: nat) -> Self {
        DispatcherView {
            next_message_id: 0,
            frags: Window::fresh(frag_slots(frag_size)),
            packets: Window::fresh(packets_size),
            in_progress: Map::empty(),
            messages: empty_inbox(),
            acks: empty_inbox(),
        }
    }

    /// With a whole message set aside for the consumer.
    pub open spec fn delivered(self, m: ReceivedView) -> Self {
        DispatcherView {
            messages: self.messages.insert(m.channel, self.messages[m.channel].push(m)),
            ..self
        }
    }

    /// After message `m` was received: it is set aside for the consumer, or kept until the other
    /// fragments have arrived.
    pub open spec fn received(self, m: MessageView) -> Self {
        if m.fragment is None {
            self.delivered(received_message::single(m))
        } else {
            let (in_progress, done) = message_reassembler::fragment_added(self.in_progress, m);
            let d = DispatcherView { in_progress, ..self };
            match done {
                Some(whole) => d.delivered(whole),
                None => d,
            }
        }
    }

    /// After packet `packet` was acked.
    pub open spec fn acked(self, packet: PacketId, channels: Map<u8, ChannelView>) -> AckProgress {
        let start = AckProgress {
            frags: self.frags,
            acks: self.acks,
            channels,
            returned: Seq::empty(),
        };
        match self.packets.lookup(packet.0) {
            None => start,
            Some(handles) => start.steps(handles, handles.len() as int),
        }
    }

    /// The dispatcher after packet `packet` was acked.
    pub open spec fn after_ack(self, packet: PacketId, channels: Map<u8, ChannelView>) -> Self {
        let p = self.acked(packet, channels);
        DispatcherView {
            frags: p.frags,
            acks: p.acks,
            packets: self.packets.removed(packet.0),
            ..self
        }
    }

    /// After a packet was sent, before it is noted which messages it contains.
    pub open spec fn passed(self, packet: PacketId) -> Self {
        DispatcherView { packets: self.packets.skipped(packet.0), ..self }
    }

    /// After a message was sent: dispatcher, channel, and what the caller is told. A payload that
    /// is too large for one message is split into fragments, whose acks are tracked.
    pub open spec fn sent(self, channel: ChannelView, payload: Seq<u8>) -> (
        Self,
        ChannelView,
        Result<MessageId, PicklebackError>,
    ) {
        let parent = self.next_message_id;
        if payload.len() <= FRAGMENT_SIZE {
            (
                DispatcherView {
                    next_message_id: parent.wrapping_add(1),
                    frags: self.frags.advanced(parent),
                    ..self
                },
                channel.enqueued(
                    message::outbound(MessageId(parent), channel.id, payload, None),
                ),
                Ok(MessageId(parent)),
            )
        } else {
            let n = fragment_count(payload.len());
            (
                DispatcherView {
                    next_message_id: nth_id(parent, n as int).0,
                    frags: self.frags.inserted(
                        parent,
                        FragStatus::Partial(fragment_ids(parent, n)),
                    ),
                    ..self
                },
                fragments_enqueued(channel, parent, payload, n as int),
                Ok(MessageId(parent)),
            )
        }
    }
}

impl DispatcherView {
    /// The id that is given out next becomes the newest of those that acks are tracked over.
    proof fn lemma_next_id(self)
        requires
            self.wf(),
        ensures
            self.frags.sequence == self.next_message_id || sequence_buffer::seq_gt(
                self.next_message_id,
                self.frags.sequence,
            ),
            self.frags.advanced(self.next_message_id).sequence == self.next_message_id,
            self.frags.advanced(self.next_message_id).size == self.frags.size,
            !self.frags.advanced(self.next_message_id).too_old(self.next_message_id),
    {
        self.frags.lemma_advanced(self.next_message_id);
    }

    /// A message of any size that is allowed gets the next id, whatever was sent before. If it is
    /// sent in fragments, all of those are to be acked.
    pub proof fn lemma_sent_tracked(self, channel: ChannelView, payload: Seq<u8>)
        requires
            self.wf(),
            payload.len() <= 1024 * MAX_FRAGMENTS,
        ensures
            ({
                let (d, _, result) = self.sent(channel, payload);
                let parent = self.next_message_id;
                &&& d.wf()
                &&& result == Ok::<_, PicklebackError>(MessageId(parent))
                &&& payload.len() > FRAGMENT_SIZE ==> d.frags.lookup(parent) == Some(
                    FragStatus::Partial(fragment_ids(parent, fragment_count(payload.len()))),
                )
            }),
    {
        let parent = self.next_message_id;
        let n = fragment_count(payload.len());
        let status = FragStatus::Partial(fragment_ids(parent, n));
        self.lemma_next_id();
        lemma_ids_ahead(parent, 1);
        if payload.len() > FRAGMENT_SIZE {
            lemma_ids_ahead(parent, n as int);
            self.frags.lemma_inserted(parent, status);
            let d = self.sent(channel, payload).0;
            assert(d.frags == self.frags.inserted(parent, status));
            assert(d.frags.sequence == parent);
            assert(d.next_message_id == nth_id(parent, n as int).0);
        }
    }

    /// Acks leave alone which ids are given out and tracked.
    proof fn lemma_acked(self, packet: PacketId, channels: Map<u8, ChannelView>)
        ensures
            self.after_ack(packet, channels).frags.size == self.frags.size,
            self.after_ack(packet, channels).frags.sequence == self.frags.sequence,
            self.wf() ==> self.after_ack(packet, channels).wf(),
    {
        let start = AckProgress {
            frags: self.frags,
            acks: self.acks,
            channels,
            returned: Seq::empty(),
        };
        if let Some(handles) = self.packets.lookup(packet.0) {
            lemma_steps_frags(start, handles, handles.len() as int);
        }
    }

    /// Sending a message leaves the id of the channel alone.
    pub proof fn lemma_sent(self, channel: ChannelView, payload: Seq<u8>)
        ensures
            self.sent(channel, payload).1.id == channel.id,
    {
        lemma_fragments_enqueued(
            channel,
            self.next_message_id,
            payload,
            fragment_count(payload.len()) as int,
        );
    }
}

proof fn lemma_ids_ahead(parent: u16, n: int)
    requires
        0 <= n <= MAX_FRAGMENTS,
    ensures
        (nth_id(parent, n).0 - parent) % 0x1_0000 == n,
        nth_id(parent, 1).0 == parent.wrapping_add(1),
{
}

proof fn lemma_next_fragment(parent: u16, i: u16)
    requires
        i < MAX_FRAGMENTS,
    ensures
        fragment_ids(parent, (i + 1) as nat) == fragment_ids(parent, i as nat).push(
            nth_id(parent, i as int),
        ),
        nth_id(parent, i as int).0.wrapping_add(1) == nth_id(parent, i + 1).0,
{
    assert(fragment_ids(parent, (i + 1) as nat) =~= fragment_ids(parent, i as nat).push(
        nth_id(parent, i as int),
    ));
}

proof fn lemma_steps_frags(p: AckProgress, handles: Seq<MessageHandle>, n: int)
    ensures
        p.steps(handles, n).frags.size == p.frags.size,
        p.steps(handles, n).frags.sequence == p.frags.sequence,
    decreases n,
{
    if n > 0 {
        lemma_steps_frags(p, handles, n - 1);
    }
}

proof fn lemma_fragments_enqueued(
    channel: ChannelView,
    parent: u16,
    payload: Seq<u8>,
    n: int,
)
    ensures
        fragments_enqueued(channel, parent, payload, n).id == channel.id,
    decreases n,
{
    if n > 0 {
        lemma_fragments_enqueued(channel, parent, payload, n - 1);
    }
}

/// Gives ids to messages that are sent, and sets aside what was received and acked.
pub struct MessageDispatcher {
    next_message_id: u16,
    sent_frag_map: SentFragMap,
    messages_in_packets: SequenceBuffer<Vec<MessageHandle>>,
    message_reassembler: MessageReassembler,
    message_inbox: Inbox<ReceivedMessage>,
    ack_inbox: Inbox<MessageId>,
}

impl View for MessageDispatcher {
    type V = DispatcherView;

    closed spec fn view(&self) -> DispatcherView {
        DispatcherView {
            next_message_id: self.next_message_id,
            frags: self.sent_frag_map@,
            packets: self.messages_in_packets@.mapped(|v: Vec<MessageHandle>| v@),
            in_progress: self.message_reassembler@,
            messages: self.message_inbox@.map_values(
                |s: Seq<ReceivedMessage>| s.map_values(|m: ReceivedMessage| m@),
            ),
            acks: self.ack_inbox@,
        }
    }
}

impl MessageDispatcher {
    /// The parts are whole, and the ids given out are tracked.
    pub closed spec fn wf(&self) -> bool {
        self.whole() && self@.wf()
    }

    /// What a dispatcher that is whole can be relied on for.
    pub proof fn lemma_wf(&self)
        requires
            self.wf(),
        ensures
            self@.wf(),
            self@.packets.modulus() != 0,
    {
    }

    /// The parts are whole, and so are all messages set aside.
    spec fn whole(&self) -> bool {
        &&& self.sent_frag_map.wf()
        &&& self.messages_in_packets.wf()
        &&& self.messages_in_packets@.modulus() != 0
        &&& self.message_reassembler.wf()
        &&& self.message_inbox.wf()
        &&& self.ack_inbox.wf()
        &&& forall|c: u8, i: int|
            0 <= i < self.message_inbox@[c].len() ==> (#[trigger] self.message_inbox@[c][i]).wf()
    }

    /// Nothing sent or received.
    pub fn new(config: &PicklebackConfig) -> (r: Self)
        requires
            config@.valid(),
        ensures
            r.wf(),
            r@ == DispatcherView::fresh(
                config.sent_frag_map_size as nat,
                config.received_packets_buffer_size as nat,
            ),
    {
        let slots: usize = if config.sent_frag_map_size < 0x8000 {
            config.sent_frag_map_size
        } else {
            0x7FFF
        };
        let r = MessageDispatcher {
            next_message_id: 0,
            sent_frag_map: SentFragMap::with_capacity(slots),
            messages_in_packets: SequenceBuffer::with_capacity(config.received_packets_buffer_size),
            message_reassembler: MessageReassembler::new(),
            message_inbox: Inbox::new(),
            ack_inbox: Inbox::new(),
        };
        assert(r@.messages =~= empty_inbox::<ReceivedView>()) by {
            assert forall|c: u8| #[trigger] r@.messages[c] =~= empty_inbox::<ReceivedView>()[c] by {}
        }
        assert(r@.packets =~= Window::fresh(config.received_packets_buffer_size as nat));
        r
    }

    /// Sets a whole message aside.
    fn deliver(&mut self, msg: ReceivedMessage)
        requires
            old(self).wf(),
            msg.wf(),
        ensures
            final(self).wf(),
            final(self)@ == old(self)@.delivered(msg@),
    {
        let channel = msg.channel();
        let ghost m = msg@;
        let ghost all = self.message_inbox@;
        self.message_inbox.push(channel, msg);
        proof {
            assert forall|c: u8| #[trigger] self@.messages[c] =~= old(self)@.delivered(
                m,
            ).messages[c] by {
                assert(self.message_inbox@[c] == if c == channel {
                    all[c].push(msg)
                } else {
                    all[c]
                });
            }
            assert(self@.messages =~= old(self)@.delivered(m).messages);
            assert(self@ =~= old(self)@.delivered(m));
        }
    }

    /// Takes a message parsed from a received packet.
    pub fn process_received_message(&mut self, msg: Message)
        requires
            old(self).wf(),
            msg@.wf(),
        ensures
            final(self).wf(),
            final(self)@ == old(self)@.received(msg@),
    {
        if msg.fragment().is_none() {
            self.deliver(ReceivedMessage::new_single(msg));
        } else {
            match self.message_reassembler.add_fragment(msg) {
                Some(whole) => {
                    self.deliver(whole);
                },
                None => {},
            }
        }
        assert(self@ =~= old(self)@.received(msg@));
    }

    /// Takes out the messages received on a channel.
    pub fn drain_received_messages(&mut self, channel: u8) -> (r: Vec<ReceivedMessage>)
        requires
            old(self).wf(),
        ensures
            final(self).wf(),
            forall|i: int| 0 <= i < r@.len() ==> (#[trigger] r@[i]).wf(),
            r@.map_values(|m: ReceivedMessage| m@) == old(self)@.messages[channel],
            final(self)@ == (DispatcherView {
                messages: old(self)@.messages.insert(channel, Seq::empty()),
                ..old(self)@
            }),
    {
        let r = self.message_inbox.drain(channel);
        proof {
            let after = old(self)@.messages.insert(channel, Seq::empty());
            assert(r@.map_values(|m: ReceivedMessage| m@) =~= old(self)@.messages[channel]);
            assert forall|c: u8| #[trigger] self@.messages[c] =~= after[c] by {}
            assert(self@.messages =~= after);
        }
        r
    }

    /// Takes out the messages acked on a channel.
    pub fn drain_message_acks(&mut self, channel: u8) -> (r: Vec<MessageId>)
        requires
            old(self).wf(),
        ensures
            final(self).wf(),
            r@ == old(self)@.acks[channel],
            final(self)@ == (DispatcherView {
                acks: old(self)@.acks.insert(channel, Seq::empty()),
                ..old(self)@
            }),
    {
        self.ack_inbox.drain(channel)
    }

    /// Notes which messages a packet contains.
    pub fn set_packet_message_handles(
        &mut self,
        packet_handle: PacketId,
        message_handles: Vec<MessageHandle>,
    ) -> (r: Result<(), PicklebackError>)
        requires
            old(self).wf(),
        ensures
            final(self).wf(),
            match r {
                Ok(_) => {
                    &&& !old(self)@.packets.too_old(packet_handle.0)
                    &&& final(self)@ == (DispatcherView {
                        packets: old(self)@.packets.inserted(packet_handle.0, message_handles@),
                        ..old(self)@
                    })
                },
                Err(e) => {
                    &&& old(self)@.packets.too_old(packet_handle.0)
                    &&& e == PicklebackError::SequenceTooOld
                    &&& final(self)@ == old(self)@
                },
            },
    {
        proof {
            self.messages_in_packets@.lemma_mapped(
                |v: Vec<MessageHandle>| v@,
                packet_handle.0,
                message_handles,
            );
            self.messages_in_packets@.lemma_inserted(packet_handle.0, message_handles);
        }
        match self.messages_in_packets.insert(packet_handle.0, message_handles) {
            Ok(_) => Ok(()),
            Err(e) => Err(e),
        }
    }

    /// A packet was sent. Unless it is told which messages it contains, it contains none.
    pub fn packet_sent(&mut self, packet_handle: PacketId)
        requires
            old(self).wf(),
        ensures
            final(self).wf(),
            final(self)@ == old(self)@.passed(packet_handle),
    {
        proof {
            self.messages_in_packets@.lemma_mapped(
                |v: Vec<MessageHandle>| v@,
                packet_handle.0,
                arbitrary(),
            );
        }
        self.messages_in_packets.skip(packet_handle.0);
    }

    /// A packet was acked, and with it the messages that it contained. Tells the channels, so that
    /// they can clean up, and sets the acks aside. Gives back the buffers that are no longer
    /// needed.
    pub fn acked_packet(&mut self, packet_handle: PacketId, channel_list: &mut ChannelList) -> (r:
        Vec<PooledBuffer>)
        requires
            old(self).wf(),
            old(channel_list).wf(),
        ensures
            final(self).wf(),
            final(channel_list).wf(),
            final(self)@ == old(self)@.after_ack(packet_handle, old(channel_list)@),
            final(channel_list)@ == old(self)@.acked(packet_handle, old(channel_list)@).channels,
            r@.map_values(|b: PooledBuffer| b@) == old(self)@.acked(
                packet_handle,
                old(channel_list)@,
            ).returned,
    {
        let mut returned: Vec<PooledBuffer> = Vec::new();
        let ghost bytes = |b: PooledBuffer| b@;
        proof {
            self.messages_in_packets@.lemma_mapped(
                |v: Vec<MessageHandle>| v@,
                packet_handle.0,
                arbitrary(),
            );
            assert(returned@.map_values(bytes) =~= Seq::empty());
            self@.lemma_acked(packet_handle, channel_list@);
        }
        let ghost start = AckProgress {
            frags: self@.frags,
            acks: self@.acks,
            channels: channel_list@,
            returned: Seq::empty(),
        };
        if let Some(msg_handles) = self.messages_in_packets.remove(packet_handle.0) {
            let ghost d = self@;
            let mut i: usize = 0;
            while i < msg_handles.len()
                invariant
                    i <= msg_handles@.len(),
                    self.whole(),
                    channel_list.wf(),
                    bytes == (|b: PooledBuffer| b@),
                    ({
                        let p = start.steps(msg_handles@, i as int);
                        &&& self@ == (DispatcherView { frags: p.frags, acks: p.acks, ..d })
                        &&& channel_list@ == p.channels
                        &&& returned@.map_values(bytes) == p.returned
                    }),
                decreases msg_handles@.len() - i,
            {
                let msg_handle = msg_handles[i];
                let ghost p = start.steps(msg_handles@, i as int);
                // let the channel know, so it doesn't retransmit this message
                match channel_list.get_mut(msg_handle.channel) {
                    Some(channel) => {
                        let mut dismissed = channel.message_ack_received(&msg_handle);
                        let ghost (a, b) = (returned@, dismissed@);
                        returned.append(&mut dismissed);
                        assert((a + b).map_values(bytes) =~= a.map_values(bytes) + b.map_values(
                            bytes,
                        ));
                    },
                    None => {},
                }
                match msg_handle.parent_id() {
                    Some(parent_id) => {
                        if self.sent_frag_map.ack_fragment_message(parent_id, msg_handle.id()) {
                            self.ack_inbox.push(msg_handle.channel, parent_id);
                        }
                    },
                    None => {
                        // non-fragment messages directly map to an acked message
                        self.ack_inbox.push(msg_handle.channel, msg_handle.id());
                    },
                }
                i = i + 1;
                assert(start.steps(msg_handles@, i as int) == p.step(msg_handle));
            }
        }
        assert(self@ =~= old(self)@.after_ack(packet_handle, old(channel_list)@));
        returned
    }

    /// Sends a message on a channel. Gives the id by which it will be acked.
    pub fn add_message_to_channel(
        &mut self,
        pool: &mut BufPool,
        channel: &mut Channel,
        payload: &[u8],
    ) -> (r: Result<MessageId, PicklebackError>)
        requires
            old(self).wf(),
            buffer_pool::usable(old(pool)@),
            old(channel).wf(),
            payload@.len() <= 1024 * MAX_FRAGMENTS,
        ensures
            final(self).wf(),
            final(pool)@.len() == old(pool)@.len(),
            buffer_pool::usable(final(pool)@),
            final(pool)@ == taken_for(
                old(pool)@,
                final(channel)@.queue,
                old(channel)@.queue.len() as int,
            ),
            final(channel).wf(),
            (final(self)@, final(channel)@, r) == old(self)@.sent(old(channel)@, payload@),
    {
        proof {
            self@.lemma_next_id();
            self@.lemma_sent_tracked(channel@, payload@);
        }
        let ghost d = self@;
        self.sent_frag_map.advance(MessageId(self.next_message_id));
        if payload.len() <= 1024 {
            let id = self.next_message_id();
            proof {
                lemma_taken_for(
                    pool@,
                    channel@,
                    channel@.queue.len() as int,
                    message::outbound(id, channel@.id, payload@, None),
                );
            }
            channel.enqueue_message(pool, id, payload, Fragmented::No);
            Ok(id)
        } else {
            proof {
                d.frags.lemma_advanced_inserted(
                    d.next_message_id,
                    FragStatus::Partial(
                        fragment_ids(d.next_message_id, fragment_count(payload@.len())),
                    ),
                );
            }
            self.add_large_message_to_channel(pool, channel, payload)
        }
    }

    /// Enqueues fragment number `index` of a message.
    fn add_fragment_to_channel(
        &mut self,
        pool: &mut BufPool,
        channel: &mut Channel,
        payload: &[u8],
        fragment: Fragment,
    ) -> (r: MessageId)
        requires
            old(self).whole(),
            buffer_pool::usable(old(pool)@),
            old(channel).wf(),
            1024 < payload@.len() <= 1024 * MAX_FRAGMENTS,
            fragment.index < fragment.num_fragments,
            fragment.num_fragments == fragment_count(payload@.len()),
        ensures
            final(self).whole(),
            final(pool)@.len() == old(pool)@.len(),
            buffer_pool::usable(final(pool)@),
            final(pool)@ == buffer_pool::after_get(
                old(pool)@,
                final(channel)@.queue.last().message.bytes.len(),
            ),
            final(channel).wf(),
            r == MessageId(old(self)@.next_message_id),
            final(self)@ == (DispatcherView {
                next_message_id: old(self)@.next_message_id.wrapping_add(1),
                ..old(self)@
            }),
            final(channel)@ == old(channel)@.enqueued(
                message::outbound(
                    r,
                    old(channel)@.id,
                    fragment_payload(payload@, fragment.index as int),
                    Some(fragment),
                ),
            ),
    {
        let start: usize = fragment.index as usize * 1024;
        let end: usize = if fragment.index == fragment.num_fragments - 1 {
            payload.len()
        } else {
            start + 1024
        };
        let id = self.next_message_id();
        let frag_payload = &payload[start..end];
        assert(frag_payload@ =~= fragment_payload(payload@, fragment.index as int));
        channel.enqueue_message(pool, id, frag_payload, Fragmented::Yes(fragment));
        id
    }

    /// Sends a message that is too large for one packet. Each fragment has an id of its own, but
    /// because these are consecutive the id of the first one, which is that of the message, can
    /// always be told from the index.
    #[verifier::rlimit(40)]
    #[verifier::spinoff_prover]
    fn add_large_message_to_channel(
        &mut self,
        pool: &mut BufPool,
        channel: &mut Channel,
        payload: &[u8],
    ) -> (r: Result<MessageId, PicklebackError>)
        requires
            old(self).whole(),
            buffer_pool::usable(old(pool)@),
            old(channel).wf(),
            1024 < payload@.len() <= 1024 * MAX_FRAGMENTS,
            !old(self)@.frags.too_old(old(self)@.next_message_id),
        ensures
            final(self).whole(),
            final(pool)@.len() == old(pool)@.len(),
            buffer_pool::usable(final(pool)@),
            final(pool)@ == taken_for(
                old(pool)@,
                final(channel)@.queue,
                old(channel)@.queue.len() as int,
            ),
            final(channel).wf(),
            (final(self)@, final(channel)@, r) == old(self)@.sent(old(channel)@, payload@),
    {
        let full_payload_size = payload.len();
        let remainder: usize = if full_payload_size % 1024 > 0 {
            1
        } else {
            0
        };
        let num_fragments: u16 = (full_payload_size / 1024 + remainder) as u16;
        assert(num_fragments == fragment_count(payload@.len()));
        let mut frag_ids: Vec<MessageId> = Vec::new();
        // id of first fragment is the parent id for the group
        let parent_id = MessageId(self.next_message_id);
        let ghost d = self@;
        proof {
            lemma_taken_for(
                pool@,
                channel@,
                channel@.queue.len() as int,
                channel@.queue.last().message,
            );
        }
        let mut index: u16 = 0;
        while index < num_fragments
            invariant
                1024 < payload@.len() <= 1024 * MAX_FRAGMENTS,
                full_payload_size == payload@.len(),
                num_fragments == fragment_count(payload@.len()),
                index <= num_fragments,
                parent_id.0 == d.next_message_id,
                self.whole(),
                pool@.len() == old(pool)@.len(),
                buffer_pool::usable(pool@),
                pool@ == taken_for(
                    old(pool)@,
                    channel@.queue,
                    old(channel)@.queue.len() as int,
                ),
                old(channel)@.queue.len() <= channel@.queue.len(),
                channel.wf(),
                frag_ids@ == fragment_ids(parent_id.0, index as nat),
                self@ == (DispatcherView {
                    next_message_id: nth_id(parent_id.0, index as int).0,
                    ..d
                }),
                channel@ == fragments_enqueued(
                    old(channel)@,
                    parent_id.0,
                    payload@,
                    index as int,
                ),
                channel@.id == old(channel)@.id,
            decreases num_fragments - index,
        {
            let fragment = Fragment { index, num_fragments, parent_id };
            let ghost before = channel@;
            let id = self.add_fragment_to_channel(pool, channel, payload, fragment);
            proof {
                lemma_taken_for(
                    old(pool)@,
                    before,
                    old(channel)@.queue.len() as int,
                    channel@.queue.last().message,
                );
            }
            frag_ids.push(id);
            proof {
                lemma_next_fragment(parent_id.0, index);
            }
            index = index + 1;
        }
        self.sent_frag_map.insert_fragmented_message(parent_id, frag_ids)?;
        Ok(parent_id)
    }

    fn next_message_id(&mut self) -> (r: MessageId)
        requires
            old(self).whole(),
        ensures
            final(self).whole(),
            r == MessageId(old(self)@.next_message_id),
            final(self)@ == (DispatcherView {
                next_message_id: old(self)@.next_message_id.wrapping_add(1),
                ..old(self)@
            }),
    {
        let ret = self.next_message_id;
        self.next_message_id = self.next_message_id.wrapping_add(1);
        MessageId(ret)
    }
}

} // verus!
