//! Channels: queues of messages to be sent, each with its own delivery guarantee.

use crate::buffer_pool::{self, BufPool, PooledBuffer};
use crate::dispatcher::MessageHandle;
use crate::protocol::message::{self, Fragmented, Message, MessageView};
use crate::sequence_buffer::{self, SequenceBuffer, Window};
use crate::small_map::SmallMap;
use crate::time::{self, Time};
use crate::{MessageId, MAX_CHANNELS};
use std::collections::VecDeque;
use vstd::prelude::*;

verus! {

/// How long a reliable channel waits for an ack before it sends a message again.
pub const RESEND_TIME: Time = 100_000_000;

/// How far back a channel remembers which messages it has received.
pub const SEEN_SIZE: usize = 10000;

/// A message in the queue of a channel.
#[verifier::ext_equal]
pub struct Queued {
    pub message: MessageView,
    /// When it was last put into a packet.
    pub last_sent: Option<Time>,
}

impl Queued {
    /// Whether an ack of `handle` says that the message has arrived. A fragment is only meant
    /// where the fragment's parent is.
    pub open spec fn dismissed_by(self, handle: MessageHandle) -> bool {
        self.message.id == handle.id && match self.message.fragment {
            Some(f) => Some(f.parent_id) == handle.parent(),
            None => handle.frag_index is None,
        }
    }
}

/// Whether message `id` is wanted, where messages `seen` were received, if any was.
pub open spec fn wanted(seen: Window<bool>, heard: bool, id: MessageId) -> bool {
    ||| !heard
    ||| sequence_buffer::seq_gt(id.0, seen.sequence)
    ||| seen.in_range(id.0) && !seen.contents.dom().contains(id.0)
}

/// With message `id` marked as seen. The first message says where ids have got to.
pub open spec fn marked(seen: Window<bool>, heard: bool, id: MessageId) -> Window<bool> {
    if heard {
        seen.inserted(id.0, true)
    } else {
        (Window { sequence: id.0, ..seen }).inserted(id.0, true)
    }
}

/// The state of a channel.
#[verifier::ext_equal]
pub struct ChannelView {
    pub id: u8,
    /// Whether messages are sent again until acked.
    pub reliable: bool,
    pub time: Time,
    /// The messages to be sent.
    pub queue: Seq<Queued>,
    /// The messages that were received.
    pub seen: Window<bool>,
    /// Whether any message was received.
    pub heard: bool,
}

impl ChannelView {
    /// A channel without messages.
    pub open spec fn fresh(id: u8, reliable: bool, time: Time) -> Self {
        ChannelView {
            id,
            reliable,
            time,
            queue: Seq::empty(),
            seen: Window::fresh(SEEN_SIZE as nat),
            heard: false,
        }
    }

    /// All messages can be sent, and there is something to each of them.
    pub open spec fn wf(self) -> bool {
        &&& forall|i: int|
            0 <= i < self.queue.len() ==> (#[trigger] self.queue[i]).message.wf()
                && self.queue[i].message.bytes.len() > 0
        &&& self.id < MAX_CHANNELS
        &&& self.seen.size == SEEN_SIZE
    }

    /// With the clock moved on.
    pub open spec fn updated(self, dt: Time) -> Self {
        ChannelView { time: time::advanced(self.time, dt), ..self }
    }

    /// Whether a message may be put into a packet now.
    pub open spec fn ready(self, q: Queued) -> bool {
        !self.reliable || match q.last_sent {
            None => true,
            Some(t) => self.time - t >= RESEND_TIME,
        }
    }

    /// Whether any message may be put into a packet now.
    pub open spec fn any_ready(self) -> bool {
        exists|i: int| 0 <= i < self.queue.len() && self.ready(#[trigger] self.queue[i])
    }

    /// The first message from number `from` on that is ready and takes up no more than
    /// `max_size`.
    pub open spec fn first_fit(self, max_size: nat, from: int) -> Option<int>
        decreases self.queue.len() - from,
    {
        if from >= self.queue.len() {
            None
        } else if self.queue[from].message.size() <= max_size && self.ready(self.queue[from]) {
            Some(from)
        } else {
            self.first_fit(max_size, from + 1)
        }
    }

    /// After message number `i` was put into a packet: an unreliable channel forgets it, a
    /// reliable one keeps it until it is acked.
    pub open spec fn sent(self, i: int) -> Self {
        ChannelView {
            queue: if self.reliable {
                self.queue.update(i, Queued { last_sent: Some(self.time), ..self.queue[i] })
            } else {
                self.queue.remove(i)
            },
            ..self
        }
    }

    /// With a message added to the queue.
    pub open spec fn enqueued(self, message: MessageView) -> Self {
        ChannelView { queue: self.queue.push(Queued { message, last_sent: None }), ..self }
    }

    /// Without the messages that an ack of `handle` dismisses.
    pub open spec fn acked(self, handle: MessageHandle) -> Self {
        if self.reliable {
            ChannelView { queue: self.queue.filter(|q: Queued| !q.dismissed_by(handle)), ..self }
        } else {
            self
        }
    }

    /// The bytes of the messages that an ack of `handle` dismisses.
    pub open spec fn dismissed(self, handle: MessageHandle) -> Seq<Seq<u8>> {
        if self.reliable {
            self.queue.filter(|q: Queued| q.dismissed_by(handle)).map_values(
                |q: Queued| q.message.bytes,
            )
        } else {
            Seq::empty()
        }
    }

    /// Whether a message with this id is wanted: it is newer than all that were seen, or it is not
    /// too old and was not seen before. The other channels use ids too, so the first message may
    /// have any id, and the next one may be far ahead.
    pub open spec fn accepts(self, id: MessageId) -> bool {
        wanted(self.seen, self.heard, id)
    }

    /// After a message with this id arrived.
    pub open spec fn received(self, id: MessageId) -> Self {
        if self.accepts(id) {
            ChannelView { seen: marked(self.seen, self.heard, id), heard: true, ..self }
        } else {
            self
        }
    }

    /// The message that fits first is ready, fits, and no earlier one does both.
    pub proof fn lemma_first_fit(self, max_size: nat, from: int)
        requires
            0 <= from,
        ensures
            match self.first_fit(max_size, from) {
                Some(i) => {
                    &&& from <= i < self.queue.len()
                    &&& self.queue[i].message.size() <= max_size
                    &&& self.ready(self.queue[i])
                    &&& forall|j: int|
                        from <= j < i ==> !((#[trigger] self.queue[j]).message.size() <= max_size
                            && self.ready(self.queue[j]))
                },
                None => forall|j: int|
                    from <= j < self.queue.len() ==> !((#[trigger] self.queue[j]).message.size()
                        <= max_size && self.ready(self.queue[j])),
            },
        decreases self.queue.len() - from,
    {
        if from < self.queue.len() && !(self.queue[from].message.size() <= max_size && self.ready(
            self.queue[from],
        )) {
            self.lemma_first_fit(max_size, from + 1);
        }
    }

    /// A message that is newer than all that were seen is wanted, and so is any message where none
    /// was seen.
    pub proof fn lemma_accepts_newer(self, id: MessageId)
        requires
            !self.heard || sequence_buffer::seq_gt(id.0, self.seen.sequence),
        ensures
            self.accepts(id),
            self.received(id).seen.sequence == id.0,
            self.received(id).seen.lookup(id.0) == Some(true),
    {
        self.seen.lemma_inserted(id.0, true);
        (Window { sequence: id.0, ..self.seen }).lemma_inserted(id.0, true);
        sequence_buffer::lemma_seq_gt_order(id.0, id.0);
    }

    /// A message that is less than 10000 ids behind the newest one seen is wanted if it was not seen,
    /// and not wanted if it was. One that is further behind is not wanted.
    pub proof fn lemma_accepts_unseen(self, id: MessageId)
        requires
            self.wf(),
            self.heard,
            (self.seen.sequence - id.0) % 0x1_0000 < 0x8000,
        ensures
            self.accepts(id) <==> (self.seen.sequence - id.0) % 0x1_0000 < 10000
                && self.seen.lookup(id.0) is None,
            !self.accepts(id) ==> self.received(id) == self,
            self.received(id).queue == self.queue,
            self.received(id).seen.sequence == self.seen.sequence,
            self.accepts(id) ==> self.received(id).seen.lookup(id.0) == Some(true),
    {
        self.seen.lemma_inserted(id.0, true);
    }

    /// A message that was seen stays refused while others arrive, newer or older ones, as long as
    /// none of them is 10000 or more ids away from it.
    pub proof fn lemma_still_refused(self, a: MessageId, b: MessageId)
        requires
            self.wf(),
            self.heard,
            self.seen.lookup(a.0) is Some,
            0 <= self.seen.sequence - a.0 < 10000,
            -10000 < b.0 - a.0 < 10000,
        ensures
            !self.accepts(a),
            !self.received(b).accepts(a),
            b != a ==> self.received(b).seen.lookup(a.0) == self.seen.lookup(a.0),
            self.received(b).heard,
    {
        let seen = self.seen;
        seen.lemma_inserted(b.0, true);
        if a != b && self.accepts(b) {
            assert(a.0 as int % 10000 != b.0 as int % 10000);
            if sequence_buffer::seq_gt(b.0, seen.sequence) {
                assert forall|i: u16|
                    seen.sequence.wrapping_add(1) <= i <= b.0 implies #[trigger] (i as int
                    % seen.modulus()) != a.0 as int % seen.modulus() by {
                    assert(0 < i - a.0 < 10000);
                }
            }
            seen.lemma_insert_keeps(b.0, true, a.0);
        } else if a == b {
            assert(!self.accepts(a));
        }
    }

    /// What a channel accepts once, it does not accept again right after.
    pub proof fn lemma_accepts_once(self, id: MessageId)
        ensures
            !self.received(id).accepts(id),
    {
        self.seen.lemma_inserted(id.0, true);
        (Window { sequence: id.0, ..self.seen }).lemma_inserted(id.0, true);
        sequence_buffer::lemma_seq_gt_order(id.0, self.seen.sequence);
        sequence_buffer::lemma_seq_gt_order(id.0, id.0);
    }

    /// A reliable channel keeps a message that was put into a packet, and does not put it into
    /// another one until the resend time has passed.
    pub proof fn lemma_reliable_keeps(self, i: int)
        requires
            self.reliable,
            0 <= i < self.queue.len(),
        ensures
            self.sent(i).queue.len() == self.queue.len(),
            self.sent(i).queue[i].message == self.queue[i].message,
            !self.sent(i).ready(self.sent(i).queue[i]),
            forall|dt: Time|
                0 <= dt && self.time + dt <= i64::MAX ==> #[trigger] self.sent(i).updated(dt).ready(
                    self.sent(i).queue[i],
                ) == (dt >= RESEND_TIME),
    {
    }

    /// Which message an ack is for: the one with the id in question. A fragment counts as such only
    /// if the ack is one of a fragment too, that stands in the same place of the same message.
    pub proof fn lemma_dismissed_by(q: Queued, handle: MessageHandle)
        ensures
            q.message.id != handle.id ==> !q.dismissed_by(handle),
            q.message.fragment is None ==> q.dismissed_by(handle) == (q.message.id == handle.id
                && handle.frag_index is None),
            q.message.fragment matches Some(f) ==> q.dismissed_by(handle) == (q.message.id
                == handle.id && (handle.frag_index matches Some(i) && f.parent_id.0 == (handle.id.0
                - i) % 0x1_0000)),
    {
    }

    /// What an ack dismisses is given back, all of it and nothing else: it makes up the queue together
    /// with what stays. On an unreliable channel an ack does nothing.
    pub proof fn lemma_dismissed(self, handle: MessageHandle)
        ensures
            !self.reliable ==> self.acked(handle) == self && self.dismissed(handle).len() == 0,
            self.reliable ==> self.acked(handle).queue.len() + self.dismissed(handle).len()
                == self.queue.len(),
            self.acked(handle) == (ChannelView { queue: self.acked(handle).queue, ..self }),
            forall|bytes: Seq<u8>| #[trigger]
                self.dismissed(handle).contains(bytes) ==> exists|i: int|
                    0 <= i < self.queue.len() && (#[trigger] self.queue[i]).dismissed_by(handle)
                        && self.queue[i].message.bytes == bytes,
    {
        let p = |q: Queued| q.dismissed_by(handle);
        let n = |q: Queued| !q.dismissed_by(handle);
        lemma_filter_parts(self.queue, p, n);
        assert forall|bytes: Seq<u8>| #[trigger]
            self.dismissed(handle).contains(bytes) implies exists|i: int|
            0 <= i < self.queue.len() && (#[trigger] self.queue[i]).dismissed_by(handle)
                && self.queue[i].message.bytes == bytes by {
            let j = self.dismissed(handle).index_of(bytes);
            let q = self.queue.filter(p)[j];
            self.queue.lemma_filter_pred(p, j);
            self.queue.lemma_filter_contains_rev(p, q);
            let i = self.queue.index_of(q);
            assert(self.queue[i].dismissed_by(handle));
        }
    }

    /// An ack dismisses no message but those that it is for, and all of those.
    pub proof fn lemma_acked(self, handle: MessageHandle)
        requires
            self.reliable,
        ensures
            forall|i: int|
                0 <= i < self.acked(handle).queue.len() ==> !(#[trigger] self.acked(
                    handle,
                ).queue[i]).dismissed_by(handle),
            forall|i: int|
                0 <= i < self.queue.len() && !(#[trigger] self.queue[i]).dismissed_by(handle)
                    ==> self.acked(handle).queue.contains(self.queue[i]),
    {
        broadcast use vstd::seq_lib::group_filter_ensures;

        let p = |q: Queued| !q.dismissed_by(handle);
        assert forall|i: int| 0 <= i < self.acked(handle).queue.len() implies !(
        #[trigger] self.acked(handle).queue[i]).dismissed_by(handle) by {
            assert(p(self.queue.filter(p)[i]));
        }
        assert forall|i: int|
            0 <= i < self.queue.len() && !(#[trigger] self.queue[i]).dismissed_by(
                handle,
            ) implies self.acked(handle).queue.contains(self.queue[i]) by {
            assert(p(self.queue[i]));
            assert(self.queue.filter(p).contains(self.queue[i]));
        }
    }
}

/// Of what either passes one test or the other, each part passes one of them.
proof fn lemma_filter_parts<A>(s: Seq<A>, p: spec_fn(A) -> bool, n: spec_fn(A) -> bool)
    requires
        forall|x: A| #[trigger] p(x) == !n(x),
    ensures
        s.filter(p).len() + s.filter(n).len() == s.len(),
    decreases s.len(),
{
    reveal(Seq::filter);
    if s.len() > 0 {
        lemma_filter_parts(s.drop_last(), p, n);
        assert(p(s.last()) == !n(s.last()));
    }
}

/// Filtering what has one more element at the end.
proof fn lemma_filter_push<A>(s: Seq<A>, x: A, p: spec_fn(A) -> bool)
    ensures
        s.push(x).filter(p) == (if p(x) {
            s.filter(p).push(x)
        } else {
            s.filter(p)
        }),
{
    reveal(Seq::filter);
    assert(s.push(x).drop_last() =~= s);
}

/// Marks a message id as seen, if it is wanted. `heard` says whether any was seen before.
fn accept(seen_buf: &mut SequenceBuffer<bool>, heard: bool, id: MessageId) -> (r: bool)
    requires
        old(seen_buf).wf(),
        0 < old(seen_buf)@.size < 0x8000,
    ensures
        final(seen_buf).wf(),
        r == wanted(old(seen_buf)@, heard, id),
        final(seen_buf)@ == (if r {
            marked(old(seen_buf)@, heard, id)
        } else {
            old(seen_buf)@
        }),
{
    let ghost before = seen_buf@;
    proof {
        before.lemma_advanced_inserted(id.0, true);
        if sequence_buffer::seq_gt(id.0, before.sequence) {
            before.lemma_advanced(id.0);
        }
        let started = Window { sequence: id.0, ..before };
        started.lemma_advanced(id.0);
        sequence_buffer::lemma_seq_gt_order(id.0, id.0);
        sequence_buffer::lemma_in_range_not_too_old(before, id.0);
    }
    if !heard {
        // other channels may have used up any number of ids
        seen_buf.start_at(id.0);
    } else if seen_buf.check_newer_than_current(id.0) {
        seen_buf.advance(id.0);
    } else if !seen_buf.check_sequence(id.0) || seen_buf.contains(id.0) {
        return false;
    }
    match seen_buf.insert(id.0, true) {
        Ok(_) => true,
        Err(_) => false,
    }
}

/// A channel that sends each message once.
pub struct UnreliableChannel {
    time: Time,
    id: u8,
    q: VecDeque<Message>,
    seen_buf: SequenceBuffer<bool>,
    heard: bool,
}

impl View for UnreliableChannel {
    type V = ChannelView;

    closed spec fn view(&self) -> ChannelView {
        ChannelView {
            id: self.id,
            reliable: false,
            time: self.time,
            queue: self.q@.map_values(|m: Message| Queued { message: m@, last_sent: None }),
            seen: self.seen_buf@,
            heard: self.heard,
        }
    }
}

impl UnreliableChannel {
    /// All messages can be sent, and the buffer of seen messages is whole.
    pub closed spec fn wf(&self) -> bool {
        self@.wf() && self.seen_buf.wf()
    }

    proof fn lemma_wf(&self)
        requires
            self.wf(),
        ensures
            self.id < MAX_CHANNELS,
            self.seen_buf@.modulus() != 0,
            forall|i: int| 0 <= i < self.q@.len() ==> (#[trigger] self.q@[i])@.wf(),
    {
        assert forall|i: int| 0 <= i < self.q@.len() implies (#[trigger] self.q@[i])@.wf() by {
            assert(self@.queue[i].message == self.q@[i]@);
        }
    }

    /// A channel without messages.
    pub fn new(id: u8, time: Time) -> (r: Self)
        requires
            id < MAX_CHANNELS,
        ensures
            r.wf(),
            r@ == ChannelView::fresh(id, false, time),
    {
        let r = UnreliableChannel {
            time,
            id,
            q: VecDeque::new(),
            seen_buf: SequenceBuffer::with_capacity(SEEN_SIZE),
            heard: false,
        };
        assert(r@ =~= ChannelView::fresh(id, false, time));
        r
    }

    /// The id of the channel.
    pub fn id(&self) -> (r: u8)
        ensures
            r == self@.id,
    {
        self.id
    }

    /// Moves the clock of the channel on.
    pub fn update(&mut self, dt: Time)
        requires
            old(self).wf(),
        ensures
            final(self).wf(),
            final(self)@ == old(self)@.updated(dt),
    {
        self.time = time::advance(self.time, dt);
    }

    /// Whether the message is wanted. It is not, once it was.
    pub fn accepts_message(&mut self, msg: &Message) -> (r: bool)
        requires
            old(self).wf(),
        ensures
            final(self).wf(),
            r == old(self)@.accepts(msg@.id),
            final(self)@ == old(self)@.received(msg@.id),
    {
        proof {
            self.lemma_wf();
        }
        let r = accept(&mut self.seen_buf, self.heard, msg.id());
        self.heard = self.heard || r;
        assert(self@ =~= old(self)@.received(msg@.id));
        r
    }

    /// Enqueues a message to be sent in an outbound packet.
    pub fn enqueue_message(
        &mut self,
        pool: &mut BufPool,
        id: MessageId,
        payload: &[u8],
        fragmented: Fragmented,
    )
        requires
            old(self).wf(),
            buffer_pool::usable(old(pool)@),
            message::sendable(payload@.len(), fragmented.fragment()),
        ensures
            final(self).wf(),
            final(pool)@.len() == old(pool)@.len(),
            buffer_pool::usable(final(pool)@),
            final(pool)@ == buffer_pool::after_get(
                old(pool)@,
                message::outbound(
                    id,
                    old(self)@.id,
                    payload@,
                    fragmented.fragment(),
                ).bytes.len(),
            ),
            final(self)@ == old(self)@.enqueued(
                message::outbound(id, old(self)@.id, payload@, fragmented.fragment()),
            ),
    {
        proof {
            self.lemma_wf();
        }
        proof {
            message::lemma_outbound_len(id, self.id, payload@, fragmented.fragment());
        }
        let msg = Message::new_outbound(pool, id, self.id, payload, fragmented);
        self.q.push_back(msg);
        assert(self@ =~= old(self)@.enqueued(
            message::outbound(id, old(self)@.id, payload@, fragmented.fragment()),
        ));
    }

    /// Whether any messages are ready to be sent in the next packet.
    pub fn any_ready_to_send(&self) -> (r: bool)
        ensures
            r == self@.any_ready(),
    {
        let r = self.q.len() > 0;
        proof {
            if r {
                assert(self@.ready(self@.queue[0]));
            }
        }
        r
    }

    /// A message was acked. An unreliable channel has forgotten it already.
    pub fn message_ack_received(&mut self, handle: &MessageHandle) -> (r: Vec<PooledBuffer>)
        requires
            old(self).wf(),
        ensures
            final(self).wf(),
            final(self)@ == old(self)@.acked(*handle),
            r@.map_values(|b: PooledBuffer| b@) == old(self)@.dismissed(*handle),
    {
        let r: Vec<PooledBuffer> = Vec::new();
        assert(r@.map_values(|b: PooledBuffer| b@) =~= Seq::empty());
        r
    }

    /// Takes a message that takes up no more than `max_size`, to be coalesced into an outbound
    /// packet.
    pub fn get_message_to_write_to_a_packet(&mut self, max_size: usize) -> (r: Option<Message>)
        requires
            old(self).wf(),
        ensures
            final(self).wf(),
            match r {
                Some(m) => {
                    &&& old(self)@.first_fit(max_size as nat, 0) matches Some(i)
                    &&& 0 <= i < old(self)@.queue.len()
                    &&& m@ == old(self)@.queue[i].message
                    &&& final(self)@ == old(self)@.sent(i)
                },
                None => {
                    &&& old(self)@.first_fit(max_size as nat, 0) is None
                    &&& final(self)@ == old(self)@
                },
            },
    {
        let mut index: usize = 0;
        let len = self.q.len();
        while index < len
            invariant
                *self == *old(self),
                self.wf(),
                len == self.q@.len(),
                index <= len,
                self@.first_fit(max_size as nat, 0) == self@.first_fit(
                    max_size as nat,
                    index as int,
                ),
            decreases len - index,
        {
            proof {
                self.lemma_wf();
            }
            if self.q[index].size() <= max_size {
                let r = self.q.remove(index);
                proof {
                    old(self)@.lemma_first_fit(max_size as nat, 0);
                    assert(self@ =~= old(self)@.sent(index as int));
                    assert forall|i: int| 0 <= i < self@.queue.len() implies (
                    #[trigger] self@.queue[i]).message.wf() && self@.queue[i].message.bytes.len()
                        > 0 by {
                        assert(self@.queue[i] == old(self)@.queue[if i < index {
                            i
                        } else {
                            i + 1
                        }]);
                    }
                }
                return r;
            }
            index = index + 1;
        }
        None
    }
}

/// A message that may have to be sent more than once.
struct ResendableMessage {
    message: Message,
    last_sent: Option<Time>,
}

impl ResendableMessage {
    spec fn queued(self) -> Queued {
        Queued { message: self.message@, last_sent: self.last_sent }
    }

    fn new(message: Message) -> (r: Self)
        ensures
            r.queued() == (Queued { message: message@, last_sent: None }),
    {
        ResendableMessage { message, last_sent: None }
    }

    /// Whether the message was never sent, or as long ago as `cutoff`.
    fn is_ready(&self, now: Time, cutoff: Time) -> (r: bool)
        ensures
            r == (match self.last_sent {
                None => true,
                Some(t) => now - t >= cutoff,
            }),
    {
        match self.last_sent {
            None => true,
            Some(t) => time::elapsed(now, t) >= cutoff as i128,
        }
    }

    /// Whether an ack of `acked_handle` says that the message has arrived.
    fn dismissed_by_ack(&self, acked_handle: &MessageHandle) -> (r: bool)
        ensures
            r == self.queued().dismissed_by(*acked_handle),
    {
        if self.message.id() != acked_handle.id() {
            return false;
        }
        match self.message.fragment() {
            Some(fragment) => match acked_handle.parent_id() {
                Some(parent_id) => fragment.parent_id == parent_id,
                None => false,
            },
            None => acked_handle.frag_index.is_none(),
        }
    }
}

/// A channel that sends each message again and again until it is acked.
pub struct ReliableChannel {
    time: Time,
    id: u8,
    q: Vec<ResendableMessage>,
    resend_time: Time,
    seen_buf: SequenceBuffer<bool>,
    heard: bool,
}

impl View for ReliableChannel {
    type V = ChannelView;

    closed spec fn view(&self) -> ChannelView {
        ChannelView {
            id: self.id,
            reliable: true,
            time: self.time,
            queue: self.q@.map_values(|m: ResendableMessage| m.queued()),
            seen: self.seen_buf@,
            heard: self.heard,
        }
    }
}

impl ReliableChannel {
    /// All messages can be sent, and the buffer of seen messages is whole.
    pub closed spec fn wf(&self) -> bool {
        self@.wf() && self.seen_buf.wf() && self.resend_time == RESEND_TIME
    }

    proof fn lemma_wf(&self)
        requires
            self.wf(),
        ensures
            self.id < MAX_CHANNELS,
            self.seen_buf@.modulus() != 0,
            forall|i: int| 0 <= i < self.q@.len() ==> (#[trigger] self.q@[i]).message@.wf(),
    {
        assert forall|i: int| 0 <= i < self.q@.len() implies (
        #[trigger] self.q@[i]).message@.wf() by {
            assert(self@.queue[i].message == self.q@[i].message@);
        }
    }

    /// A channel without messages.
    pub fn new(id: u8, time: Time) -> (r: Self)
        requires
            id < MAX_CHANNELS,
        ensures
            r.wf(),
            r@ == ChannelView::fresh(id, true, time),
    {
        let r = ReliableChannel {
            time,
            id,
            q: Vec::new(),
            resend_time: RESEND_TIME,
            seen_buf: SequenceBuffer::with_capacity(SEEN_SIZE),
            heard: false,
        };
        assert(r@ =~= ChannelView::fresh(id, true, time));
        r
    }

    /// The id of the channel.
    pub fn id(&self) -> (r: u8)
        ensures
            r == self@.id,
    {
        self.id
    }

    /// Moves the clock of the channel on, so that it knows when to send again.
    pub fn update(&mut self, dt: Time)
        requires
            old(self).wf(),
        ensures
            final(self).wf(),
            final(self)@ == old(self)@.updated(dt),
    {
        self.time = time::advance(self.time, dt);
    }

    /// Whether the message is wanted. It is not, once it was.
    pub fn accepts_message(&mut self, msg: &Message) -> (r: bool)
        requires
            old(self).wf(),
        ensures
            final(self).wf(),
            r == old(self)@.accepts(msg@.id),
            final(self)@ == old(self)@.received(msg@.id),
    {
        proof {
            self.lemma_wf();
        }
        let r = accept(&mut self.seen_buf, self.heard, msg.id());
        self.heard = self.heard || r;
        assert(self@ =~= old(self)@.received(msg@.id));
        r
    }

    /// Enqueues a message to be sent in an outbound packet.
    pub fn enqueue_message(
        &mut self,
        pool: &mut BufPool,
        id: MessageId,
        payload: &[u8],
        fragmented: Fragmented,
    )
        requires
            old(self).wf(),
            buffer_pool::usable(old(pool)@),
            message::sendable(payload@.len(), fragmented.fragment()),
        ensures
            final(self).wf(),
            final(pool)@.len() == old(pool)@.len(),
            buffer_pool::usable(final(pool)@),
            final(pool)@ == buffer_pool::after_get(
                old(pool)@,
                message::outbound(
                    id,
                    old(self)@.id,
                    payload@,
                    fragmented.fragment(),
                ).bytes.len(),
            ),
            final(self)@ == old(self)@.enqueued(
                message::outbound(id, old(self)@.id, payload@, fragmented.fragment()),
            ),
    {
        proof {
            self.lemma_wf();
        }
        proof {
            message::lemma_outbound_len(id, self.id, payload@, fragmented.fragment());
        }
        let msg = Message::new_outbound(pool, id, self.id, payload, fragmented);
        self.q.push(ResendableMessage::new(msg));
        assert(self@ =~= old(self)@.enqueued(
            message::outbound(id, old(self)@.id, payload@, fragmented.fragment()),
        ));
    }

    /// Whether any messages are ready to be sent in the next packet.
    pub fn any_ready_to_send(&self) -> (r: bool)
        requires
            self.wf(),
        ensures
            r == self@.any_ready(),
    {
        let mut i: usize = 0;
        while i < self.q.len()
            invariant
                self.wf(),
                i <= self.q@.len(),
                forall|j: int| 0 <= j < i ==> !self@.ready(#[trigger] self@.queue[j]),
            decreases self.q@.len() - i,
        {
            if self.q[i].is_ready(self.time, self.resend_time) {
                assert(self@.ready(self@.queue[i as int]));
                return true;
            }
            i = i + 1;
        }
        false
    }

    /// A message was acked: it is not sent again. Gives back the buffers that are no longer needed.
    pub fn message_ack_received(&mut self, msg_handle: &MessageHandle) -> (r: Vec<PooledBuffer>)
        requires
            old(self).wf(),
        ensures
            final(self).wf(),
            final(self)@ == old(self)@.acked(*msg_handle),
            r@.map_values(|b: PooledBuffer| b@) == old(self)@.dismissed(*msg_handle),
    {
        let mut dismissed: Vec<PooledBuffer> = Vec::new();
        let ghost queue = self@.queue;
        let ghost keep = |q: Queued| !q.dismissed_by(*msg_handle);
        let ghost drop = |q: Queued| q.dismissed_by(*msg_handle);
        let ghost bytes = |q: Queued| q.message.bytes;
        let ghost buffer_bytes = |b: PooledBuffer| b@;
        let ghost mut n: int = 0;
        let mut i: usize = 0;
        proof {
            reveal(Seq::filter);
            assert(queue.take(0).filter(keep) =~= Seq::empty());
            assert(queue.take(0).filter(drop) =~= Seq::empty());
            assert(dismissed@.map_values(buffer_bytes) =~= queue.take(0).filter(drop).map_values(
                bytes,
            ));
        }
        while i < self.q.len()
            invariant
                0 <= n <= queue.len(),
                i <= self.q@.len(),
                self.q@.len() - i == queue.len() - n,
                keep == (|q: Queued| !q.dismissed_by(*msg_handle)),
                drop == (|q: Queued| q.dismissed_by(*msg_handle)),
                bytes == (|q: Queued| q.message.bytes),
                buffer_bytes == (|b: PooledBuffer| b@),
                dismissed@.map_values(buffer_bytes) =~= queue.take(n).filter(drop).map_values(
                    bytes,
                ),
                self@.queue.take(i as int) =~= queue.take(n).filter(keep),
                self@.queue.skip(i as int) =~= queue.skip(n),
                self@ =~= (ChannelView { queue: self@.queue, ..old(self)@ }),
                self@.queue.len() == self.q@.len(),
                self.seen_buf == old(self).seen_buf,
                self.heard == old(self).heard,
                self.resend_time == old(self).resend_time,
                queue == old(self)@.queue,
            decreases self.q@.len() - i,
        {
            let ghost before = self@.queue;
            assert(before.skip(i as int)[0] == queue.skip(n)[0]);
            proof {
                lemma_filter_push(queue.take(n), queue[n], keep);
                lemma_filter_push(queue.take(n), queue[n], drop);
                assert(queue.take(n).push(queue[n]) =~= queue.take(n + 1));
            }
            if self.q[i].dismissed_by_ack(msg_handle) {
                let m = self.q.remove(i);
                assert(self@.queue =~= before.remove(i as int));
                assert(self@.queue.take(i as int) =~= before.take(i as int));
                assert(self@.queue.skip(i as int) =~= before.skip(i as int).skip(1));
                dismissed.push(m.message.into_buffer());
                assert(queue.take(n).filter(drop).push(queue[n]).map_values(bytes)
                    =~= queue.take(n).filter(drop).map_values(bytes).push(bytes(queue[n])));
            } else {
                i = i + 1;
                assert(self@.queue.take(i as int) =~= before.take(i - 1).push(before[i - 1]));
                assert(self@.queue.skip(i as int) =~= before.skip(i - 1).skip(1));
            }
            assert(queue.skip(n).skip(1) =~= queue.skip(n + 1));
            proof {
                n = n + 1;
            }
        }
        proof {
            assert(queue.take(n) =~= queue);
            assert(self@.queue.take(i as int) =~= self@.queue);
            assert(self@ =~= old(self)@.acked(*msg_handle));
            broadcast use vstd::seq_lib::group_filter_ensures;

            assert forall|j: int| 0 <= j < self@.queue.len() implies (
            #[trigger] self@.queue[j]).message.wf() && self@.queue[j].message.bytes.len() > 0 by {
                lemma_filter_from(queue, keep, j);
            }
        }
        dismissed
    }

    /// Takes a message that takes up no more than `max_size`, to be coalesced into an outbound
    /// packet. It stays in the queue until it is acked, with the time of sending noted.
    pub fn get_message_to_write_to_a_packet(&mut self, max_size: usize) -> (r: Option<Message>)
        requires
            old(self).wf(),
        ensures
            final(self).wf(),
            match r {
                Some(m) => {
                    &&& old(self)@.first_fit(max_size as nat, 0) matches Some(i)
                    &&& 0 <= i < old(self)@.queue.len()
                    &&& m@ == old(self)@.queue[i].message
                    &&& final(self)@ == old(self)@.sent(i)
                },
                None => {
                    &&& old(self)@.first_fit(max_size as nat, 0) is None
                    &&& final(self)@ == old(self)@
                },
            },
    {
        let mut index: usize = 0;
        let len = self.q.len();
        while index < len
            invariant
                *self == *old(self),
                self.wf(),
                len == self.q@.len(),
                index <= len,
                self@.first_fit(max_size as nat, 0) == self@.first_fit(
                    max_size as nat,
                    index as int,
                ),
            decreases len - index,
        {
            proof {
                self.lemma_wf();
            }
            if self.q[index].message.size() <= max_size && self.q[index].is_ready(
                self.time,
                self.resend_time,
            ) {
                let time = self.time;
                self.q[index].last_sent = Some(time);
                let r = self.q[index].message.clone();
                proof {
                    old(self)@.lemma_first_fit(max_size as nat, 0);
                    assert(self@ =~= old(self)@.sent(index as int));
                    assert forall|i: int| 0 <= i < self@.queue.len() implies (
                    #[trigger] self@.queue[i]).message.wf() && self@.queue[i].message.bytes.len()
                        > 0 by {
                        assert(self@.queue[i].message == old(self)@.queue[i].message);
                    }
                }
                return Some(r);
            }
            index = index + 1;
        }
        None
    }
}

/// What is left by a filter was there before.
proof fn lemma_filter_from<A>(s: Seq<A>, p: spec_fn(A) -> bool, j: int)
    requires
        0 <= j < s.filter(p).len(),
    ensures
        exists|i: int| 0 <= i < s.len() && #[trigger] s[i] == s.filter(p)[j],
    decreases s.len(),
{
    reveal(Seq::filter);
    if s.len() > 0 {
        let f = s.drop_last().filter(p);
        if j < f.len() {
            lemma_filter_from(s.drop_last(), p, j);
            let i = choose|i: int|
                0 <= i < s.drop_last().len() && #[trigger] s.drop_last()[i] == f[j];
            assert(s[i] == s.filter(p)[j]);
        } else {
            assert(s[s.len() - 1] == s.filter(p)[j]);
        }
    }
}

/// A channel of either kind.
pub enum Channel {
    UnreliableChannel(UnreliableChannel),
    ReliableChannel(ReliableChannel),
}

impl View for Channel {
    type V = ChannelView;

    open spec fn view(&self) -> ChannelView {
        match self {
            Channel::UnreliableChannel(c) => c@,
            Channel::ReliableChannel(c) => c@,
        }
    }
}

impl Channel {
    /// The channel is whole.
    pub open spec fn wf(&self) -> bool {
        match self {
            Channel::UnreliableChannel(c) => c.wf(),
            Channel::ReliableChannel(c) => c.wf(),
        }
    }

    /// A whole channel has sendable messages, an id that can be sent, and a memory of its own.
    pub proof fn lemma_wf(&self)
        requires
            self.wf(),
        ensures
            self@.wf(),
    {
    }

    /// The id of the channel.
    pub fn id(&self) -> (r: u8)
        ensures
            r == self@.id,
    {
        match self {
            Channel::UnreliableChannel(c) => c.id(),
            Channel::ReliableChannel(c) => c.id(),
        }
    }

    /// Moves the clock of the channel on.
    pub fn update(&mut self, dt: Time)
        requires
            old(self).wf(),
        ensures
            final(self).wf(),
            final(self)@ == old(self)@.updated(dt),
    {
        match self {
            Channel::UnreliableChannel(c) => c.update(dt),
            Channel::ReliableChannel(c) => c.update(dt),
        }
    }

    /// Whether any messages are ready to be sent in the next packet.
    pub fn any_ready_to_send(&self) -> (r: bool)
        requires
            self.wf(),
        ensures
            r == self@.any_ready(),
    {
        match self {
            Channel::UnreliableChannel(c) => c.any_ready_to_send(),
            Channel::ReliableChannel(c) => c.any_ready_to_send(),
        }
    }

    /// Enqueues a message to be sent in an outbound packet.
    pub fn enqueue_message(
        &mut self,
        pool: &mut BufPool,
        id: MessageId,
        payload: &[u8],
        fragmented: Fragmented,
    )
        requires
            old(self).wf(),
            buffer_pool::usable(old(pool)@),
            message::sendable(payload@.len(), fragmented.fragment()),
        ensures
            final(self).wf(),
            final(pool)@.len() == old(pool)@.len(),
            buffer_pool::usable(final(pool)@),
            final(pool)@ == buffer_pool::after_get(
                old(pool)@,
                message::outbound(
                    id,
                    old(self)@.id,
                    payload@,
                    fragmented.fragment(),
                ).bytes.len(),
            ),
            final(self)@ == old(self)@.enqueued(
                message::outbound(id, old(self)@.id, payload@, fragmented.fragment()),
            ),
    {
        match self {
            Channel::UnreliableChannel(c) => c.enqueue_message(pool, id, payload, fragmented),
            Channel::ReliableChannel(c) => c.enqueue_message(pool, id, payload, fragmented),
        }
    }

    /// A message was acked. Gives back the buffers that are no longer needed.
    pub fn message_ack_received(&mut self, msg_handle: &MessageHandle) -> (r: Vec<PooledBuffer>)
        requires
            old(self).wf(),
        ensures
            final(self).wf(),
            final(self)@ == old(self)@.acked(*msg_handle),
            r@.map_values(|b: PooledBuffer| b@) == old(self)@.dismissed(*msg_handle),
    {
        match self {
            Channel::UnreliableChannel(c) => c.message_ack_received(msg_handle),
            Channel::ReliableChannel(c) => c.message_ack_received(msg_handle),
        }
    }

    /// Takes a message that takes up no more than `max_size`, to be coalesced into an outbound
    /// packet.
    pub fn get_message_to_write_to_a_packet(&mut self, max_size: usize) -> (r: Option<Message>)
        requires
            old(self).wf(),
        ensures
            final(self).wf(),
            match r {
                Some(m) => {
                    &&& old(self)@.first_fit(max_size as nat, 0) matches Some(i)
                    &&& 0 <= i < old(self)@.queue.len()
                    &&& m@ == old(self)@.queue[i].message
                    &&& final(self)@ == old(self)@.sent(i)
                },
                None => {
                    &&& old(self)@.first_fit(max_size as nat, 0) is None
                    &&& final(self)@ == old(self)@
                },
            },
    {
        match self {
            Channel::UnreliableChannel(c) => c.get_message_to_write_to_a_packet(max_size),
            Channel::ReliableChannel(c) => c.get_message_to_write_to_a_packet(max_size),
        }
    }

    /// Whether the message is wanted: false if it was received already, or is too old to tell.
    pub fn accepts_message(&mut self, msg: &Message) -> (r: bool)
        requires
            old(self).wf(),
        ensures
            final(self).wf(),
            r == old(self)@.accepts(msg@.id),
            final(self)@ == old(self)@.received(msg@.id),
    {
        match self {
            Channel::UnreliableChannel(c) => c.accepts_message(msg),
            Channel::ReliableChannel(c) => c.accepts_message(msg),
        }
    }
}

/// The lowest channel from number `from` on that has a message ready.
pub open spec fn first_ready(channels: Map<u8, ChannelView>, from: int) -> Option<u8>
    decreases MAX_CHANNELS - from,
{
    if from >= MAX_CHANNELS {
        None
    } else if channels.contains_key(from as u8) && channels[from as u8].any_ready() {
        Some(from as u8)
    } else {
        first_ready(channels, from + 1)
    }
}

/// The channels with their clocks moved on.
pub open spec fn all_updated(channels: Map<u8, ChannelView>, dt: Time) -> Map<u8, ChannelView> {
    channels.map_values(|c: ChannelView| c.updated(dt))
}

/// The lowest channel with a message ready is one, and no lower one is.
pub proof fn lemma_first_ready(channels: Map<u8, ChannelView>, from: int)
    requires
        0 <= from,
    ensures
        match first_ready(channels, from) {
            Some(id) => {
                &&& from <= id < MAX_CHANNELS
                &&& channels.contains_key(id)
                &&& channels[id].any_ready()
                &&& forall|k: u8|
                    from <= k < id && #[trigger] channels.contains_key(k)
                        ==> !channels[k].any_ready()
            },
            None => forall|k: u8|
                from <= k < MAX_CHANNELS && #[trigger] channels.contains_key(k)
                    ==> !channels[k].any_ready(),
        },
    decreases MAX_CHANNELS - from,
{
    if from < MAX_CHANNELS && !(channels.contains_key(from as u8)
        && channels[from as u8].any_ready()) {
        lemma_first_ready(channels, from + 1);
    }
}

/// The channels of an endpoint.
pub struct ChannelList {
    channels: SmallMap<Channel>,
}

impl View for ChannelList {
    type V = Map<u8, ChannelView>;

    closed spec fn view(&self) -> Map<u8, ChannelView> {
        self.channels@.map_values(|c: Channel| c@)
    }
}

impl ChannelList {
    /// Every channel is whole, and found under its id.
    pub closed spec fn wf(&self) -> bool {
        &&& self.channels.wf()
        &&& forall|k: u8| #[trigger]
            self.channels@.contains_key(k) ==> {
                &&& self.channels@[k].wf()
                &&& self.channels@[k]@.id == k
                &&& k < MAX_CHANNELS
            }
    }

    /// Every channel has sendable messages, and the id that it is found under.
    pub proof fn lemma_wf(&self)
        requires
            self.wf(),
        ensures
            forall|k: u8| #[trigger]
                self@.contains_key(k) ==> self@[k].wf() && self@[k].id == k && k < MAX_CHANNELS,
    {
        assert forall|k: u8| #[trigger] self@.contains_key(k) implies self@[k].wf() && self@[k].id
            == k && k < MAX_CHANNELS by {
            assert(self.channels@.contains_key(k));
            self.channels@[k].lemma_wf();
        }
    }

    /// No channels.
    pub fn new() -> (r: Self)
        ensures
            r.wf(),
            r@ == Map::<u8, ChannelView>::empty(),
    {
        let r = ChannelList { channels: SmallMap::new() };
        assert(r@ =~= Map::<u8, ChannelView>::empty());
        r
    }

    /// The channel with a given id.
    pub fn get(&self, id: u8) -> (r: Option<&Channel>)
        requires
            self.wf(),
        ensures
            match r {
                Some(c) => self@.contains_key(id) && c.wf() && c@ == self@[id],
                None => !self@.contains_key(id),
            },
    {
        self.channels.get(id)
    }

    /// The channel with a given id, to be changed in place. It must be left whole and under its id.
    pub fn get_mut(&mut self, id: u8) -> (r: Option<&mut Channel>)
        requires
            old(self).wf(),
        ensures
            match r {
                Some(c) => {
                    &&& old(self)@.contains_key(id)
                    &&& c.wf()
                    &&& c@ == old(self)@[id]
                    &&& c@.id == id
                    &&& final(self)@ == old(self)@.insert(id, final(c)@)
                    &&& final(c).wf() && final(c)@.id == id ==> final(self).wf()
                },
                None => {
                    &&& !old(self)@.contains_key(id)
                    &&& final(self)@ == old(self)@
                    &&& final(self).wf()
                },
            },
    {
        proof {
            assert forall|c: Channel|
                #![trigger old(self).channels@.insert(id, c)]
                old(self).channels@.insert(id, c).map_values(|c: Channel| c@) =~= old(
                    self,
                )@.insert(id, c@) by {}
        }
        self.channels.get_mut(id)
    }

    /// Adds a channel.
    pub fn insert(&mut self, channel: Channel)
        requires
            old(self).wf(),
            channel.wf(),
        ensures
            final(self).wf(),
            final(self)@ == old(self)@.insert(channel@.id, channel@),
    {
        proof {
            channel.lemma_wf();
        }
        self.channels.insert(channel.id(), channel);
        assert(self@ =~= old(self)@.insert(channel@.id, channel@));
    }

    /// Moves the clocks of all channels on.
    pub fn update(&mut self, dt: Time)
        requires
            old(self).wf(),
        ensures
            final(self).wf(),
            final(self)@ == all_updated(old(self)@, dt),
    {
        let mut id: u8 = 0;
        while id < MAX_CHANNELS as u8
            invariant
                self.wf(),
                id <= MAX_CHANNELS,
                self@.dom() =~= old(self)@.dom(),
                forall|k: u8| #[trigger]
                    self@.contains_key(k) ==> self@[k] == (if k < id {
                        old(self)@[k].updated(dt)
                    } else {
                        old(self)@[k]
                    }),
            decreases MAX_CHANNELS - id,
        {
            match self.get_mut(id) {
                Some(channel) => {
                    channel.update(dt);
                },
                None => {},
            }
            id = id + 1;
        }
        proof {
            self.lemma_wf();
        }
        assert(self@ =~= all_updated(old(self)@, dt));
    }

    /// The lowest channel that has a message ready.
    pub fn first_non_empty(&self) -> (r: Option<u8>)
        requires
            self.wf(),
        ensures
            r == first_ready(self@, 0),
    {
        let mut id: u8 = 0;
        while id < MAX_CHANNELS as u8
            invariant
                self.wf(),
                id <= MAX_CHANNELS,
                first_ready(self@, 0) == first_ready(self@, id as int),
            decreases MAX_CHANNELS - id,
        {
            if let Some(channel) = self.get(id) {
                if channel.any_ready_to_send() {
                    return Some(id);
                }
            }
            id = id + 1;
        }
        None
    }

    /// Whether any channel has a message ready.
    pub fn any_with_messages_to_send(&self) -> (r: bool)
        requires
            self.wf(),
        ensures
            r == first_ready(self@, 0) is Some,
    {
        self.first_non_empty().is_some()
    }
}

} // verus!
