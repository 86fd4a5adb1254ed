//! Messages as they are handed to the consumer.

use crate::buffer_pool::PooledBuffer;
use crate::protocol::message::{Message, MessageView};
use crate::{MessageId, MAX_FRAGMENTS};
use vstd::prelude::*;

verus! {

/// A message that was received.
#[verifier::ext_equal]
pub struct ReceivedView {
    pub id: MessageId,
    pub channel: u8,
    pub payload: Seq<u8>,
}

/// The payloads of the first `n` fragments, one after the other.
pub open spec fn joined(parts: Seq<Option<MessageView>>, n: int) -> Seq<u8>
    decreases n,
{
    if n <= 0 {
        Seq::empty()
    } else {
        joined(parts, n - 1) + parts[n - 1]->0.bytes
    }
}

/// What the fragments of a message amount to.
pub open spec fn assembled(parts: Seq<Option<MessageView>>) -> ReceivedView {
    ReceivedView {
        id: parts[0]->0.fragment->0.parent_id,
        channel: parts[0]->0.channel,
        payload: joined(parts, parts.len() as int),
    }
}

/// What a message that is not a fragment amounts to.
pub open spec fn single(m: MessageView) -> ReceivedView {
    ReceivedView { id: m.id, channel: m.channel, payload: m.bytes }
}

/// The fragments as they are seen from outside.
pub open spec fn part_views(parts: Seq<Option<Message>>) -> Seq<Option<MessageView>> {
    parts.map_values(
        |p: Option<Message>|
            match p {
                Some(m) => Some(m@),
                None => None::<MessageView>,
            },
    )
}

/// All the fragments of a message are there.
pub open spec fn complete(parts: Seq<Option<MessageView>>) -> bool {
    &&& 0 < parts.len() <= MAX_FRAGMENTS
    &&& forall|i: int|
        0 <= i < parts.len() ==> (#[trigger] parts[i] matches Some(m) && m.wf() && m.fragment
            is Some)
}

proof fn lemma_joined_len(parts: Seq<Option<MessageView>>, n: int)
    requires
        complete(parts),
        0 <= n <= parts.len(),
    ensures
        joined(parts, n).len() <= n * 0xFFFF,
    decreases n,
{
    if n > 0 {
        lemma_joined_len(parts, n - 1);
        assert(parts[n - 1] is Some);
    }
}

enum ReceivedMessageType {
    Single(Message),
    Fragmented(Vec<Option<Message>>),
}

/// Either a single unfragmented message, or all the fragments of a larger one.
pub struct ReceivedMessage {
    message_type: ReceivedMessageType,
}

impl View for ReceivedMessage {
    type V = ReceivedView;

    closed spec fn view(&self) -> ReceivedView {
        match self.message_type {
            ReceivedMessageType::Single(m) => single(m@),
            ReceivedMessageType::Fragmented(v) => assembled(part_views(v@)),
        }
    }
}

impl ReceivedMessage {
    /// A single message is whole, or all the fragments are there.
    pub closed spec fn wf(&self) -> bool {
        match self.message_type {
            ReceivedMessageType::Single(m) => m@.wf(),
            ReceivedMessageType::Fragmented(v) => complete(part_views(v@)),
        }
    }

    /// How many buffers the payload is spread over.
    pub closed spec fn num_parts(&self) -> nat {
        match self.message_type {
            ReceivedMessageType::Single(m) => 1,
            ReceivedMessageType::Fragmented(v) => v@.len(),
        }
    }

    /// The bytes in buffer number `i`.
    pub closed spec fn part_bytes(&self, i: int) -> Seq<u8> {
        match self.message_type {
            ReceivedMessageType::Single(m) => m@.bytes,
            ReceivedMessageType::Fragmented(v) => v@[i]->0@.bytes,
        }
    }

    /// The bytes of the first `n` buffers, one after the other.
    pub open spec fn joined_parts(&self, n: int) -> Seq<u8>
        decreases n,
    {
        if n <= 0 {
            Seq::empty()
        } else {
            self.joined_parts(n - 1) + self.part_bytes(n - 1)
        }
    }

    /// The bytes in each of the buffers.
    pub open spec fn parts(&self) -> Seq<Seq<u8>> {
        Seq::new(self.num_parts(), |i: int| self.part_bytes(i))
    }

    proof fn lemma_joined_parts(&self, n: int)
        requires
            self.wf(),
            0 <= n <= self.num_parts(),
        ensures
            match self.message_type {
                ReceivedMessageType::Single(m) => n == 1 ==> self.joined_parts(n) == m@.bytes,
                ReceivedMessageType::Fragmented(v) => self.joined_parts(n) == joined(
                    part_views(v@),
                    n,
                ),
            },
        decreases n,
    {
        if n > 0 {
            self.lemma_joined_parts(n - 1);
            match self.message_type {
                ReceivedMessageType::Single(m) => {
                    assert(self.joined_parts(0) =~= Seq::empty());
                    assert(self.joined_parts(1) =~= m@.bytes);
                },
                ReceivedMessageType::Fragmented(v) => {
                    assert(part_views(v@)[n - 1] is Some);
                },
            }
        }
    }

    /// The payload is what the buffers hold, one after the other.
    pub proof fn lemma_payload(&self)
        requires
            self.wf(),
        ensures
            self@.payload == self.joined_parts(self.num_parts() as int),
    {
        self.lemma_joined_parts(self.num_parts() as int);
    }

    /// Backed by a single message.
    pub fn new_single(message: Message) -> (r: Self)
        requires
            message@.wf(),
        ensures
            r.wf(),
            r@ == single(message@),
    {
        ReceivedMessage { message_type: ReceivedMessageType::Single(message) }
    }

    /// Backed by all the fragments of a message.
    pub fn new_fragmented(fragments: Vec<Option<Message>>) -> (r: Self)
        requires
            complete(part_views(fragments@)),
        ensures
            r.wf(),
            r@ == assembled(part_views(fragments@)),
    {
        ReceivedMessage { message_type: ReceivedMessageType::Fragmented(fragments) }
    }

    /// The id of the message. In the case of a fragmented message, this is the id of the first
    /// fragment.
    pub fn id(&self) -> (r: MessageId)
        requires
            self.wf(),
        ensures
            r == self@.id,
    {
        match &self.message_type {
            ReceivedMessageType::Single(message) => message.id(),
            ReceivedMessageType::Fragmented(v) => {
                assert(part_views(v@)[0] is Some);
                v[0].as_ref().unwrap().fragment().unwrap().parent_id
            },
        }
    }

    /// The channel that the message was sent on.
    pub fn channel(&self) -> (r: u8)
        requires
            self.wf(),
        ensures
            r == self@.channel,
    {
        match &self.message_type {
            ReceivedMessageType::Single(message) => message.channel(),
            ReceivedMessageType::Fragmented(v) => {
                assert(part_views(v@)[0] is Some);
                v[0].as_ref().unwrap().channel()
            },
        }
    }

    /// How many buffers the payload is spread over.
    pub fn part_count(&self) -> (r: usize)
        ensures
            r == self.num_parts(),
    {
        match &self.message_type {
            ReceivedMessageType::Single(_) => 1,
            ReceivedMessageType::Fragmented(v) => v.len(),
        }
    }

    /// The bytes in buffer number `i`. A reader over the payload chains these together.
    pub fn part(&self, i: usize) -> (r: &[u8])
        requires
            self.wf(),
            i < self.num_parts(),
        ensures
            r@ == self.part_bytes(i as int),
    {
        match &self.message_type {
            ReceivedMessageType::Single(message) => message.as_slice(),
            ReceivedMessageType::Fragmented(v) => {
                assert(part_views(v@)[i as int] is Some);
                v[i].as_ref().unwrap().as_slice()
            },
        }
    }

    /// Length of the payload.
    pub fn payload_len(&self) -> (r: usize)
        requires
            self.wf(),
        ensures
            r == self@.payload.len(),
    {
        match &self.message_type {
            ReceivedMessageType::Single(message) => message.buffer().len(),
            ReceivedMessageType::Fragmented(v) => {
                let mut len: usize = 0;
                let mut i: usize = 0;
                while i < v.len()
                    invariant
                        i <= v@.len(),
                        complete(part_views(v@)),
                        len == joined(part_views(v@), i as int).len(),
                    decreases v@.len() - i,
                {
                    proof {
                        lemma_joined_len(part_views(v@), i + 1);
                        assert(part_views(v@)[i as int] is Some);
                    }
                    len = len + v[i].as_ref().unwrap().buffer().len();
                    i = i + 1;
                }
                len
            },
        }
    }

    /// The payload in a vector of its own.
    pub fn payload_to_owned(&self) -> (r: Vec<u8>)
        requires
            self.wf(),
        ensures
            r@ == self@.payload,
    {
        let mut ret: Vec<u8> = Vec::with_capacity(self.payload_len());
        let count = self.part_count();
        let mut i: usize = 0;
        while i < count
            invariant
                self.wf(),
                i <= count,
                count == self.num_parts(),
                ret@ == self.joined_parts(i as int),
            decreases count - i,
        {
            ret.extend_from_slice(self.part(i));
            assert(ret@ =~= self.joined_parts(i + 1));
            i = i + 1;
        }
        proof {
            self.lemma_payload();
        }
        ret
    }

    /// The buffers that the payload is in, for return to the pool.
    pub fn into_buffers(self) -> (r: Vec<PooledBuffer>)
        requires
            self.wf(),
        ensures
            r@.map_values(|b: PooledBuffer| b@) == self.parts(),
    {
        let mut buffers: Vec<PooledBuffer> = Vec::new();
        match self.message_type {
            ReceivedMessageType::Single(message) => {
                buffers.push(message.into_buffer());
            },
            ReceivedMessageType::Fragmented(v) => {
                let ghost parts = v@;
                for part in it: v
                    invariant
                        it.seq() == parts,
                        complete(part_views(parts)),
                        buffers@.len() == it.index(),
                        forall|j: int|
                            0 <= j < buffers@.len() ==> (#[trigger] buffers@[j])@
                                == parts[j]->0@.bytes,
                {
                    assert(part_views(parts)[it.index() as int] is Some);
                    if let Some(message) = part {
                        buffers.push(message.into_buffer());
                    }
                }
            },
        }
        buffers
    }
}

} // verus!
