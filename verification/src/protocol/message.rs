//! Messages, which are coalesced and written together into packets.
//!
//! A message starts with a prefix byte:
//!
//! | bits       | description                             |
//! | ---------- | --------------------------------------- |
//! | `-------X` | X = 0 non-fragmented, X = 1 fragmented  |
//! | `------X-` | X = 0 small flag, X = 1 large flag      |
//! | `XXXXX---` | channel number                          |
//!
//! Two bytes of message id follow. A non-fragmented message then has the length of its payload,
//! in one byte (small) or two (large). A fragment has its index and the number of fragments, one
//! byte each (small) or two each (large), and, if it is the last one, two bytes with the length
//! of its payload; the payload of the others has 1024 bytes.
//!
//! Because message ids are issued sequentially, the id of the whole message is that of a fragment
//! less the fragment's index.

use crate::buffer_pool::{self, BufPool, PooledBuffer};
use crate::cursor::{self, Cursor, Parsed};
use crate::error::PicklebackError;
use crate::wire;
use crate::MessageId;
use vstd::prelude::*;

verus! {

/// The most payload that one message, or one fragment of a larger one, carries.
pub const FRAGMENT_SIZE: usize = 1024;

/// Whether lengths and fragment numbers take one byte or two.
#[derive(Debug, Clone, Copy, PartialEq, Eq, Structural)]
pub enum MessageSizeMode {
    Small,
    Large,
}

/// Which part of a larger message a fragment is.
#[derive(Debug, Clone, Copy, PartialEq, Eq, Structural)]
pub struct Fragment {
    /// Place among the fragments of the message.
    pub index: u16,
    /// How many fragments the message has.
    pub num_fragments: u16,
    /// Id of the message as a whole.
    pub parent_id: MessageId,
}

/// Whether a message is a fragment.
#[derive(Debug, Clone, Copy, PartialEq, Eq, Structural)]
pub enum Fragmented {
    No,
    Yes(Fragment),
}

impl Fragmented {
    /// The fragment, if it is one.
    pub open spec fn fragment(self) -> Option<Fragment> {
        match self {
            Fragmented::No => None,
            Fragmented::Yes(f) => Some(f),
        }
    }
}

impl Fragment {
    /// Whether this is the last fragment.
    pub open spec fn last(self) -> bool {
        self.index == self.num_fragments - 1
    }

    /// Index and number of fragments as they are written.
    pub open spec fn numbers(self, size_mode: MessageSizeMode) -> Seq<u8> {
        match size_mode {
            MessageSizeMode::Small => seq![
                (self.index % 256) as u8,
                (self.num_fragments % 256) as u8,
            ],
            MessageSizeMode::Large => wire::be_bytes(self.index as nat, 2) + wire::be_bytes(
                self.num_fragments as nat,
                2,
            ),
        }
    }

    /// The part of a message header that is about the fragment.
    pub open spec fn header(self, payload_len: u16, size_mode: MessageSizeMode) -> Seq<u8> {
        self.numbers(size_mode) + if self.last() {
            wire::be_bytes(payload_len as nat, 2)
        } else {
            Seq::empty()
        }
    }

    /// Whether this is the last fragment.
    pub fn is_last(&self) -> (r: bool)
        requires
            self.num_fragments > 0,
        ensures
            r == self.last(),
    {
        self.index == self.num_fragments - 1
    }

    /// How many bytes the part of a message header that is about the fragment takes.
    pub fn header_size(&self, size_mode: MessageSizeMode) -> (r: usize)
        requires
            self.num_fragments > 0,
        ensures
            forall|payload_len: u16| #[trigger] self.header(payload_len, size_mode).len() == r,
    {
        broadcast use wire::lemma_be_bytes_len;

        let numbers: usize = match size_mode {
            MessageSizeMode::Small => 2,
            MessageSizeMode::Large => 4,
        };
        if self.is_last() {
            numbers + 2
        } else {
            numbers
        }
    }

    /// Appends the part of a message header that is about the fragment. All fragments but the
    /// last must have a full payload.
    pub fn write_header(
        &self,
        writer: &mut Vec<u8>,
        payload_len: u16,
        size_mode: MessageSizeMode,
    ) -> (r: Result<(), PicklebackError>)
        requires
            self.num_fragments > 0,
            self.last() ==> payload_len <= FRAGMENT_SIZE,
        ensures
            final(writer)@ == old(writer)@ + self.header(payload_len, size_mode),
            match r {
                Ok(_) => self.last() || payload_len == FRAGMENT_SIZE,
                Err(e) => {
                    &&& !self.last()
                    &&& payload_len != FRAGMENT_SIZE
                    &&& e == PicklebackError::InvalidMessage
                },
            },
    {
        match size_mode {
            MessageSizeMode::Small => {
                writer.push((self.index % 256) as u8);
                writer.push((self.num_fragments % 256) as u8);
            },
            MessageSizeMode::Large => {
                wire::push_u16(writer, self.index);
                wire::push_u16(writer, self.num_fragments);
            },
        }
        assert(writer@ =~= old(writer)@ + self.numbers(size_mode));
        if self.is_last() {
            wire::push_u16(writer, payload_len);
            assert(writer@ =~= old(writer)@ + self.header(payload_len, size_mode));
        } else if payload_len != 1024 {
            assert(writer@ =~= old(writer)@ + self.header(payload_len, size_mode));
            return Err(PicklebackError::InvalidMessage);
        }
        assert(writer@ =~= old(writer)@ + self.header(payload_len, size_mode));
        Ok(())
    }

    /// Reads the part of a message header that is about the fragment. Also gives the length of
    /// the payload.
    pub fn parse_header(
        reader: &mut Cursor,
        size_mode: MessageSizeMode,
        id: MessageId,
    ) -> (r: Result<(Self, u16), PicklebackError>)
        requires
            old(reader).wf(),
        ensures
            final(reader).wf(),
            final(reader).all() == old(reader).all(),
            match r {
                Ok(v) => {
                    &&& parse_fragment(old(reader).rest(), size_mode, id) == Ok::<
                        _,
                        PicklebackError,
                    >((v, final(reader).rest()))
                    &&& v.0.num_fragments > 0
                },
                Err(e) => parse_fragment(old(reader).rest(), size_mode, id) == Err::<
                    ((Fragment, u16), Seq<u8>),
                    _,
                >(e),
            },
    {
        let index: u16;
        let num_fragments: u16;
        match size_mode {
            MessageSizeMode::Small => {
                proof {
                    cursor::lemma_parse_uint_u8(reader.rest());
                }
                index = reader.read_u8()? as u16;
                proof {
                    cursor::lemma_parse_uint_u8(reader.rest());
                }
                num_fragments = reader.read_u8()? as u16;
            },
            MessageSizeMode::Large => {
                index = reader.read_u16()?;
                num_fragments = reader.read_u16()?;
            },
        }
        if num_fragments == 0 {
            return Err(PicklebackError::InvalidMessage);
        }
        let payload_size: u16 = if index == num_fragments - 1 {
            reader.read_u16()?
        } else {
            1024
        };
        let parent_id = MessageId(id.0.wrapping_sub(index));
        Ok((Fragment { index, num_fragments, parent_id }, payload_size))
    }
}

/// Index and number of fragments at the start of `s`.
pub open spec fn parse_numbers(s: Seq<u8>, size_mode: MessageSizeMode) -> Parsed<(nat, nat)> {
    let width: nat = match size_mode {
        MessageSizeMode::Small => 1,
        MessageSizeMode::Large => 2,
    };
    match cursor::parse_uint(s, width) {
        Err(e) => Err(e),
        Ok((index, s)) => match cursor::parse_uint(s, width) {
            Err(e) => Err(e),
            Ok((num_fragments, s)) => Ok(((index, num_fragments), s)),
        },
    }
}

/// The part of a message header about a fragment, and the length of the payload, at the start of
/// `s`.
pub open spec fn parse_fragment(s: Seq<u8>, size_mode: MessageSizeMode, id: MessageId) -> Parsed<
    (Fragment, u16),
> {
    match parse_numbers(s, size_mode) {
        Err(e) => Err(e),
        Ok(((index, num_fragments), s)) => {
            let fragment = Fragment {
                index: index as u16,
                num_fragments: num_fragments as u16,
                parent_id: MessageId(id.0.wrapping_sub(index as u16)),
            };
            if num_fragments == 0 {
                Err(PicklebackError::InvalidMessage)
            } else if fragment.last() {
                match cursor::parse_uint(s, 2) {
                    Err(e) => Err(e),
                    Ok((len, s)) => Ok(((fragment, len as u16), s)),
                }
            } else {
                Ok(((fragment, FRAGMENT_SIZE as u16), s))
            }
        },
    }
}

/// What a message holds. The bytes of one to be sent are its header and payload; those of one
/// that was received are its payload alone.
#[verifier::ext_equal]
pub struct MessageView {
    pub id: MessageId,
    pub size_mode: MessageSizeMode,
    pub channel: u8,
    pub bytes: Seq<u8>,
    pub fragment: Option<Fragment>,
}

/// The size mode that a payload of `payload_len` is sent with.
pub open spec fn size_mode_for(payload_len: nat, fragment: Option<Fragment>) -> MessageSizeMode {
    if payload_len > 255 {
        MessageSizeMode::Large
    } else {
        match fragment {
            Some(f) => if f.num_fragments > 255 {
                MessageSizeMode::Large
            } else {
                MessageSizeMode::Small
            },
            None => MessageSizeMode::Small,
        }
    }
}

/// The prefix byte of a message.
pub open spec fn prefix_byte(fragmented: bool, size_mode: MessageSizeMode, channel: u8) -> u8 {
    ((if fragmented {
        1int
    } else {
        0
    }) + (match size_mode {
        MessageSizeMode::Small => 0int,
        MessageSizeMode::Large => 2,
    }) + 8 * (channel % 32)) as u8
}

/// The header of a message.
pub open spec fn message_header(
    id: MessageId,
    fragment: Option<Fragment>,
    size_mode: MessageSizeMode,
    channel: u8,
    payload_len: u16,
) -> Seq<u8> {
    seq![prefix_byte(fragment is Some, size_mode, channel)] + wire::be_bytes(id.0 as nat, 2) + (
    match fragment {
        Some(f) => f.header(payload_len, size_mode),
        None => match size_mode {
            MessageSizeMode::Small => seq![(payload_len % 256) as u8],
            MessageSizeMode::Large => wire::be_bytes(payload_len as nat, 2),
        },
    })
}

/// A message to be sent.
pub open spec fn outbound(
    id: MessageId,
    channel: u8,
    payload: Seq<u8>,
    fragment: Option<Fragment>,
) -> MessageView {
    let size_mode = size_mode_for(payload.len(), fragment);
    MessageView {
        id,
        size_mode,
        channel,
        bytes: message_header(id, fragment, size_mode, channel, payload.len() as u16) + payload,
        fragment,
    }
}

/// Whether a payload can be sent as one message, or as that fragment of a larger one.
pub open spec fn sendable(payload_len: nat, fragment: Option<Fragment>) -> bool {
    &&& payload_len <= FRAGMENT_SIZE
    &&& fragment matches Some(f) ==> {
        &&& f.num_fragments > 0
        &&& f.last() || payload_len == FRAGMENT_SIZE
    }
}

/// What the header of a message says of its payload.
pub open spec fn parse_description(
    s: Seq<u8>,
    fragmented: bool,
    size_mode: MessageSizeMode,
    id: MessageId,
) -> Parsed<(Option<Fragment>, u16)> {
    if fragmented {
        match parse_fragment(s, size_mode, id) {
            Err(e) => Err(e),
            Ok(((fragment, len), s)) => Ok(((Some(fragment), len), s)),
        }
    } else {
        match cursor::parse_uint(
            s,
            match size_mode {
                MessageSizeMode::Small => 1,
                MessageSizeMode::Large => 2,
            },
        ) {
            Err(e) => Err(e),
            Ok((len, s)) => Ok(((None, len as u16), s)),
        }
    }
}

/// The message at the start of `s`.
pub open spec fn parse_message(s: Seq<u8>) -> Parsed<MessageView> {
    match cursor::parse_u8(s) {
        Err(e) => Err(e),
        Ok((prefix, s)) => match cursor::parse_uint(s, 2) {
            Err(e) => Err(e),
            Ok((id, s)) => {
                let id = MessageId(id as u16);
                let size_mode = if prefix / 2 % 2 == 1 {
                    MessageSizeMode::Large
                } else {
                    MessageSizeMode::Small
                };
                match parse_description(s, prefix % 2 == 1, size_mode, id) {
                    Err(e) => Err(e),
                    Ok(((fragment, len), s)) => if s.len() < len {
                        Err(PicklebackError::InvalidMessage)
                    } else {
                        Ok(
                            (
                                MessageView {
                                    id,
                                    size_mode,
                                    channel: prefix / 8,
                                    bytes: s.take(len as int),
                                    fragment,
                                },
                                s.skip(len as int),
                            ),
                        )
                    },
                }
            },
        },
    }
}

/// A message is written into packets together with others. It can be a fragment of a larger one.
#[derive(Debug)]
pub struct Message {
    id: MessageId,
    size_mode: MessageSizeMode,
    channel: u8,
    buffer: PooledBuffer,
    fragment: Option<Fragment>,
}

impl View for Message {
    type V = MessageView;

    closed spec fn view(&self) -> MessageView {
        MessageView {
            id: self.id,
            size_mode: self.size_mode,
            channel: self.channel,
            bytes: self.buffer@,
            fragment: self.fragment,
        }
    }
}

impl MessageView {
    /// A fragment is one of a positive number of them, and the bytes are no more than a message
    /// can say.
    pub open spec fn wf(self) -> bool {
        &&& self.fragment matches Some(f) ==> f.num_fragments > 0
        &&& self.bytes.len() <= 0xFFFF
    }

    /// How much of a packet is set aside for the message.
    pub open spec fn size(self) -> int {
        let header: int = match (self.fragment, self.size_mode) {
            (None, MessageSizeMode::Small) => 1,
            (None, MessageSizeMode::Large) => 2,
            (Some(f), MessageSizeMode::Small) => 3 + if f.last() {
                2int
            } else {
                0
            },
            (Some(f), MessageSizeMode::Large) => 5 + if f.last() {
                2int
            } else {
                0
            },
        };
        self.bytes.len() + 1 + header + 2
    }
}

impl Clone for Message {
    fn clone(&self) -> (r: Self)
        ensures
            r@ == self@,
    {
        Message {
            id: self.id,
            size_mode: self.size_mode,
            channel: self.channel,
            buffer: self.buffer.clone(),
            fragment: self.fragment,
        }
    }
}

impl Message {
    /// Creates a new message: takes a buffer from the pool, and writes header and payload to it
    /// immediately.
    pub fn new_outbound(
        pool: &mut BufPool,
        id: MessageId,
        channel: u8,
        payload: &[u8],
        fragmented: Fragmented,
    ) -> (r: Self)
        requires
            buffer_pool::usable(old(pool)@),
            channel < 64,
            sendable(payload@.len(), fragmented.fragment()),
        ensures
            r@ == outbound(id, channel, payload@, fragmented.fragment()),
            r@.wf(),
            final(pool)@ == buffer_pool::after_get(old(pool)@, r@.bytes.len()),
            final(pool)@.len() == old(pool)@.len(),
            buffer_pool::usable(final(pool)@),
    {
        let fragment = match fragmented {
            Fragmented::No => None,
            Fragmented::Yes(f) => Some(f),
        };
        let large = payload.len() > 255 || (match &fragment {
            Some(f) => f.num_fragments > 255,
            None => false,
        });
        let size_mode = if large {
            MessageSizeMode::Large
        } else {
            MessageSizeMode::Small
        };
        let header_size = Self::header_size(&fragmented, size_mode);
        let mut buf = pool.get_buffer(header_size + payload.len());
        let _ = Self::write_headers(
            &mut buf.v,
            id,
            &fragment,
            size_mode,
            channel,
            payload.len(),
        );
        buf.v.extend_from_slice(payload);
        let r = Message { id, size_mode, channel, buffer: buf, fragment };
        assert(r@ =~= outbound(id, channel, payload@, fragmented.fragment()));
        r
    }

    /// How many bytes the header of a message takes.
    pub fn header_size(fragmented: &Fragmented, size_mode: MessageSizeMode) -> (r: usize)
        requires
            fragmented.fragment() matches Some(f) ==> f.num_fragments > 0,
        ensures
            forall|id: MessageId, channel: u8, payload_len: u16| #[trigger]
                message_header(id, fragmented.fragment(), size_mode, channel, payload_len).len()
                    == r,
            r <= 9,
    {
        broadcast use wire::lemma_be_bytes_len;

        let description: usize = match fragmented {
            Fragmented::Yes(frag) => {
                let n = frag.header_size(size_mode);
                assert(frag.header(0, size_mode).len() == n);
                n
            },
            Fragmented::No => match size_mode {
                MessageSizeMode::Large => 2,
                MessageSizeMode::Small => 1,
            },
        };
        1 + description + 2
    }

    /// The fragment, if the message is one.
    pub fn fragment(&self) -> (r: Option<&Fragment>)
        ensures
            match r {
                Some(f) => self@.fragment == Some(*f),
                None => self@.fragment is None,
            },
    {
        self.fragment.as_ref()
    }

    /// The id of the message.
    pub fn id(&self) -> (r: MessageId)
        ensures
            r == self@.id,
    {
        self.id
    }

    /// The channel that the message is sent on.
    pub fn channel(&self) -> (r: u8)
        ensures
            r == self@.channel,
    {
        self.channel
    }

    /// The bytes.
    pub fn as_slice(&self) -> (r: &[u8])
        ensures
            r@ == self@.bytes,
    {
        self.buffer.as_slice()
    }

    /// The vector with the bytes.
    pub fn buffer(&self) -> (r: &Vec<u8>)
        ensures
            r@ == self@.bytes,
    {
        &self.buffer.v
    }

    /// The buffer with the bytes, for return to the pool.
    pub fn into_buffer(self) -> (r: PooledBuffer)
        ensures
            r@ == self@.bytes,
    {
        self.buffer
    }

    /// How much of a packet is set aside for the message.
    pub fn size(&self) -> (r: usize)
        requires
            self@.wf(),
        ensures
            r == self@.size(),
    {
        let header: usize = match &self.fragment {
            None => match self.size_mode {
                MessageSizeMode::Small => 1,
                MessageSizeMode::Large => 2,
            },
            Some(f) => {
                let last: usize = if f.is_last() {
                    2
                } else {
                    0
                };
                match self.size_mode {
                    MessageSizeMode::Small => 3 + last,
                    MessageSizeMode::Large => 5 + last,
                }
            },
        };
        self.buffer.len() + 1 + header + 2
    }

    /// Appends the header of a message.
    pub fn write_headers(
        writer: &mut Vec<u8>,
        id: MessageId,
        fragment: &Option<Fragment>,
        size_mode: MessageSizeMode,
        channel: u8,
        payload_len: usize,
    ) -> (r: Result<(), PicklebackError>)
        requires
            payload_len <= FRAGMENT_SIZE,
            *fragment matches Some(f) ==> f.num_fragments > 0,
        ensures
            final(writer)@ == old(writer)@ + message_header(
                id,
                *fragment,
                size_mode,
                channel,
                payload_len as u16,
            ),
            match r {
                Ok(_) => sendable(payload_len as nat, *fragment),
                Err(e) => !sendable(payload_len as nat, *fragment) && e
                    == PicklebackError::InvalidMessage,
            },
    {
        let frag_bit: u8 = if fragment.is_some() {
            1
        } else {
            0
        };
        let size_bit: u8 = match size_mode {
            MessageSizeMode::Large => 2,
            MessageSizeMode::Small => 0,
        };
        writer.push(frag_bit + size_bit + 8 * (channel % 32));
        wire::push_u16(writer, id.0);
        let payload_len = payload_len as u16;
        match fragment {
            Some(f) => {
                f.write_header(writer, payload_len, size_mode)?;
            },
            None => match size_mode {
                MessageSizeMode::Small => {
                    writer.push((payload_len % 256) as u8);
                },
                MessageSizeMode::Large => {
                    wire::push_u16(writer, payload_len);
                },
            },
        }
        Ok(())
    }

    /// Reads the message at the cursor. The payload is copied to a buffer from the pool.
    pub fn parse(pool: &mut BufPool, reader: &mut Cursor) -> (r: Result<Self, PicklebackError>)
        requires
            buffer_pool::usable(old(pool)@),
            old(reader).wf(),
        ensures
            final(reader).wf(),
            final(reader).all() == old(reader).all(),
            final(pool)@.len() == old(pool)@.len(),
            buffer_pool::usable(final(pool)@),
            match r {
                Ok(m) => {
                    &&& parse_message(old(reader).rest()) == Ok::<_, PicklebackError>(
                        (m@, final(reader).rest()),
                    )
                    &&& m@.wf()
                    &&& final(pool)@ == buffer_pool::after_get(old(pool)@, m@.bytes.len())
                },
                Err(e) => parse_message(old(reader).rest()) == Err::<(MessageView, Seq<u8>), _>(e),
            },
    {
        let prefix = reader.read_u8()?;
        let fragmented = prefix % 2 == 1;
        let size_mode = if prefix / 2 % 2 == 1 {
            MessageSizeMode::Large
        } else {
            MessageSizeMode::Small
        };
        let id = MessageId(reader.read_u16()?);
        let channel = prefix / 8;
        let fragment: Option<Fragment>;
        let payload_size: u16;
        if !fragmented {
            payload_size = match size_mode {
                MessageSizeMode::Small => {
                    proof {
                        cursor::lemma_parse_uint_u8(reader.rest());
                    }
                    reader.read_u8()? as u16
                },
                MessageSizeMode::Large => reader.read_u16()?,
            };
            fragment = None;
        } else {
            let (f, len) = Fragment::parse_header(reader, size_mode, id)?;
            fragment = Some(f);
            payload_size = len;
        }
        let mut buf = pool.get_buffer(payload_size as usize);
        match reader.take(payload_size as usize) {
            None => Err(PicklebackError::InvalidMessage),
            Some(payload) => {
                buf.v.extend_from_slice(payload);
                assert(buf@ =~= payload@);
                Ok(Message { id, size_mode, channel, buffer: buf, fragment })
            },
        }
    }
}

/// A message to be sent has a few bytes of header in front of its payload.
pub proof fn lemma_outbound_len(
    id: MessageId,
    channel: u8,
    payload: Seq<u8>,
    fragment: Option<Fragment>,
)
    ensures
        payload.len() + 4 <= outbound(id, channel, payload, fragment).bytes.len() <= payload.len()
            + 9,
{
    broadcast use wire::lemma_be_bytes_len;

}

proof fn lemma_parse_fragment(
    f: Fragment,
    payload_len: u16,
    size_mode: MessageSizeMode,
    id: MessageId,
    rest: Seq<u8>,
)
    requires
        sendable(payload_len as nat, Some(f)),
        size_mode == size_mode_for(payload_len as nat, Some(f)),
        f.parent_id == MessageId(id.0.wrapping_sub(f.index)),
    ensures
        parse_fragment(f.header(payload_len, size_mode) + rest, size_mode, id) == Ok::<
            _,
            PicklebackError,
        >(((f, payload_len), rest)),
{
    broadcast use wire::lemma_be_bytes_len;

    let tail = (if f.last() {
        wire::be_bytes(payload_len as nat, 2)
    } else {
        Seq::empty()
    }) + rest;
    let s = f.header(payload_len, size_mode) + rest;
    wire::lemma_be_round_trip_fixed(payload_len, 0, 0);
    wire::lemma_be_round_trip_fixed(f.index, 0, 0);
    wire::lemma_be_round_trip_fixed(f.num_fragments, 0, 0);
    match size_mode {
        MessageSizeMode::Small => {
            cursor::lemma_parse_uint_u8(s);
            cursor::lemma_parse_uint_u8(s.skip(1));
            assert(s.skip(1).skip(1) =~= tail);
        },
        MessageSizeMode::Large => {
            let after_index = wire::be_bytes(f.num_fragments as nat, 2) + tail;
            assert(s =~= wire::be_bytes(f.index as nat, 2) + after_index);
            cursor::lemma_parse_uint(f.index as nat, 2, after_index);
            cursor::lemma_parse_uint(f.num_fragments as nat, 2, tail);
        },
    }
    assert(parse_numbers(s, size_mode) == Ok::<_, PicklebackError>(
        ((f.index as nat, f.num_fragments as nat), tail),
    ));
    if f.last() {
        cursor::lemma_parse_uint(payload_len as nat, 2, rest);
    } else {
        assert(tail =~= rest);
    }
}

/// Parsing a message that was made to be sent gives back its id, channel, payload and fragment,
/// and what follows it.
pub proof fn lemma_parse_message(
    id: MessageId,
    channel: u8,
    payload: Seq<u8>,
    fragment: Option<Fragment>,
    rest: Seq<u8>,
)
    requires
        channel < 32,
        sendable(payload.len(), fragment),
        fragment matches Some(f) ==> f.parent_id == MessageId(id.0.wrapping_sub(f.index)),
    ensures
        parse_message(outbound(id, channel, payload, fragment).bytes + rest) == Ok::<
            _,
            PicklebackError,
        >((MessageView { bytes: payload, ..outbound(id, channel, payload, fragment) }, rest)),
{
    broadcast use wire::lemma_be_bytes_len;

    let size_mode = size_mode_for(payload.len(), fragment);
    let len = payload.len() as u16;
    let s = outbound(id, channel, payload, fragment).bytes + rest;
    let prefix = prefix_byte(fragment is Some, size_mode, channel);
    let description = match fragment {
        Some(f) => f.header(len, size_mode),
        None => match size_mode {
            MessageSizeMode::Small => seq![(len % 256) as u8],
            MessageSizeMode::Large => wire::be_bytes(len as nat, 2),
        },
    };
    let after_id = description + (payload + rest);
    assert(s.skip(1) =~= wire::be_bytes(id.0 as nat, 2) + after_id);
    wire::lemma_be_round_trip_fixed(id.0, 0, 0);
    cursor::lemma_parse_uint(id.0 as nat, 2, after_id);
    match fragment {
        Some(f) => {
            lemma_parse_fragment(f, len, size_mode, id, payload + rest);
        },
        None => {
            wire::lemma_be_round_trip_fixed(len, 0, 0);
            match size_mode {
                MessageSizeMode::Small => {
                    cursor::lemma_parse_uint_u8(after_id);
                    assert(after_id.skip(1) =~= payload + rest);
                },
                MessageSizeMode::Large => {
                    cursor::lemma_parse_uint(len as nat, 2, payload + rest);
                },
            }
        },
    }
    assert((payload + rest).take(len as int) =~= payload);
    assert((payload + rest).skip(len as int) =~= rest);
}

/// Parsing a message leaves fewer bytes than there were.
pub proof fn lemma_parse_consumes(s: Seq<u8>)
    ensures
        parse_message(s) matches Ok((m, rest)) ==> rest.len() < s.len(),
{
}

} // verus!
