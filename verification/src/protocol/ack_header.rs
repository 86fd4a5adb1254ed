//! Acknowledgement of the packets received most recently.
//!
//! The id of the most recent packet is sent as two bytes, and then one bit for each packet from
//! that one back, set if it was received. Seven bits go into a byte, from the least significant
//! up; the most significant bit says that another byte of acks follows.

use crate::cursor::{self, Cursor, Parsed, WriteLimiter};
use crate::error::{IoError, PicklebackError};
use crate::sequence_buffer::{SequenceBuffer, Window};
use crate::wire;
use crate::{PacketId, ReceivedMeta};
use vstd::prelude::*;

verus! {

/// The most bytes that the bits of an ack header take.
pub const MAX_ACK_BYTES: u8 = 50;

/// The most packets that an ack header can speak of, seven for each byte.
pub const MAX_UNACKED_PACKETS: u16 = 350;

/// Bit `i` of a byte, from the least significant.
pub open spec fn bit(b: u8, i: int) -> bool {
    (b >> (i as u8)) & 1 == 1
}

/// An ack header as it stands in a packet.
#[verifier::ext_equal]
pub struct AckField {
    /// The most recent packet.
    pub ack_id: PacketId,
    /// The bytes that hold the bits.
    pub bytes: Seq<u8>,
}

impl AckField {
    /// The bytes of the header.
    pub open spec fn encoded(self) -> Seq<u8> {
        wire::be_bytes(self.ack_id.0 as nat, 2) + self.bytes
    }

    /// The `i`th entry: the packet `i` before the most recent one, and whether it is acked.
    pub open spec fn entry(self, i: int) -> (u16, bool) {
        (((self.ack_id.0 - i) % 0x1_0000) as u16, bit(self.bytes[i / 7], i % 7))
    }

    /// How many bytes from number `byte` on hold entries: those up to the first without a
    /// continuation bit.
    pub open spec fn live_bytes(self, byte: int) -> nat
        decreases self.bytes.len() - byte,
    {
        if byte >= self.bytes.len() {
            0
        } else if bit(self.bytes[byte], 7) {
            1 + self.live_bytes(byte + 1)
        } else {
            1
        }
    }

    /// All entries, the most recent packet first.
    pub open spec fn entries(self) -> Seq<(u16, bool)> {
        Seq::new(7 * self.live_bytes(0), |i: int| self.entry(i))
    }

    /// Every byte but the last says that another one follows, and the last one does not, unless
    /// there can be no more.
    pub open spec fn canonical(self) -> bool {
        &&& 0 < self.bytes.len() <= MAX_ACK_BYTES
        &&& forall|i: int| 0 <= i < self.bytes.len() - 1 ==> bit(#[trigger] self.bytes[i], 7)
        &&& bit(self.bytes.last(), 7) ==> self.bytes.len() == MAX_ACK_BYTES
    }
}

/// The ack bytes at the start of `s`, `max` of them at most.
pub open spec fn parse_ack_bytes(s: Seq<u8>, max: nat) -> Parsed<Seq<u8>>
    decreases max,
{
    if max == 0 {
        Ok((Seq::empty(), s))
    } else if s.len() == 0 {
        Err(PicklebackError::Io(IoError::UnexpectedEof))
    } else if !bit(s[0], 7) {
        Ok((seq![s[0]], s.skip(1)))
    } else {
        match parse_ack_bytes(s.skip(1), (max - 1) as nat) {
            Ok((bytes, rest)) => Ok((seq![s[0]] + bytes, rest)),
            Err(e) => Err(e),
        }
    }
}

/// The ack header at the start of `s`.
pub open spec fn parse_ack_field(s: Seq<u8>) -> Parsed<AckField> {
    match cursor::parse_uint(s, 2) {
        Err(e) => Err(e),
        Ok((id, s)) => match parse_ack_bytes(s, MAX_ACK_BYTES as nat) {
            Err(e) => Err(e),
            Ok((bytes, rest)) => Ok((AckField { ack_id: PacketId(id as u16), bytes }, rest)),
        },
    }
}

/// One if the condition holds.
pub open spec fn one_if(c: bool) -> int {
    if c {
        1
    } else {
        0
    }
}

/// Whether there is an `i`th entry, and it is acked.
pub open spec fn is_acked(acks: Seq<(u16, bool)>, i: int) -> bool {
    0 <= i < acks.len() && acks[i].1
}

/// The byte for the seven acks from number `7 * byte` on.
pub open spec fn ack_byte(acks: Seq<(u16, bool)>, byte: int) -> u8 {
    let i = 7 * byte;
    (one_if(is_acked(acks, i)) + 2 * one_if(is_acked(acks, i + 1)) + 4 * one_if(
        is_acked(acks, i + 2),
    ) + 8 * one_if(is_acked(acks, i + 3)) + 16 * one_if(is_acked(acks, i + 4)) + 32 * one_if(
        is_acked(acks, i + 5),
    ) + 64 * one_if(is_acked(acks, i + 6)) + 128 * one_if(i + 7 < acks.len())) as u8
}

/// How many bytes hold `num_acks` bits: as many as it takes, and at least one.
pub open spec fn ack_bytes_needed(num_acks: int) -> int {
    if num_acks == 0 {
        1
    } else {
        (num_acks + 6) / 7
    }
}

/// The ack header for `num_acks` bits out of `acks`.
pub open spec fn ack_field_of(num_acks: int, acks: Seq<(u16, bool)>) -> AckField {
    AckField {
        ack_id: PacketId(acks[0].0),
        bytes: Seq::new(ack_bytes_needed(num_acks) as nat, |j: int| ack_byte(acks, j)),
    }
}

proof fn lemma_bits_of(b: u8)
    ensures
        b == one_if(bit(b, 0)) + 2 * one_if(bit(b, 1)) + 4 * one_if(bit(b, 2)) + 8 * one_if(
            bit(b, 3),
        ) + 16 * one_if(bit(b, 4)) + 32 * one_if(bit(b, 5)) + 64 * one_if(bit(b, 6)) + 128 * one_if(
            bit(b, 7),
        ),
{
    assert(b == ((b >> 0u8) & 1) + 2 * ((b >> 1u8) & 1) + 4 * ((b >> 2u8) & 1) + 8 * ((b >> 3u8)
        & 1) + 16 * ((b >> 4u8) & 1) + 32 * ((b >> 5u8) & 1) + 64 * ((b >> 6u8) & 1) + 128 * ((b
        >> 7u8) & 1)) by (bit_vector);
    assert(forall|k: u8| #[trigger] ((b >> k) & 1) == 0 || (b >> k) & 1 == 1) by (bit_vector);
}

/// The bits of an ack byte are the acks that it stands for and the continuation bit.
proof fn lemma_ack_byte_bits(acks: Seq<(u16, bool)>, byte: int)
    ensures
        forall|k: int|
            0 <= k < 7 ==> #[trigger] bit(ack_byte(acks, byte), k) == is_acked(acks, 7 * byte + k),
        bit(ack_byte(acks, byte), 7) == (7 * byte + 7 < acks.len()),
{
    lemma_bits_of(ack_byte(acks, byte));
}

proof fn lemma_set_bit(b: u8, i: u8)
    requires
        i < 8,
    ensures
        forall|k: int|
            0 <= k < 8 ==> #[trigger] bit(b | (1u8 << i), k) == (k == i || bit(b, k)),
{
    assert forall|k: int| 0 <= k < 8 implies #[trigger] bit(b | (1u8 << i), k) == (k == i || bit(
        b,
        k,
    )) by {
        let k = k as u8;
        assert(((b | (1u8 << i)) >> k) & 1 == 1 <==> (k == i || (b >> k) & 1 == 1)) by (bit_vector)
            requires
                i < 8,
                k < 8,
        ;
    }
}

proof fn lemma_mask(b: u8, i: u8)
    requires
        i < 8,
    ensures
        (b & (1u8 << i) == 1u8 << i) == bit(b, i as int),
        (b & 0b1000_0000 == 0b1000_0000) == bit(b, 7),
{
    assert((b & (1u8 << i) == 1u8 << i) <==> ((b >> i) & 1 == 1)) by (bit_vector)
        requires
            i < 8,
    ;
    assert((b & 0b1000_0000 == 0b1000_0000) <==> ((b >> 7u8) & 1 == 1)) by (bit_vector);
}

/// Acknowledges the packets received most recently. Reading it out entry by entry decodes the
/// bits as it goes.
#[derive(Clone, Copy, Debug)]
pub struct AckHeader {
    /// The packet received with the greatest sequence number.
    ack_id: PacketId,
    /// How many packets, from `ack_id` back, are spoken of.
    num_acks: u16,
    /// The bits, seven to a byte.
    bit_buffer: [u8; 50],
    /// How many of those bytes are in use.
    num_bytes_needed: u8,
    /// The byte that the next entry is read from.
    byte_offset: u8,
    /// The bit of that byte.
    bit_offset: u8,
}

impl View for AckHeader {
    type V = AckField;

    closed spec fn view(&self) -> AckField {
        AckField { ack_id: self.ack_id, bytes: self.bit_buffer@.take(self.num_bytes_needed as int) }
    }
}

impl AckHeader {
    /// The bytes in use and the read position are within the buffer.
    pub closed spec fn wf(&self) -> bool {
        &&& self.num_bytes_needed <= MAX_ACK_BYTES
        &&& self.byte_offset <= MAX_ACK_BYTES
        &&& self.bit_offset < 7
    }

    /// The entries not read yet.
    pub closed spec fn remaining(&self) -> Seq<(u16, bool)> {
        let first = 7 * self.byte_offset + self.bit_offset;
        Seq::new(
            if self.byte_offset >= self.num_bytes_needed {
                0
            } else {
                (7 * self@.live_bytes(self.byte_offset as int) - self.bit_offset) as nat
            },
            |i: int| self@.entry(first + i),
        )
    }

    /// How many packets the header was asked to speak of.
    pub closed spec fn requested(&self) -> u16 {
        self.num_acks
    }

    /// A header holds at most as many bytes as fit.
    pub proof fn lemma_wf(&self)
        requires
            self.wf(),
        ensures
            self@.bytes.len() <= MAX_ACK_BYTES,
    {
    }

    /// The next entry: a sequence number, and whether it is acked.
    pub fn next(&mut self) -> (r: Option<(u16, bool)>)
        requires
            old(self).wf(),
        ensures
            final(self).wf(),
            final(self)@ == old(self)@,
            final(self).requested() == old(self).requested(),
            match r {
                None => old(self).remaining().len() == 0 && final(self).remaining().len() == 0,
                Some(entry) => {
                    &&& old(self).remaining().len() > 0
                    &&& entry == old(self).remaining()[0]
                    &&& final(self).remaining() == old(self).remaining().skip(1)
                },
            },
    {
        if self.byte_offset >= self.num_bytes_needed {
            return None;
        }
        let b = self.bit_buffer[self.byte_offset as usize];
        let mask: u8 = 1u8 << self.bit_offset;
        let acked = b & mask == mask;
        proof {
            lemma_mask(b, self.bit_offset);
        }
        let seq_offset: u16 = 7 * self.byte_offset as u16 + self.bit_offset as u16;
        let sequence = self.ack_id.0.wrapping_sub(seq_offset);
        assert((sequence, acked) == self@.entry(seq_offset as int));
        if self.bit_offset == 6 {
            if (b & 0b1000_0000) != 0b1000_0000 {
                // no continuation bit, so there is nothing more to come
                self.byte_offset = MAX_ACK_BYTES;
            } else {
                self.byte_offset = self.byte_offset + 1;
                self.bit_offset = 0;
            }
        } else {
            self.bit_offset = self.bit_offset + 1;
        }
        assert(self.remaining() =~= old(self).remaining().skip(1));
        Some((sequence, acked))
    }

    /// The entries not read yet, all at once.
    pub fn into_acks(self) -> (r: Vec<(u16, bool)>)
        requires
            self.wf(),
        ensures
            r@ == self.remaining(),
    {
        let mut header = self;
        let mut acks: Vec<(u16, bool)> = Vec::new();
        loop
            invariant
                header.wf(),
                acks@ + header.remaining() =~= self.remaining(),
            ensures
                acks@ == self.remaining(),
            decreases header.remaining().len(),
        {
            match header.next() {
                Some(entry) => {
                    acks.push(entry);
                },
                None => {
                    break ;
                },
            }
        }
        acks
    }

    /// The most recent packet.
    pub fn ack_id(&self) -> (r: PacketId)
        ensures
            r == self@.ack_id,
    {
        self.ack_id
    }

    /// How many bytes the header takes.
    pub fn size(&self) -> (r: usize)
        requires
            self.wf(),
        ensures
            r == self@.encoded().len(),
    {
        proof {
            wire::lemma_be_bytes_len(self.ack_id.0 as nat, 2);
        }
        2 + self.num_bytes_needed as usize
    }

    /// Writes the header, and returns how many bytes it takes.
    pub fn write(&self, writer: &mut WriteLimiter) -> (r: Result<usize, PicklebackError>)
        requires
            self.wf(),
        ensures
            final(writer)@ == old(writer)@.after(self@.encoded()),
            match r {
                Ok(n) => self@.encoded().len() <= old(writer)@.room && n == self@.encoded().len(),
                Err(e) => self@.encoded().len() > old(writer)@.room && e == PicklebackError::Io(
                    IoError::WriteZero,
                ),
            },
    {
        let ghost id_bytes = wire::be_bytes(self.ack_id.0 as nat, 2);
        proof {
            wire::lemma_be_bytes_len(self.ack_id.0 as nat, 2);
            old(writer)@.lemma_after(id_bytes, self@.bytes);
        }
        writer.write_u16(self.ack_id.0)?;
        let all = self.bit_buffer.as_slice();
        let used = &all[0..self.num_bytes_needed as usize];
        assert(used@ =~= self@.bytes);
        writer.write_all(used)?;
        Ok(self.num_bytes_needed as usize + 2)
    }

    /// The header for `acks`, the first of which is for the most recent packet and written as
    /// its id. `num_acks` is how many bits there must be room for.
    pub fn from_ack_iter(num_acks: u16, acks: &[(u16, bool)]) -> (r: Result<Self, PicklebackError>)
        requires
            acks@.len() > 0,
        ensures
            match r {
                Ok(header) => {
                    &&& num_acks <= MAX_UNACKED_PACKETS
                    &&& header.wf()
                    &&& header@ == ack_field_of(num_acks as int, acks@)
                    &&& header.remaining() == header@.entries()
                    &&& header.requested() == num_acks
                },
                Err(e) => num_acks > MAX_UNACKED_PACKETS && e == PicklebackError::Io(
                    IoError::WriteZero,
                ),
            },
    {
        let ack_id = PacketId(acks[0].0);
        if num_acks > MAX_UNACKED_PACKETS {
            return Err(PicklebackError::Io(IoError::WriteZero));
        }
        let num_bytes_needed: u8 = if num_acks == 0 {
            1
        } else {
            ((num_acks + 6) / 7) as u8
        };
        let mut bit_buffer: [u8; 50] = [0u8; 50];
        let mut byte: u8 = 0;
        while byte < num_bytes_needed
            invariant
                byte <= num_bytes_needed <= MAX_ACK_BYTES,
                forall|j: int| 0 <= j < byte ==> bit_buffer@[j] == ack_byte(acks@, j),
            decreases num_bytes_needed - byte,
        {
            let mut current_byte: u8 = 0;
            let mut i: u8 = 0;
            assert forall|k: int| 0 <= k < 8 implies !bit(current_byte, k) by {
                let k = k as u8;
                assert((0u8 >> k) & 1 == 0) by (bit_vector);
            }
            while i < 7
                invariant
                    i <= 7,
                    byte < MAX_ACK_BYTES,
                    forall|k: int|
                        0 <= k < 8 ==> bit(current_byte, k) == (k < i && is_acked(
                            acks@,
                            7 * byte + k,
                        )),
                decreases 7 - i,
            {
                let index: usize = 7 * byte as usize + i as usize;
                if index < acks.len() && acks[index].1 {
                    proof {
                        lemma_set_bit(current_byte, i);
                    }
                    current_byte = current_byte | (1u8 << i);
                }
                i = i + 1;
            }
            // the most significant bit says whether there is more to come
            if 7 * byte as usize + 7 < acks.len() {
                proof {
                    lemma_set_bit(current_byte, 7);
                    assert(1u8 << 7u8 == 0b1000_0000u8) by (bit_vector);
                }
                current_byte = current_byte | 0b1000_0000;
            }
            proof {
                lemma_bits_of(current_byte);
            }
            assert(current_byte == ack_byte(acks@, byte as int));
            bit_buffer[byte as usize] = current_byte;
            byte = byte + 1;
        }
        let header = AckHeader {
            ack_id,
            num_acks,
            bit_buffer,
            num_bytes_needed,
            byte_offset: 0,
            bit_offset: 0,
        };
        assert(header@ =~= ack_field_of(num_acks as int, acks@));
        assert(header.remaining() =~= header@.entries());
        Ok(header)
    }

    /// Reads the header at the cursor.
    pub fn parse(reader: &mut Cursor) -> (r: Result<Self, PicklebackError>)
        requires
            old(reader).wf(),
        ensures
            final(reader).wf(),
            final(reader).all() == old(reader).all(),
            match r {
                Ok(header) => {
                    &&& header.wf()
                    &&& parse_ack_field(old(reader).rest()) == Ok::<_, PicklebackError>(
                        (header@, final(reader).rest()),
                    )
                    &&& header.remaining() == header@.entries()
                    &&& header.requested() == 7 * header@.bytes.len()
                },
                Err(e) => parse_ack_field(old(reader).rest()) == Err::<(AckField, Seq<u8>), _>(e),
            },
    {
        let ack_id = PacketId(reader.read_u16()?);
        let mut bit_buffer: [u8; 50] = [0u8; 50];
        let mut num_bytes_needed: u8 = 0;
        let mut more = true;
        let ghost start = reader.rest();
        while more && num_bytes_needed < MAX_ACK_BYTES
            invariant
                num_bytes_needed <= MAX_ACK_BYTES,
                reader.wf(),
                reader.all() == old(reader).all(),
                parse_ack_field(old(reader).rest()) == (match parse_ack_bytes(
                    start,
                    MAX_ACK_BYTES as nat,
                ) {
                    Err(e) => Err::<(AckField, Seq<u8>), PicklebackError>(e),
                    Ok((bytes, rest)) => Ok((AckField { ack_id, bytes }, rest)),
                }),
                parse_ack_bytes(start, MAX_ACK_BYTES as nat) == (if more {
                    match parse_ack_bytes(
                        reader.rest(),
                        (MAX_ACK_BYTES - num_bytes_needed) as nat,
                    ) {
                        Err(e) => Err::<(Seq<u8>, Seq<u8>), PicklebackError>(e),
                        Ok((bytes, rest)) => Ok(
                            (bit_buffer@.take(num_bytes_needed as int) + bytes, rest),
                        ),
                    }
                } else {
                    Ok((bit_buffer@.take(num_bytes_needed as int), reader.rest()))
                }),
            decreases MAX_ACK_BYTES - num_bytes_needed,
        {
            let ghost before = bit_buffer@.take(num_bytes_needed as int);
            let b = reader.read_u8()?;
            bit_buffer[num_bytes_needed as usize] = b;
            num_bytes_needed = num_bytes_needed + 1;
            assert(bit_buffer@.take(num_bytes_needed as int) =~= before + seq![b]);
            proof {
                lemma_mask(b, 0);
            }
            // most significant bit set? then the next byte holds more
            if (b & 0b1000_0000) != 0b1000_0000 {
                more = false;
            }
            assert(forall|rest: Seq<u8>|
                #![trigger before + (seq![b] + rest)]
                before + (seq![b] + rest) =~= (before + seq![b]) + rest);
        }
        let header = AckHeader {
            ack_id,
            num_acks: num_bytes_needed as u16 * 7,
            bit_buffer,
            num_bytes_needed,
            byte_offset: 0,
            bit_offset: 0,
        };
        assert(header@.bytes + Seq::<u8>::empty() =~= header@.bytes);
        assert(header.remaining() =~= header@.entries());
        Ok(header)
    }
}

/// The acks of the `len` packets from the most recent one in `received` back.
pub open spec fn acks_of(received: Window<ReceivedMeta>, len: nat) -> Seq<(u16, bool)> {
    Seq::new(
        len,
        |i: int|
            {
                let sequence = ((received.sequence - i) % 0x1_0000) as u16;
                (sequence, received.contents.dom().contains(sequence))
            },
    )
}

/// Walks back over the packets received, the most recent one first.
pub struct AckIter<'a> {
    seq_buffer: &'a SequenceBuffer<ReceivedMeta>,
    i: u16,
    max: u16,
}

impl<'a> AckIter<'a> {
    /// The buffer can be looked up in.
    pub closed spec fn wf(&self) -> bool {
        self.seq_buffer.wf() && self.seq_buffer@.modulus() != 0
    }

    /// The acks still to come.
    pub closed spec fn remaining(&self) -> Seq<(u16, bool)> {
        let all = acks_of(self.seq_buffer@, self.max as nat);
        if self.i >= self.max {
            Seq::empty()
        } else {
            all.skip(self.i as int)
        }
    }

    /// The acks of at least `length` packets, rounded up to a multiple of seven to fill the bits
    /// of an ack header.
    pub fn with_minimum_length(
        seq_buffer: &'a SequenceBuffer<ReceivedMeta>,
        length: u16,
    ) -> (r: AckIter<'a>)
        requires
            seq_buffer.wf(),
            seq_buffer@.modulus() != 0,
            length <= 65534,
        ensures
            r.wf(),
            r.remaining() == acks_of(seq_buffer@, ((length + 6) / 7 * 7) as nat),
    {
        let rounded: u32 = (length as u32 + 6) / 7 * 7;
        let max: u16 = rounded as u16;
        let r = AckIter { seq_buffer, i: 0, max };
        assert(r.remaining() =~= acks_of(seq_buffer@, max as nat));
        r
    }

    /// The next ack.
    pub fn next(&mut self) -> (r: Option<(u16, bool)>)
        requires
            old(self).wf(),
        ensures
            final(self).wf(),
            match r {
                None => old(self).remaining().len() == 0 && final(self).remaining().len() == 0,
                Some(entry) => {
                    &&& old(self).remaining().len() > 0
                    &&& entry == old(self).remaining()[0]
                    &&& final(self).remaining() == old(self).remaining().skip(1)
                },
            },
    {
        if self.i >= self.max {
            None
        } else {
            let sequence = self.seq_buffer.sequence().wrapping_sub(self.i);
            let acked = self.seq_buffer.contains(sequence);
            self.i = self.i + 1;
            assert(self.remaining() =~= old(self).remaining().skip(1));
            Some((sequence, acked))
        }
    }

    /// The acks still to come, all at once.
    pub fn into_acks(self) -> (r: Vec<(u16, bool)>)
        requires
            self.wf(),
        ensures
            r@ == self.remaining(),
    {
        let mut iter = self;
        let mut acks: Vec<(u16, bool)> = Vec::new();
        loop
            invariant
                iter.wf(),
                acks@ + iter.remaining() =~= self.remaining(),
            ensures
                acks@ == self.remaining(),
            decreases iter.remaining().len(),
        {
            match iter.next() {
                Some(entry) => {
                    acks.push(entry);
                },
                None => {
                    break ;
                },
            }
        }
        acks
    }
}

/// A header made from acks that fill its bits says that more follows in every byte but the last.
pub proof fn lemma_ack_field_canonical(num_acks: int, acks: Seq<(u16, bool)>)
    requires
        0 <= num_acks <= MAX_UNACKED_PACKETS,
        acks.len() == 7 * ack_bytes_needed(num_acks),
    ensures
        ack_field_of(num_acks, acks).canonical(),
{
    let f = ack_field_of(num_acks, acks);
    assert forall|j: int| 0 <= j < f.bytes.len() implies bit(#[trigger] f.bytes[j], 7) == (7 * j + 7
        < acks.len()) by {
        lemma_ack_byte_bits(acks, j);
    }
}

proof fn lemma_live_bytes(f: AckField, byte: int)
    requires
        f.canonical(),
        0 <= byte < f.bytes.len(),
    ensures
        f.live_bytes(byte) == f.bytes.len() - byte,
    decreases f.bytes.len() - byte,
{
    if byte + 1 < f.bytes.len() {
        lemma_live_bytes(f, byte + 1);
        assert(bit(f.bytes[byte], 7));
    } else {
        assert(f.live_bytes(byte + 1) == 0);
    }
}

/// Reading the entries out of a header gives back the acks that it was made from, where those are
/// for consecutive packets and fill its bits.
pub proof fn lemma_entries_of_acks(num_acks: int, acks: Seq<(u16, bool)>)
    requires
        0 <= num_acks <= MAX_UNACKED_PACKETS,
        acks.len() == 7 * ack_bytes_needed(num_acks),
        forall|i: int|
            0 <= i < acks.len() ==> (#[trigger] acks[i]).0 == (acks[0].0 - i) % 0x1_0000,
    ensures
        ack_field_of(num_acks, acks).entries() == acks,
{
    let f = ack_field_of(num_acks, acks);
    lemma_ack_field_canonical(num_acks, acks);
    lemma_live_bytes(f, 0);
    assert forall|i: int| 0 <= i < acks.len() implies f.entry(i) == #[trigger] acks[i] by {
        lemma_ack_byte_bits(acks, i / 7);
        assert(bit(ack_byte(acks, i / 7), i % 7) == is_acked(acks, 7 * (i / 7) + i % 7));
    }
    assert(f.entries() =~= acks);
}

proof fn lemma_parse_ack_bytes(f: AckField, from: int, rest: Seq<u8>)
    requires
        f.canonical(),
        0 <= from < f.bytes.len(),
    ensures
        parse_ack_bytes(f.bytes.skip(from) + rest, (MAX_ACK_BYTES - from) as nat) == Ok::<
            _,
            PicklebackError,
        >((f.bytes.skip(from), rest)),
    decreases f.bytes.len() - from,
{
    let s = f.bytes.skip(from) + rest;
    assert(s[0] == f.bytes[from]);
    if from + 1 < f.bytes.len() {
        lemma_parse_ack_bytes(f, from + 1, rest);
        assert(s.skip(1) =~= f.bytes.skip(from + 1) + rest);
        assert(seq![s[0]] + f.bytes.skip(from + 1) =~= f.bytes.skip(from));
    } else {
        assert(s.skip(1) =~= rest);
        assert(f.bytes.skip(from) =~= seq![s[0]]);
        if bit(s[0], 7) {
            assert(f.bytes.last() == s[0]);
            assert(parse_ack_bytes(s.skip(1), 0) == Ok::<_, PicklebackError>(
                (Seq::<u8>::empty(), rest),
            ));
            assert(seq![s[0]] + Seq::<u8>::empty() =~= seq![s[0]]);
        }
    }
}

/// Parsing what was written of a canonical header gives back the header and what follows it.
pub proof fn lemma_parse_ack_field(f: AckField, rest: Seq<u8>)
    requires
        f.canonical(),
    ensures
        parse_ack_field(f.encoded() + rest) == Ok::<_, PicklebackError>((f, rest)),
{
    wire::lemma_be_round_trip_fixed(f.ack_id.0, 0, 0);
    cursor::lemma_parse_uint(f.ack_id.0 as nat, 2, f.bytes + rest);
    assert(f.encoded() + rest =~= wire::be_bytes(f.ack_id.0 as nat, 2) + (f.bytes + rest));
    lemma_parse_ack_bytes(f, 0, rest);
    assert(f.bytes.skip(0) =~= f.bytes);
}

} // verus!
