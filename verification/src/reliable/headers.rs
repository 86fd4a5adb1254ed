//! The header of a packet, which acks the 32 packets received most recently.
//!
//! A prefix byte comes first:
//!
//! | bits       | description                                                        |
//! | ---------- | ------------------------------------------------------------------ |
//! | `-------X` | X = 0 regular packet                                               |
//! | `---XXXX-` | which of the four bytes of ack bits follow; the others are all set |
//! | `--X-----` | X = 1 the ack is given by how far it is behind, in one byte        |
//!
//! Then come two bytes of sequence number, the ack in one byte or two, and the bytes of ack bits.
//! Numbers of two bytes have the lower one first.

use super::buffers;
use super::error::ReliableError;
use vstd::prelude::*;

verus! {

/// What can be written in front of a payload and read back.
pub trait HeaderParser {
    type T;

    /// The most bytes that a header takes.
    fn max_possible_size() -> usize;

    /// How many bytes the header takes.
    fn size(&self) -> usize;

    /// Appends the header to a buffer.
    fn write(&self, writer: &mut bytes::BytesMut) -> Result<(), ReliableError>
        requires
            buffers::buffer_contents(*old(writer)).len() + 9 <= isize::MAX,
    ;

    /// Takes the header off the front of some bytes.
    fn parse(reader: &mut bytes::Bytes) -> Result<Self::T, ReliableError>;
}

/// The header of a packet.
#[derive(Clone, Copy, PartialEq, Eq, Structural, Debug)]
pub struct PacketHeader {
    pub sequence: u16,
    pub ack: u16,
    pub ack_bits: u32,
}

/// A number of two bytes, the lower one first.
pub open spec fn le16(n: u16) -> Seq<u8> {
    seq![(n % 256) as u8, (n / 256) as u8]
}

/// Byte number `i` of the ack bits, from the lowest.
pub open spec fn bits_byte(bits: u32, i: int) -> u8 {
    if i == 0 {
        (bits % 256) as u8
    } else if i == 1 {
        (bits / 256 % 256) as u8
    } else if i == 2 {
        (bits / 65536 % 256) as u8
    } else {
        (bits / 16777216) as u8
    }
}

/// The byte, unless it has all bits set.
pub open spec fn unless_full(b: u8) -> Seq<u8> {
    if b != 255 {
        seq![b]
    } else {
        Seq::empty()
    }
}

/// One if the byte is written.
pub open spec fn written(b: u8) -> int {
    if b != 255 {
        1
    } else {
        0
    }
}

impl PacketHeader {
    /// How far the ack is behind the sequence number.
    pub open spec fn difference(self) -> u16 {
        self.sequence.wrapping_sub(self.ack)
    }

    /// The prefix byte.
    pub open spec fn prefix(self) -> u8 {
        (2 * written(bits_byte(self.ack_bits, 0)) + 4 * written(bits_byte(self.ack_bits, 1)) + 8
            * written(bits_byte(self.ack_bits, 2)) + 16 * written(bits_byte(self.ack_bits, 3)) + (
        if self.difference() <= 255 {
            32int
        } else {
            0
        })) as u8
    }

    /// The ack as it is written.
    pub open spec fn encoded_ack(self) -> Seq<u8> {
        if self.difference() <= 255 {
            seq![self.difference() as u8]
        } else {
            le16(self.ack)
        }
    }

    /// The ack bits as they are written.
    pub open spec fn encoded_bits(self) -> Seq<u8> {
        unless_full(bits_byte(self.ack_bits, 0)) + unless_full(bits_byte(self.ack_bits, 1))
            + unless_full(bits_byte(self.ack_bits, 2)) + unless_full(bits_byte(self.ack_bits, 3))
    }

    /// The bytes of the header.
    pub open spec fn encoded(self) -> Seq<u8> {
        seq![self.prefix()] + le16(self.sequence) + self.encoded_ack() + self.encoded_bits()
    }

    /// A header.
    pub fn new(sequence: u16, ack: u16, ack_bits: u32) -> (r: Self)
        ensures
            r == (PacketHeader { sequence, ack, ack_bits }),
    {
        PacketHeader { sequence, ack, ack_bits }
    }

    /// The sequence number of the packet.
    pub fn sequence(&self) -> (r: u16)
        ensures
            r == self.sequence,
    {
        self.sequence
    }

    /// The most recent packet received.
    pub fn ack(&self) -> (r: u16)
        ensures
            r == self.ack,
    {
        self.ack
    }

    /// For each packet from the most recent one back, from the lowest bit up, whether it was
    /// received.
    pub fn ack_bits(&self) -> (r: u32)
        ensures
            r == self.ack_bits,
    {
        self.ack_bits
    }
}

impl Default for PacketHeader {
    fn default() -> (r: Self)
        ensures
            r == (PacketHeader { sequence: 0, ack: 0, ack_bits: 0 }),
    {
        PacketHeader { sequence: 0, ack: 0, ack_bits: 0 }
    }
}

/// What a parser finds at the start of some bytes, and the bytes that follow it.
pub type Parsed<T> = Result<(T, Seq<u8>), ReliableError>;

/// A byte of ack bits, if it is there, or else one with all bits set.
pub open spec fn take_bits(there: bool, s: Seq<u8>) -> (u8, Seq<u8>) {
    if there {
        (s[0], s.skip(1))
    } else {
        (255, s)
    }
}

/// Whether bit `2^k` of the prefix, given as `weight`, is set.
pub open spec fn flag(prefix: u8, weight: int) -> bool {
    prefix as int / weight % 2 == 1
}

/// The ack bits at the start of `s`.
pub open spec fn parse_bits(prefix: u8, s: Seq<u8>) -> Parsed<u32> {
    let expected = (if flag(prefix, 2) { 1int } else { 0 }) + (if flag(prefix, 4) { 1int } else {
        0
    }) + (if flag(prefix, 8) { 1int } else { 0 }) + (if flag(prefix, 16) { 1int } else { 0 });
    if s.len() < expected {
        Err(ReliableError::InvalidPacket)
    } else {
        let (b0, s) = take_bits(flag(prefix, 2), s);
        let (b1, s) = take_bits(flag(prefix, 4), s);
        let (b2, s) = take_bits(flag(prefix, 8), s);
        let (b3, s) = take_bits(flag(prefix, 16), s);
        Ok(((b0 + 256 * b1 + 65536 * b2 + 16777216 * b3) as u32, s))
    }
}

/// The ack at the start of `s`, which is behind `sequence`. More bytes than it takes up must be
/// left.
pub open spec fn parse_ack(prefix: u8, sequence: u16, s: Seq<u8>) -> Parsed<u16> {
    if flag(prefix, 32) {
        if s.len() < 4 {
            Err(ReliableError::InvalidPacket)
        } else {
            Ok((sequence.wrapping_sub(s[0] as u16), s.skip(1)))
        }
    } else {
        if s.len() < 5 {
            Err(ReliableError::InvalidPacket)
        } else {
            Ok(((s[0] + 256 * s[1]) as u16, s.skip(2)))
        }
    }
}

/// The header at the start of `s`.
pub open spec fn parse_header(s: Seq<u8>) -> Parsed<PacketHeader> {
    if s.len() < 3 {
        Err(ReliableError::PacketTooSmall)
    } else {
        let prefix = s[0];
        let sequence = (s[1] + 256 * s[2]) as u16;
        if prefix % 2 == 1 {
            Err(ReliableError::InvalidPacket)
        } else {
            match parse_ack(prefix, sequence, s.skip(3)) {
                Err(e) => Err(e),
                Ok((ack, s)) => match parse_bits(prefix, s) {
                    Err(e) => Err(e),
                    Ok((ack_bits, s)) => Ok((PacketHeader { sequence, ack, ack_bits }, s)),
                },
            }
        }
    }
}

/// Appends a byte, unless it has all bits set.
fn put_unless_full(writer: &mut bytes::BytesMut, b: u8)
    requires
        buffers::buffer_contents(*old(writer)).len() + 1 <= isize::MAX,
    ensures
        buffers::buffer_contents(*final(writer)) == buffers::buffer_contents(*old(writer))
            + unless_full(b),
{
    let ghost before = buffers::buffer_contents(*writer);
    if b != 255 {
        buffers::put_u8(writer, b);
        assert(before.push(b) =~= before + seq![b]);
    } else {
        assert(before + Seq::<u8>::empty() =~= before);
    }
}

/// Takes a byte of ack bits, if it is there.
fn get_bits(reader: &mut bytes::Bytes, there: bool) -> (r: u32)
    requires
        there ==> buffers::bytes_contents(*old(reader)).len() >= 1,
    ensures
        (r as u8, buffers::bytes_contents(*final(reader))) == take_bits(
            there,
            buffers::bytes_contents(*old(reader)),
        ),
        r <= 255,
{
    if there {
        buffers::get_u8(reader) as u32
    } else {
        255
    }
}

impl HeaderParser for PacketHeader {
    type T = PacketHeader;

    fn max_possible_size() -> (r: usize)
        ensures
            forall|h: PacketHeader| #[trigger] h.encoded().len() <= r,
            r == 9,
    {
        9
    }

    fn size(&self) -> (r: usize)
        ensures
            r == self.encoded().len(),
            r <= 9,
    {
        let mut size: usize = 3;
        if self.sequence.wrapping_sub(self.ack) <= 255 {
            size = size + 1;
        } else {
            size = size + 2;
        }
        if self.ack_bits % 256 != 255 {
            size = size + 1;
        }
        if self.ack_bits / 256 % 256 != 255 {
            size = size + 1;
        }
        if self.ack_bits / 65536 % 256 != 255 {
            size = size + 1;
        }
        if self.ack_bits / 16777216 != 255 {
            size = size + 1;
        }
        size
    }

    fn write(&self, writer: &mut bytes::BytesMut) -> (r: Result<(), ReliableError>)
        ensures
            r is Ok,
            buffers::buffer_contents(*final(writer)) == buffers::buffer_contents(*old(writer))
                + self.encoded(),
    {
        let b0: u8 = (self.ack_bits % 256) as u8;
        let b1: u8 = (self.ack_bits / 256 % 256) as u8;
        let b2: u8 = (self.ack_bits / 65536 % 256) as u8;
        let b3: u8 = (self.ack_bits / 16777216) as u8;
        let mut prefix_byte: u8 = 0;
        if b0 != 255 {
            prefix_byte = prefix_byte + 2;
        }
        if b1 != 255 {
            prefix_byte = prefix_byte + 4;
        }
        if b2 != 255 {
            prefix_byte = prefix_byte + 8;
        }
        if b3 != 255 {
            prefix_byte = prefix_byte + 16;
        }
        let sequence_difference = self.sequence.wrapping_sub(self.ack);
        if sequence_difference <= 255 {
            prefix_byte = prefix_byte + 32;
        }
        assert(prefix_byte == self.prefix());
        let ghost before = buffers::buffer_contents(*writer);
        buffers::put_u8(writer, prefix_byte);
        buffers::put_u16_le(writer, self.sequence);
        if sequence_difference <= 255 {
            buffers::put_u8(writer, sequence_difference as u8);
        } else {
            buffers::put_u16_le(writer, self.ack);
        }
        assert(buffers::buffer_contents(*writer) =~= before + (seq![self.prefix()] + le16(
            self.sequence,
        ) + self.encoded_ack()));
        put_unless_full(writer, b0);
        put_unless_full(writer, b1);
        put_unless_full(writer, b2);
        put_unless_full(writer, b3);
        assert(buffers::buffer_contents(*writer) =~= before + self.encoded());
        Ok(())
    }

    fn parse(reader: &mut bytes::Bytes) -> (r: Result<PacketHeader, ReliableError>)
        ensures
            match r {
                Ok(h) => parse_header(buffers::bytes_contents(*old(reader))) == Ok::<
                    _,
                    ReliableError,
                >((h, buffers::bytes_contents(*final(reader)))),
                Err(e) => parse_header(buffers::bytes_contents(*old(reader))) == Err::<
                    (PacketHeader, Seq<u8>),
                    _,
                >(e),
            },
    {
        let ghost all = buffers::bytes_contents(*reader);
        if buffers::remaining(reader) < 3 {
            return Err(ReliableError::PacketTooSmall);
        }
        let prefix_byte = buffers::get_u8(reader);
        if prefix_byte % 2 == 1 {
            return Err(ReliableError::InvalidPacket);
        }
        let sequence = buffers::get_u16_le(reader);
        assert(buffers::bytes_contents(*reader) =~= all.skip(3));
        let ack: u16;
        if prefix_byte / 32 % 2 == 1 {
            if buffers::remaining(reader) < 4 {
                return Err(ReliableError::InvalidPacket);
            }
            let sequence_difference = buffers::get_u8(reader);
            ack = sequence.wrapping_sub(sequence_difference as u16);
        } else {
            if buffers::remaining(reader) < 5 {
                return Err(ReliableError::InvalidPacket);
            }
            ack = buffers::get_u16_le(reader);
        }
        let has0 = prefix_byte / 2 % 2 == 1;
        let has1 = prefix_byte / 4 % 2 == 1;
        let has2 = prefix_byte / 8 % 2 == 1;
        let has3 = prefix_byte / 16 % 2 == 1;
        let mut expected_bytes: usize = 0;
        if has0 {
            expected_bytes = expected_bytes + 1;
        }
        if has1 {
            expected_bytes = expected_bytes + 1;
        }
        if has2 {
            expected_bytes = expected_bytes + 1;
        }
        if has3 {
            expected_bytes = expected_bytes + 1;
        }
        if buffers::remaining(reader) < expected_bytes {
            return Err(ReliableError::InvalidPacket);
        }
        let b0: u32 = get_bits(reader, has0);
        let b1: u32 = get_bits(reader, has1);
        let b2: u32 = get_bits(reader, has2);
        let b3: u32 = get_bits(reader, has3);
        let ack_bits: u32 = b0 + 256 * b1 + 65536 * b2 + 16777216 * b3;
        Ok(PacketHeader { sequence, ack, ack_bits })
    }
}

/// The flags that a prefix byte was put together from can be told from it.
proof fn lemma_flags(a: bool, b: bool, c: bool, d: bool, e: bool, prefix: u8)
    requires
        prefix == (if a {
            2int
        } else {
            0
        }) + (if b {
            4int
        } else {
            0
        }) + (if c {
            8int
        } else {
            0
        }) + (if d {
            16int
        } else {
            0
        }) + (if e {
            32int
        } else {
            0
        }),
    ensures
        prefix % 2 == 0,
        flag(prefix, 2) == a,
        flag(prefix, 4) == b,
        flag(prefix, 8) == c,
        flag(prefix, 16) == d,
        flag(prefix, 32) == e,
{
}

/// The ack bits are made up of their four bytes.
proof fn lemma_bits_bytes(bits: u32)
    ensures
        bits == bits_byte(bits, 0) + 256 * bits_byte(bits, 1) + 65536 * bits_byte(bits, 2)
            + 16777216 * bits_byte(bits, 3),
{
}

proof fn lemma_parse_bits(h: PacketHeader, prefix: u8, rest: Seq<u8>)
    requires
        flag(prefix, 2) == (bits_byte(h.ack_bits, 0) != 255),
        flag(prefix, 4) == (bits_byte(h.ack_bits, 1) != 255),
        flag(prefix, 8) == (bits_byte(h.ack_bits, 2) != 255),
        flag(prefix, 16) == (bits_byte(h.ack_bits, 3) != 255),
    ensures
        parse_bits(prefix, h.encoded_bits() + rest) == Ok::<_, ReliableError>((h.ack_bits, rest)),
{
    lemma_bits_bytes(h.ack_bits);
    let (b0, b1, b2, b3) = (
        bits_byte(h.ack_bits, 0),
        bits_byte(h.ack_bits, 1),
        bits_byte(h.ack_bits, 2),
        bits_byte(h.ack_bits, 3),
    );
    let s0 = h.encoded_bits() + rest;
    let s1 = unless_full(b1) + unless_full(b2) + unless_full(b3) + rest;
    let s2 = unless_full(b2) + unless_full(b3) + rest;
    let s3 = unless_full(b3) + rest;
    assert(take_bits(b0 != 255, s0) == (b0, s1)) by {
        assert(s0 =~= unless_full(b0) + s1);
        assert(take_bits(b0 != 255, s0).1 =~= s1);
    }
    assert(take_bits(b1 != 255, s1) == (b1, s2)) by {
        assert(s1 =~= unless_full(b1) + s2);
        assert(take_bits(b1 != 255, s1).1 =~= s2);
    }
    assert(take_bits(b2 != 255, s2) == (b2, s3)) by {
        assert(s2 =~= unless_full(b2) + s3);
        assert(take_bits(b2 != 255, s2).1 =~= s3);
    }
    assert(take_bits(b3 != 255, s3) == (b3, rest)) by {
        assert(take_bits(b3 != 255, s3).1 =~= rest);
    }
}

/// The prefix says which parts follow.
proof fn lemma_prefix(h: PacketHeader)
    ensures
        h.prefix() % 2 == 0,
        flag(h.prefix(), 2) == (bits_byte(h.ack_bits, 0) != 255),
        flag(h.prefix(), 4) == (bits_byte(h.ack_bits, 1) != 255),
        flag(h.prefix(), 8) == (bits_byte(h.ack_bits, 2) != 255),
        flag(h.prefix(), 16) == (bits_byte(h.ack_bits, 3) != 255),
        flag(h.prefix(), 32) == (h.difference() <= 255),
{
    lemma_flags(
        bits_byte(h.ack_bits, 0) != 255,
        bits_byte(h.ack_bits, 1) != 255,
        bits_byte(h.ack_bits, 2) != 255,
        bits_byte(h.ack_bits, 3) != 255,
        h.difference() <= 255,
        h.prefix(),
    );
}

proof fn lemma_le16(n: u16)
    ensures
        (le16(n)[0] + 256 * le16(n)[1]) as u16 == n,
        le16(n).len() == 2,
{
}

/// Parsing an ack that was written gives it back, and what follows it.
proof fn lemma_parse_ack(h: PacketHeader, prefix: u8, rest: Seq<u8>)
    requires
        flag(prefix, 32) == (h.difference() <= 255),
        h.encoded_ack().len() + rest.len() >= (if h.difference() <= 255 {
            4int
        } else {
            5
        }),
    ensures
        parse_ack(prefix, h.sequence, h.encoded_ack() + rest) == Ok::<_, ReliableError>(
            (h.ack, rest),
        ),
{
    let s = h.encoded_ack() + rest;
    if h.difference() <= 255 {
        assert(s[0] == h.difference() as u8);
        assert(s.skip(1) =~= rest);
    } else {
        lemma_le16(h.ack);
        assert(s[0] == le16(h.ack)[0] && s[1] == le16(h.ack)[1]);
        assert(s.skip(2) =~= rest);
    }
}

/// A header begins with the prefix and the sequence number.
proof fn lemma_header_start(h: PacketHeader, rest: Seq<u8>)
    ensures
        ({
            let s = h.encoded() + rest;
            &&& s.len() == 3 + h.encoded_ack().len() + h.encoded_bits().len() + rest.len()
            &&& s[0] == h.prefix()
            &&& s[1] == le16(h.sequence)[0]
            &&& s[2] == le16(h.sequence)[1]
            &&& s.skip(3) == h.encoded_ack() + (h.encoded_bits() + rest)
        }),
{
    let s = h.encoded() + rest;
    assert(s.skip(3) =~= h.encoded_ack() + (h.encoded_bits() + rest));
}

/// Parsing a header that was written gives back the header and what follows it, as long as enough
/// does.
pub proof fn lemma_parse_header(h: PacketHeader, rest: Seq<u8>)
    requires
        h.encoded().len() + rest.len() >= (if h.difference() <= 255 {
            7int
        } else {
            8
        }),
    ensures
        parse_header(h.encoded() + rest) == Ok::<_, ReliableError>((h, rest)),
{
    let bits = h.encoded_bits() + rest;
    lemma_header_start(h, rest);
    lemma_le16(h.sequence);
    lemma_prefix(h);
    lemma_parse_ack(h, h.prefix(), bits);
    lemma_parse_bits(h, h.prefix(), rest);
}

} // verus!
