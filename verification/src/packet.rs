//! A packet header for a link without a handshake: it has no packet type.

use crate::cursor::{self, Cursor, Parsed, WriteLimiter};
use crate::error::{IoError, PicklebackError};
use crate::protocol::ack_header::{self, AckField, AckHeader};
use crate::wire;
use crate::PacketId;
use vstd::prelude::*;

verus! {

/// What a header says.
#[verifier::ext_equal]
pub struct PacketHeaderView {
    pub id: PacketId,
    pub ack: Option<AckField>,
}

impl PacketHeaderView {
    /// The bytes of the header. The second bit of the first one says that an ack header is there.
    pub open spec fn encoded(self) -> Seq<u8> {
        seq![
            if self.ack is Some {
                2u8
            } else {
                0u8
            },
        ] + wire::be_bytes(self.id.0 as nat, 2) + match self.ack {
            Some(ack) => ack.encoded(),
            None => Seq::empty(),
        }
    }
}

/// The header at the start of `s`. The first bit must not be set, and all but the second one are
/// ignored otherwise.
pub open spec fn parse_header(s: Seq<u8>) -> Parsed<PacketHeaderView> {
    match cursor::parse_u8(s) {
        Err(e) => Err(e),
        Ok((prefix, s)) => if prefix % 2 == 1 {
            Err(PicklebackError::InvalidPacket)
        } else {
            match cursor::parse_uint(s, 2) {
                Err(e) => Err(e),
                Ok((id, s)) => {
                    let id = PacketId(id as u16);
                    if prefix / 2 % 2 == 1 {
                        match ack_header::parse_ack_field(s) {
                            Err(e) => Err(e),
                            Ok((ack, s)) => Ok((PacketHeaderView { id, ack: Some(ack) }, s)),
                        }
                    } else {
                        Ok((PacketHeaderView { id, ack: None }, s))
                    }
                },
            }
        },
    }
}

/// The header of a packet.
#[derive(Debug, Clone, Copy)]
pub struct PacketHeader {
    id: PacketId,
    ack_header: Option<AckHeader>,
}

impl View for PacketHeader {
    type V = PacketHeaderView;

    closed spec fn view(&self) -> PacketHeaderView {
        PacketHeaderView {
            id: self.id,
            ack: match self.ack_header {
                Some(h) => Some(h@),
                None => None,
            },
        }
    }
}

impl PacketHeader {
    /// The ack header, if any, is whole and none of it has been read yet.
    pub closed spec fn wf(&self) -> bool {
        self.ack_header matches Some(h) ==> h.wf() && h.remaining() == h@.entries()
    }

    /// A header that acks nothing.
    pub fn new_no_acks(id: PacketId) -> (r: Result<Self, PicklebackError>)
        ensures
            r matches Ok(h) && h.wf() && h@ == (PacketHeaderView { id, ack: None }),
    {
        Ok(PacketHeader { id, ack_header: None })
    }

    /// A header that acks `num_acks_required` packets, the most recent one first.
    pub fn new(id: PacketId, acks: &[(u16, bool)], num_acks_required: u16) -> (r: Result<
        Self,
        PicklebackError,
    >)
        requires
            num_acks_required > 0,
            acks@.len() > 0,
        ensures
            match r {
                Ok(h) => {
                    &&& num_acks_required <= ack_header::MAX_UNACKED_PACKETS
                    &&& h.wf()
                    &&& h@ == (PacketHeaderView {
                        id,
                        ack: Some(ack_header::ack_field_of(num_acks_required as int, acks@)),
                    })
                },
                Err(e) => num_acks_required > ack_header::MAX_UNACKED_PACKETS && e
                    == PicklebackError::Io(IoError::WriteZero),
            },
    {
        let ack_header = AckHeader::from_ack_iter(num_acks_required, acks)?;
        Ok(PacketHeader { id, ack_header: Some(ack_header) })
    }

    /// The sequence number of the packet.
    pub fn id(&self) -> (r: PacketId)
        ensures
            r == self@.id,
    {
        self.id
    }

    /// The most recent packet that is acked.
    pub fn ack_id(&self) -> (r: Option<PacketId>)
        ensures
            r == (match self@.ack {
                Some(ack) => Some(ack.ack_id),
                None => None,
            }),
    {
        match &self.ack_header {
            Some(h) => Some(h.ack_id()),
            None => None,
        }
    }

    /// The acks, if there is an ack header.
    pub fn acks(&self) -> (r: Option<Vec<(u16, bool)>>)
        requires
            self.wf(),
        ensures
            match r {
                Some(acks) => self@.ack matches Some(ack) && acks@ == ack.entries(),
                None => self@.ack is None,
            },
    {
        match self.ack_header {
            Some(h) => Some(h.into_acks()),
            None => None,
        }
    }

    /// The ack header.
    pub fn ack_header(&self) -> (r: Option<&AckHeader>)
        ensures
            match r {
                Some(h) => self@.ack == Some(h@),
                None => self@.ack is None,
            },
    {
        self.ack_header.as_ref()
    }

    /// How many bytes the header takes.
    pub fn size(&self) -> (r: usize)
        requires
            self.wf(),
        ensures
            r == self@.encoded().len(),
    {
        broadcast use wire::lemma_be_bytes_len;

        let ack_size: usize = match &self.ack_header {
            Some(h) => {
                proof {
                    h.lemma_wf();
                }
                h.size()
            },
            None => 0,
        };
        1 + 2 + ack_size
    }

    /// Writes the header.
    pub fn write(&self, writer: &mut WriteLimiter) -> (r: Result<(), PicklebackError>)
        requires
            self.wf(),
        ensures
            final(writer)@ == old(writer)@.after(self@.encoded()),
            r == cursor::write_result(self@.encoded().len(), old(writer)@.room),
    {
        let prefix: u8 = if self.ack_header.is_some() {
            2
        } else {
            0
        };
        let ghost id_bytes = wire::be_bytes(self.id.0 as nat, 2);
        let ghost ack_bytes = match self@.ack {
            Some(ack) => ack.encoded(),
            None => Seq::empty(),
        };
        proof {
            wire::lemma_be_bytes_len(self.id.0 as nat, 2);
            let w = old(writer)@;
            w.lemma_after(seq![prefix], id_bytes);
            w.lemma_after(seq![prefix], id_bytes + ack_bytes);
            w.lemma_after(seq![prefix] + id_bytes, ack_bytes);
            assert(seq![prefix] + (id_bytes + ack_bytes) =~= seq![prefix] + id_bytes + ack_bytes);
            assert(self@.encoded() =~= seq![prefix] + id_bytes + ack_bytes);
        }
        writer.write_u8(prefix)?;
        writer.write_u16(self.id.0)?;
        match &self.ack_header {
            Some(h) => {
                let _ = h.write(writer)?;
            },
            None => {
                assert(seq![prefix] + id_bytes + ack_bytes =~= seq![prefix] + id_bytes);
            },
        }
        Ok(())
    }

    /// Reads the header at the cursor.
    pub fn parse(reader: &mut Cursor) -> (r: Result<Self, PicklebackError>)
        requires
            old(reader).wf(),
        ensures
            final(reader).wf(),
            final(reader).all() == old(reader).all(),
            match r {
                Ok(h) => {
                    &&& h.wf()
                    &&& parse_header(old(reader).rest()) == Ok::<_, PicklebackError>(
                        (h@, final(reader).rest()),
                    )
                },
                Err(e) => parse_header(old(reader).rest()) == Err::<
                    (PacketHeaderView, Seq<u8>),
                    _,
                >(e),
            },
    {
        let prefix = reader.read_u8()?;
        if prefix % 2 == 1 {
            return Err(PicklebackError::InvalidPacket);
        }
        let ack_header_present = prefix / 2 % 2 == 1;
        let id = PacketId(reader.read_u16()?);
        let ack_header = if ack_header_present {
            Some(AckHeader::parse(reader)?)
        } else {
            None
        };
        Ok(PacketHeader { id, ack_header })
    }
}

/// Parsing what was written of a header gives back the header and what follows it.
pub proof fn lemma_parse_header(h: PacketHeaderView, rest: Seq<u8>)
    requires
        h.ack matches Some(ack) ==> ack.canonical(),
    ensures
        parse_header(h.encoded() + rest) == Ok::<_, PicklebackError>((h, rest)),
{
    wire::lemma_be_bytes_len(h.id.0 as nat, 2);
    wire::lemma_be_round_trip_fixed(h.id.0, 0, 0);
    let s = h.encoded() + rest;
    let ack_bytes = match h.ack {
        Some(ack) => ack.encoded(),
        None => Seq::empty(),
    };
    assert(s.skip(1) =~= wire::be_bytes(h.id.0 as nat, 2) + (ack_bytes + rest));
    cursor::lemma_parse_uint(h.id.0 as nat, 2, ack_bytes + rest);
    match h.ack {
        Some(ack) => {
            ack_header::lemma_parse_ack_field(ack, rest);
        },
        None => {
            assert(ack_bytes + rest =~= rest);
        },
    }
}

} // verus!
