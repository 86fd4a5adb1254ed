//! The packets of the protocol and how they are written and read.
//!
//! A packet starts with a byte for its type, the highest bit of which says that an ack header is
//! there. Two bytes of sequence number follow, the ack header, if any, and then what goes with
//! the type.

use super::ack_header::{self, AckField, AckHeader};
use super::DisconnectReason;
use crate::address::PeerAddr;
use crate::buffer_pool::{self, BufPool, PooledBuffer};
use crate::config::PicklebackConfig;
use crate::cursor::{self, BufferLimitedWriter, Cursor, Parsed, WriteLimiter};
use crate::error::{IoError, PicklebackError};
use crate::wire;
use crate::PacketId;
use vstd::prelude::*;

verus! {

/// How many zero bytes the packets of the handshake are padded with.
pub const PADDING: usize = 500;

/// A packet, and where it is to be sent.
#[derive(Debug, PartialEq, Eq)]
pub struct AddressedPacket {
    pub address: PeerAddr,
    pub packet: Vec<u8>,
}

/// The bytes of a packet, and where it is to be sent.
#[verifier::ext_equal]
pub struct AddressedView {
    pub address: PeerAddr,
    pub bytes: Seq<u8>,
}

impl View for AddressedPacket {
    type V = AddressedView;

    open spec fn view(&self) -> AddressedView {
        AddressedView { address: self.address, bytes: self.packet@ }
    }
}

impl Clone for AddressedPacket {
    fn clone(&self) -> (r: Self)
        ensures
            r@ == self@,
    {
        let mut packet: Vec<u8> = Vec::with_capacity(self.packet.len());
        packet.extend_from_slice(self.packet.as_slice());
        assert(packet@ =~= self.packet@);
        AddressedPacket { address: self.address, packet }
    }
}

/// The same address for every packet.
pub open spec fn addressed(address: PeerAddr, packets: Seq<Seq<u8>>) -> Seq<AddressedView> {
    packets.map_values(|bytes: Seq<u8>| AddressedView { address, bytes })
}

/// Appends packets that all go to the same address.
pub fn push_addressed(out: &mut Vec<AddressedPacket>, address: PeerAddr, packets: Vec<Vec<u8>>)
    ensures
        final(out)@.map_values(|p: AddressedPacket| p@) == old(out)@.map_values(
            |p: AddressedPacket| p@,
        ) + addressed(address, packets@.map_values(|v: Vec<u8>| v@)),
{
    let ghost view = |p: AddressedPacket| p@;
    let ghost bytes = |v: Vec<u8>| v@;
    let ghost all = packets@;
    assert(addressed(address, all.take(0).map_values(bytes)) =~= Seq::empty());
    for packet in it: packets
        invariant
            it.seq() == all,
            out@.map_values(view) =~= old(out)@.map_values(view) + addressed(
                address,
                all.take(it.index() as int).map_values(bytes),
            ),
            view == (|p: AddressedPacket| p@),
            bytes == (|v: Vec<u8>| v@),
    {
        let ghost before = out@;
        let ghost n = it.index() as int;
        out.push(AddressedPacket { address, packet });
        proof {
            assert(out@.map_values(view) =~= before.map_values(view).push(
                AddressedView { address, bytes: all[n]@ },
            ));
            assert(all.take(n + 1) =~= all.take(n).push(all[n]));
            assert(addressed(address, all.take(n + 1).map_values(bytes)) =~= addressed(
                address,
                all.take(n).map_values(bytes),
            ).push(AddressedView { address, bytes: all[n]@ }));
        }
    }
    assert(all.take(all.len() as int) =~= all);
}

/// What kind of packet it is.
#[derive(Debug, Clone, Copy, PartialEq, Eq, Structural)]
pub enum PacketType {
    ConnectionRequest,
    ConnectionChallenge,
    ConnectionChallengeResponse,
    ConnectionDenied,
    Messages,
    Disconnect,
    KeepAlive,
}

impl PacketType {
    /// The number of the type.
    pub open spec fn spec_code(self) -> u8 {
        match self {
            PacketType::ConnectionRequest => 1,
            PacketType::ConnectionChallenge => 2,
            PacketType::ConnectionChallengeResponse => 3,
            PacketType::ConnectionDenied => 4,
            PacketType::Messages => 5,
            PacketType::Disconnect => 6,
            PacketType::KeepAlive => 7,
        }
    }

    /// The type with a given number.
    pub open spec fn of_code(code: u8) -> Option<Self> {
        if code == 1 {
            Some(PacketType::ConnectionRequest)
        } else if code == 2 {
            Some(PacketType::ConnectionChallenge)
        } else if code == 3 {
            Some(PacketType::ConnectionChallengeResponse)
        } else if code == 4 {
            Some(PacketType::ConnectionDenied)
        } else if code == 5 {
            Some(PacketType::Messages)
        } else if code == 6 {
            Some(PacketType::Disconnect)
        } else if code == 7 {
            Some(PacketType::KeepAlive)
        } else {
            None
        }
    }

    /// The number of the type.
    pub fn code(&self) -> (r: u8)
        ensures
            r == self.spec_code(),
    {
        match *self {
            PacketType::ConnectionRequest => 1,
            PacketType::ConnectionChallenge => 2,
            PacketType::ConnectionChallengeResponse => 3,
            PacketType::ConnectionDenied => 4,
            PacketType::Messages => 5,
            PacketType::Disconnect => 6,
            PacketType::KeepAlive => 7,
        }
    }

    /// The type with a given number.
    pub fn try_from(value: u8) -> (r: Result<Self, PicklebackError>)
        ensures
            match r {
                Ok(t) => Self::of_code(value) == Some(t),
                Err(e) => Self::of_code(value) is None && e == PicklebackError::InvalidPacket,
            },
    {
        match value {
            1 => Ok(PacketType::ConnectionRequest),
            2 => Ok(PacketType::ConnectionChallenge),
            3 => Ok(PacketType::ConnectionChallengeResponse),
            4 => Ok(PacketType::ConnectionDenied),
            5 => Ok(PacketType::Messages),
            6 => Ok(PacketType::Disconnect),
            7 => Ok(PacketType::KeepAlive),
            _ => Err(PicklebackError::InvalidPacket),
        }
    }
}

/// What the header of a packet says.
#[verifier::ext_equal]
pub struct HeaderView {
    pub packet_type: PacketType,
    pub id: PacketId,
    pub ack: Option<AckField>,
}

impl HeaderView {
    /// The header of a packet, acking `num_acks` packets where there are any to ack.
    pub open spec fn with_acks(
        id: PacketId,
        acks: Seq<(u16, bool)>,
        num_acks: u16,
        packet_type: PacketType,
    ) -> Self {
        HeaderView {
            packet_type,
            id,
            ack: if num_acks == 0 {
                None
            } else {
                Some(ack_header::ack_field_of(num_acks as int, acks))
            },
        }
    }

    /// The bytes of the header.
    pub open spec fn encoded(self) -> Seq<u8> {
        seq![
            (self.packet_type.spec_code() + if self.ack is Some {
                128int
            } else {
                0
            }) as u8,
        ] + wire::be_bytes(self.id.0 as nat, 2) + match self.ack {
            Some(ack) => ack.encoded(),
            None => Seq::empty(),
        }
    }
}

/// The header at the start of `s`.
pub open spec fn parse_packet_header(s: Seq<u8>) -> Parsed<HeaderView> {
    match cursor::parse_u8(s) {
        Err(e) => Err(e),
        Ok((prefix, s)) => match PacketType::of_code((prefix % 128) as u8) {
            None => Err(PicklebackError::InvalidPacket),
            Some(packet_type) => match cursor::parse_uint(s, 2) {
                Err(e) => Err(e),
                Ok((id, s)) => {
                    let id = PacketId(id as u16);
                    if prefix >= 128 {
                        match ack_header::parse_ack_field(s) {
                            Err(e) => Err(e),
                            Ok((ack, s)) => Ok(
                                (HeaderView { packet_type, id, ack: Some(ack) }, s),
                            ),
                        }
                    } else {
                        Ok((HeaderView { packet_type, id, ack: None }, s))
                    }
                },
            },
        },
    }
}

/// The header that every packet starts with.
#[derive(Debug, Clone, Copy)]
pub struct ProtocolPacketHeader {
    pub packet_type: PacketType,
    pub id: PacketId,
    pub ack_header: Option<AckHeader>,
}

impl View for ProtocolPacketHeader {
    type V = HeaderView;

    open spec fn view(&self) -> HeaderView {
        HeaderView {
            packet_type: self.packet_type,
            id: self.id,
            ack: match self.ack_header {
                Some(h) => Some(h@),
                None => None,
            },
        }
    }
}

impl ProtocolPacketHeader {
    /// The ack header, if any, is whole and none of it has been read yet.
    pub open spec fn wf(&self) -> bool {
        self.ack_header matches Some(h) ==> h.wf() && h.remaining() == h@.entries()
    }

    /// A header that acks `num_acks` packets, the most recent one first.
    pub fn new(
        id: PacketId,
        acks: &[(u16, bool)],
        num_acks: u16,
        packet_type: PacketType,
    ) -> (r: Result<Self, PicklebackError>)
        requires
            num_acks > 0 ==> acks@.len() > 0,
        ensures
            match r {
                Ok(h) => {
                    &&& num_acks <= ack_header::MAX_UNACKED_PACKETS
                    &&& h.wf()
                    &&& h@ == HeaderView::with_acks(id, acks@, num_acks, packet_type)
                },
                Err(e) => num_acks > ack_header::MAX_UNACKED_PACKETS && e == PicklebackError::Io(
                    IoError::WriteZero,
                ),
            },
    {
        if num_acks == 0 {
            return Self::new_no_acks(id, packet_type);
        }
        let ack_header = AckHeader::from_ack_iter(num_acks, acks)?;
        Ok(ProtocolPacketHeader { packet_type, id, ack_header: Some(ack_header) })
    }

    /// A header that acks nothing.
    pub fn new_no_acks(id: PacketId, packet_type: PacketType) -> (r: Result<Self, PicklebackError>)
        ensures
            r matches Ok(h) && h.wf() && h@ == (HeaderView { packet_type, id, ack: None }),
    {
        Ok(ProtocolPacketHeader { packet_type, id, ack_header: None })
    }

    /// The sequence number of the packet.
    pub fn id(&self) -> (r: PacketId)
        ensures
            r == self@.id,
    {
        self.id
    }

    /// The most recent packet that is acked.
    pub fn ack_id(&self) -> (r: Option<PacketId>)
        ensures
            r == (match self@.ack {
                Some(ack) => Some(ack.ack_id),
                None => None,
            }),
    {
        match &self.ack_header {
            Some(h) => Some(h.ack_id()),
            None => None,
        }
    }

    /// The acks, if there is an ack header.
    pub fn acks(&self) -> (r: Option<Vec<(u16, bool)>>)
        requires
            self.wf(),
        ensures
            match r {
                Some(acks) => self@.ack matches Some(ack) && acks@ == ack.entries(),
                None => self@.ack is None,
            },
    {
        match self.ack_header {
            Some(h) => Some(h.into_acks()),
            None => None,
        }
    }

    /// The ack header.
    pub fn ack_header(&self) -> (r: Option<&AckHeader>)
        ensures
            match r {
                Some(h) => self.ack_header == Some(*h),
                None => self.ack_header is None,
            },
    {
        self.ack_header.as_ref()
    }

    /// How many bytes the header takes.
    pub fn size(&self) -> (r: usize)
        requires
            self.wf(),
        ensures
            r == self@.encoded().len(),
            r <= 55,
    {
        broadcast use wire::lemma_be_bytes_len;

        let ack_size: usize = match &self.ack_header {
            Some(h) => {
                proof {
                    h.lemma_wf();
                }
                h.size()
            },
            None => 0,
        };
        1 + 2 + ack_size
    }

    /// Writes the header.
    pub fn write(&self, writer: &mut WriteLimiter) -> (r: Result<(), PicklebackError>)
        requires
            self.wf(),
        ensures
            final(writer)@ == old(writer)@.after(self@.encoded()),
            r == cursor::write_result(self@.encoded().len(), old(writer)@.room),
    {
        let prefix = if self.ack_header.is_some() {
            // highest bit denotes presence of ack header
            self.packet_type.code() + 128
        } else {
            self.packet_type.code()
        };
        let ghost id_bytes = wire::be_bytes(self.id.0 as nat, 2);
        let ghost ack_bytes = match self@.ack {
            Some(ack) => ack.encoded(),
            None => Seq::empty(),
        };
        proof {
            wire::lemma_be_bytes_len(self.id.0 as nat, 2);
            let w = old(writer)@;
            w.lemma_after(seq![prefix], id_bytes);
            w.lemma_after(seq![prefix], id_bytes + ack_bytes);
            w.lemma_after(seq![prefix] + id_bytes, ack_bytes);
            assert(seq![prefix] + (id_bytes + ack_bytes) =~= seq![prefix] + id_bytes + ack_bytes);
            assert(self@.encoded() =~= seq![prefix] + id_bytes + ack_bytes);
        }
        writer.write_u8(prefix)?;
        writer.write_u16(self.id.0)?;
        match &self.ack_header {
            Some(h) => {
                let _ = h.write(writer)?;
            },
            None => {
                assert(seq![prefix] + id_bytes + ack_bytes =~= seq![prefix] + id_bytes);
            },
        }
        Ok(())
    }

    /// Reads the header at the cursor.
    pub fn parse(reader: &mut Cursor) -> (r: Result<Self, PicklebackError>)
        requires
            old(reader).wf(),
        ensures
            final(reader).wf(),
            final(reader).all() == old(reader).all(),
            match r {
                Ok(h) => {
                    &&& h.wf()
                    &&& parse_packet_header(old(reader).rest()) == Ok::<_, PicklebackError>(
                        (h@, final(reader).rest()),
                    )
                },
                Err(e) => parse_packet_header(old(reader).rest()) == Err::<
                    (HeaderView, Seq<u8>),
                    _,
                >(e),
            },
    {
        let prefix = reader.read_u8()?;
        let ack_header_present = prefix >= 128;
        let packet_type = PacketType::try_from(prefix % 128)?;
        let id = PacketId(reader.read_u16()?);
        let ack_header = if ack_header_present {
            Some(AckHeader::parse(reader)?)
        } else {
            None
        };
        Ok(ProtocolPacketHeader { packet_type, id, ack_header })
    }
}

/// What a packet holds besides its header.
#[verifier::ext_equal]
pub enum PacketBody {
    ConnectionRequest { client_salt: u64, protocol_version: u64 },
    ConnectionChallenge { client_salt: u64, server_salt: u64 },
    ConnectionChallengeResponse { xor_salt: u64 },
    ConnectionDenied { reason: DisconnectReason },
    Messages { xor_salt: u64 },
    Disconnect { xor_salt: u64 },
    KeepAlive { xor_salt: u64, client_index: u32 },
}

/// What a packet holds.
#[verifier::ext_equal]
pub struct PacketView {
    pub header: HeaderView,
    pub body: PacketBody,
}

impl PacketBody {
    /// The type of packet that has such a body.
    pub open spec fn packet_type(self) -> PacketType {
        match self {
            PacketBody::ConnectionRequest { .. } => PacketType::ConnectionRequest,
            PacketBody::ConnectionChallenge { .. } => PacketType::ConnectionChallenge,
            PacketBody::ConnectionChallengeResponse { .. } =>
                PacketType::ConnectionChallengeResponse,
            PacketBody::ConnectionDenied { .. } => PacketType::ConnectionDenied,
            PacketBody::Messages { .. } => PacketType::Messages,
            PacketBody::Disconnect { .. } => PacketType::Disconnect,
            PacketBody::KeepAlive { .. } => PacketType::KeepAlive,
        }
    }

    /// Whether zero bytes follow the body. They make the handshake cost the client as much as it
    /// costs the server.
    pub open spec fn padded(self) -> bool {
        self is ConnectionRequest || self is ConnectionChallenge
            || self is ConnectionChallengeResponse
    }

    /// The bytes that follow the body.
    pub open spec fn padding(self) -> Seq<u8> {
        if self.padded() {
            zeros(PADDING as nat)
        } else {
            Seq::empty()
        }
    }

    /// The bytes of the body, without what follows it.
    pub open spec fn encoded(self) -> Seq<u8> {
        match self {
            PacketBody::ConnectionRequest { client_salt, protocol_version } => wire::be_bytes(
                client_salt as nat,
                8,
            ) + wire::be_bytes(protocol_version as nat, 8),
            PacketBody::ConnectionChallenge { client_salt, server_salt } => wire::be_bytes(
                client_salt as nat,
                8,
            ) + wire::be_bytes(server_salt as nat, 8),
            PacketBody::ConnectionChallengeResponse { xor_salt } => wire::be_bytes(
                xor_salt as nat,
                8,
            ),
            PacketBody::ConnectionDenied { reason } => seq![reason.spec_code()],
            PacketBody::Messages { xor_salt } => wire::be_bytes(xor_salt as nat, 8),
            PacketBody::Disconnect { xor_salt } => wire::be_bytes(xor_salt as nat, 8),
            PacketBody::KeepAlive { xor_salt, client_index } => wire::be_bytes(xor_salt as nat, 8)
                + wire::be_bytes(client_index as nat, 4),
        }
    }
}

/// `len` zero bytes.
pub open spec fn zeros(len: nat) -> Seq<u8> {
    Seq::new(len, |i: int| 0u8)
}

impl PacketView {
    /// The bytes of the packet.
    pub open spec fn encoded(self) -> Seq<u8> {
        self.header.encoded() + self.body.encoded() + self.body.padding()
    }

    /// The header says what kind of body there is, and can be read back.
    pub open spec fn wf(self) -> bool {
        &&& self.header.packet_type == self.body.packet_type()
        &&& self.header.ack matches Some(ack) ==> ack.canonical()
    }
}

/// Two numbers of `a` and `b` bytes at the start of `s`.
pub open spec fn parse_pair(s: Seq<u8>, a: nat, b: nat) -> Parsed<(nat, nat)> {
    match cursor::parse_uint(s, a) {
        Err(e) => Err(e),
        Ok((x, s)) => match cursor::parse_uint(s, b) {
            Err(e) => Err(e),
            Ok((y, s)) => Ok(((x, y), s)),
        },
    }
}

/// The body of a packet of type `packet_type` at the start of `s`. Where padding belongs behind
/// it, as much as that must be left, and nothing else.
pub open spec fn parse_body(s: Seq<u8>, packet_type: PacketType) -> Parsed<PacketBody> {
    let parsed: Parsed<PacketBody> = match packet_type {
        PacketType::KeepAlive => match parse_pair(s, 8, 4) {
            Err(e) => Err(e),
            Ok(((x, y), s)) => Ok(
                (PacketBody::KeepAlive { xor_salt: x as u64, client_index: y as u32 }, s),
            ),
        },
        PacketType::ConnectionRequest => match parse_pair(s, 8, 8) {
            Err(e) => Err(e),
            Ok(((x, y), s)) => Ok(
                (
                    PacketBody::ConnectionRequest {
                        client_salt: x as u64,
                        protocol_version: y as u64,
                    },
                    s,
                ),
            ),
        },
        PacketType::ConnectionChallenge => match parse_pair(s, 8, 8) {
            Err(e) => Err(e),
            Ok(((x, y), s)) => Ok(
                (
                    PacketBody::ConnectionChallenge {
                        client_salt: x as u64,
                        server_salt: y as u64,
                    },
                    s,
                ),
            ),
        },
        PacketType::ConnectionChallengeResponse => match cursor::parse_uint(s, 8) {
            Err(e) => Err(e),
            Ok((x, s)) => Ok(
                (PacketBody::ConnectionChallengeResponse { xor_salt: x as u64 }, s),
            ),
        },
        PacketType::ConnectionDenied => match cursor::parse_u8(s) {
            Err(e) => Err(e),
            Ok((b, s)) => match DisconnectReason::of_code(b) {
                None => Err(PicklebackError::InvalidPacket),
                Some(reason) => Ok((PacketBody::ConnectionDenied { reason }, s)),
            },
        },
        PacketType::Messages => match cursor::parse_uint(s, 8) {
            Err(e) => Err(e),
            Ok((x, s)) => Ok((PacketBody::Messages { xor_salt: x as u64 }, s)),
        },
        PacketType::Disconnect => match cursor::parse_uint(s, 8) {
            Err(e) => Err(e),
            Ok((x, s)) => Ok((PacketBody::Disconnect { xor_salt: x as u64 }, s)),
        },
    };
    match parsed {
        Ok((body, s)) if body.padded() && s.len() != PADDING => Err(PicklebackError::InvalidPacket),
        p => p,
    }
}

/// The packet at the start of `s`.
pub open spec fn parse_packet(s: Seq<u8>) -> Parsed<PacketView> {
    match parse_packet_header(s) {
        Err(e) => Err(e),
        Ok((header, s)) => match parse_body(s, header.packet_type) {
            Err(e) => Err(e),
            Ok((body, s)) => Ok((PacketView { header, body }, s)),
        },
    }
}

/// Asks a server for a connection.
#[derive(Debug)]
pub struct ConnectionRequestPacket {
    pub header: ProtocolPacketHeader,
    pub client_salt: u64,
    pub protocol_version: u64,
}

/// Asks a client to show that it receives what is sent to it.
#[derive(Debug)]
pub struct ConnectionChallengePacket {
    pub header: ProtocolPacketHeader,
    pub client_salt: u64,
    pub server_salt: u64,
}

/// Shows a server that its challenge was received.
#[derive(Debug)]
pub struct ConnectionChallengeResponsePacket {
    pub header: ProtocolPacketHeader,
    pub xor_salt: u64,
}

/// Turns a client away.
#[derive(Debug)]
pub struct ConnectionDeniedPacket {
    pub header: ProtocolPacketHeader,
    pub reason: DisconnectReason,
}

/// Comes before the messages in a packet of messages.
#[derive(Debug)]
pub struct MessagesPacket {
    pub header: ProtocolPacketHeader,
    pub xor_salt: u64,
}

/// Ends a connection.
#[derive(Debug)]
pub struct DisconnectPacket {
    pub header: ProtocolPacketHeader,
    pub xor_salt: u64,
}

/// Keeps a connection from timing out.
#[derive(Debug)]
pub struct KeepAlivePacket {
    pub header: ProtocolPacketHeader,
    pub xor_salt: u64,
    pub client_index: u32,
}

/// A packet of any kind.
#[derive(Debug)]
pub enum ProtocolPacket {
    /// Client to server.
    ConnectionRequest(ConnectionRequestPacket),
    /// Server to client.
    ConnectionChallenge(ConnectionChallengePacket),
    /// Client to server.
    ConnectionChallengeResponse(ConnectionChallengeResponsePacket),
    /// Server to client.
    ConnectionDenied(ConnectionDeniedPacket),
    /// Either way.
    Messages(MessagesPacket),
    /// Either way: the server can kick you, or you can gracefully exit.
    Disconnect(DisconnectPacket),
    /// Either way.
    KeepAlive(KeepAlivePacket),
}

impl ProtocolPacket {
    /// The header of the packet.
    pub open spec fn header(self) -> ProtocolPacketHeader {
        match self {
            ProtocolPacket::ConnectionRequest(p) => p.header,
            ProtocolPacket::ConnectionChallenge(p) => p.header,
            ProtocolPacket::ConnectionChallengeResponse(p) => p.header,
            ProtocolPacket::ConnectionDenied(p) => p.header,
            ProtocolPacket::Messages(p) => p.header,
            ProtocolPacket::Disconnect(p) => p.header,
            ProtocolPacket::KeepAlive(p) => p.header,
        }
    }

    /// What the packet holds besides its header.
    pub open spec fn body(self) -> PacketBody {
        match self {
            ProtocolPacket::ConnectionRequest(p) => PacketBody::ConnectionRequest {
                client_salt: p.client_salt,
                protocol_version: p.protocol_version,
            },
            ProtocolPacket::ConnectionChallenge(p) => PacketBody::ConnectionChallenge {
                client_salt: p.client_salt,
                server_salt: p.server_salt,
            },
            ProtocolPacket::ConnectionChallengeResponse(p) =>
                PacketBody::ConnectionChallengeResponse { xor_salt: p.xor_salt },
            ProtocolPacket::ConnectionDenied(p) => PacketBody::ConnectionDenied {
                reason: p.reason,
            },
            ProtocolPacket::Messages(p) => PacketBody::Messages { xor_salt: p.xor_salt },
            ProtocolPacket::Disconnect(p) => PacketBody::Disconnect { xor_salt: p.xor_salt },
            ProtocolPacket::KeepAlive(p) => PacketBody::KeepAlive {
                xor_salt: p.xor_salt,
                client_index: p.client_index,
            },
        }
    }

    /// The kind of packet.
    pub fn packet_type(&self) -> (r: PacketType)
        ensures
            r == self.body().packet_type(),
    {
        match self {
            ProtocolPacket::ConnectionRequest(_) => PacketType::ConnectionRequest,
            ProtocolPacket::ConnectionChallenge(_) => PacketType::ConnectionChallenge,
            ProtocolPacket::ConnectionChallengeResponse(_) => {
                PacketType::ConnectionChallengeResponse
            },
            ProtocolPacket::ConnectionDenied(_) => PacketType::ConnectionDenied,
            ProtocolPacket::Messages(_) => PacketType::Messages,
            ProtocolPacket::Disconnect(_) => PacketType::Disconnect,
            ProtocolPacket::KeepAlive(_) => PacketType::KeepAlive,
        }
    }
}

impl View for ProtocolPacket {
    type V = PacketView;

    open spec fn view(&self) -> PacketView {
        PacketView { header: self.header()@, body: self.body() }
    }
}

/// Writes `num_bytes` zero bytes.
pub fn write_zero_bytes(writer: &mut WriteLimiter, num_bytes: usize) -> (r: Result<
    (),
    PicklebackError,
>)
    ensures
        final(writer)@ == old(writer)@.after(zeros(num_bytes as nat)),
        r == cursor::write_result(num_bytes as nat, old(writer)@.room),
{
    let mut buffer: Vec<u8> = Vec::with_capacity(num_bytes);
    buffer.resize(num_bytes, 0);
    assert(buffer@ =~= zeros(num_bytes as nat));
    writer.write_all(buffer.as_slice())
}

/// Writes two numbers of eight bytes, and the padding of the handshake.
fn write_salts(writer: &mut WriteLimiter, a: u64, b: u64) -> (r: Result<(), PicklebackError>)
    ensures
        final(writer)@ == old(writer)@.after(
            wire::be_bytes(a as nat, 8) + wire::be_bytes(b as nat, 8) + zeros(PADDING as nat),
        ),
        r == cursor::write_result((16 + PADDING) as nat, old(writer)@.room),
{
    broadcast use wire::lemma_be_bytes_len;

    let ghost (x, y) = (wire::be_bytes(a as nat, 8), wire::be_bytes(b as nat, 8));
    let ghost z = zeros(PADDING as nat);
    proof {
        let w = old(writer)@;
        w.lemma_after(x, y);
        w.lemma_after(x, y + z);
        w.lemma_after(x + y, z);
        assert(x + (y + z) =~= x + y + z);
    }
    writer.write_u64(a)?;
    writer.write_u64(b)?;
    write_zero_bytes(writer, PADDING)
}

/// Writes all of a packet behind its header.
fn write_body(writer: &mut WriteLimiter, packet: &ProtocolPacket) -> (r: Result<
    (),
    PicklebackError,
>)
    requires
        !(packet.body() is Messages),
    ensures
        final(writer)@ == old(writer)@.after(packet.body().encoded() + packet.body().padding()),
        r == cursor::write_result(
            packet.body().encoded().len() + packet.body().padding().len(),
            old(writer)@.room,
        ),
{
    broadcast use wire::lemma_be_bytes_len;

    let ghost (body, padding) = (packet.body().encoded(), packet.body().padding());
    let ghost w = old(writer)@;
    match packet {
        ProtocolPacket::KeepAlive(p) => {
            proof {
                let (x, y) = (
                    wire::be_bytes(p.xor_salt as nat, 8),
                    wire::be_bytes(p.client_index as nat, 4),
                );
                w.lemma_after(x, y);
                assert(body + padding =~= x + y);
            }
            writer.write_u64(p.xor_salt)?;
            writer.write_u32(p.client_index)
        },
        ProtocolPacket::ConnectionRequest(p) => {
            write_salts(writer, p.client_salt, p.protocol_version)
        },
        ProtocolPacket::ConnectionChallenge(p) => {
            write_salts(writer, p.client_salt, p.server_salt)
        },
        ProtocolPacket::ConnectionChallengeResponse(p) => {
            proof {
                w.lemma_after(body, padding);
            }
            writer.write_u64(p.xor_salt)?;
            write_zero_bytes(writer, PADDING)
        },
        ProtocolPacket::ConnectionDenied(p) => {
            assert(body + padding =~= body);
            writer.write_u8(p.reason.code())
        },
        ProtocolPacket::Disconnect(p) => {
            assert(body + padding =~= body);
            writer.write_u64(p.xor_salt)
        },
        ProtocolPacket::Messages(_) => {
            // written together with its messages
            Ok(())
        },
    }
}

/// Writes a packet to a buffer from the pool. Fails where it has more than `max_packet_size`
/// bytes. A packet of messages is written elsewhere, together with its messages.
pub fn write_packet(
    pool: &mut BufPool,
    config: &PicklebackConfig,
    packet: ProtocolPacket,
) -> (r: Result<PooledBuffer, PicklebackError>)
    requires
        buffer_pool::usable(old(pool)@),
        packet.header().wf(),
        !(packet@.body is Messages),
    ensures
        final(pool)@ == buffer_pool::after_get(old(pool)@, config.max_packet_size as nat),
        final(pool)@.len() == old(pool)@.len(),
        buffer_pool::usable(final(pool)@),
        match r {
            Ok(buffer) => {
                &&& packet@.encoded().len() <= config.max_packet_size
                &&& buffer@ == packet@.encoded()
            },
            Err(e) => {
                &&& packet@.encoded().len() > config.max_packet_size
                &&& e == PicklebackError::Io(IoError::WriteZero)
            },
        },
{
    let max_packet_size = config.max_packet_size;
    let buffer = pool.get_buffer(max_packet_size);
    let id = buffer.id;
    let mut writer = BufferLimitedWriter::new(buffer.v, max_packet_size);
    let ghost (h, b) = (packet@.header.encoded(), packet@.body.encoded() + packet@.body.padding());
    proof {
        writer@.lemma_after(h, b);
        writer@.lemma_after(h + b, Seq::empty());
        assert(packet@.encoded() =~= h + b);
        assert(writer@.out + (h + b) =~= h + b);
    }
    match &packet {
        ProtocolPacket::ConnectionRequest(p) => p.header.write(&mut writer)?,
        ProtocolPacket::ConnectionChallenge(p) => p.header.write(&mut writer)?,
        ProtocolPacket::ConnectionChallengeResponse(p) => p.header.write(&mut writer)?,
        ProtocolPacket::ConnectionDenied(p) => p.header.write(&mut writer)?,
        ProtocolPacket::Messages(p) => p.header.write(&mut writer)?,
        ProtocolPacket::Disconnect(p) => p.header.write(&mut writer)?,
        ProtocolPacket::KeepAlive(p) => p.header.write(&mut writer)?,
    }
    write_body(&mut writer, &packet)?;
    Ok(PooledBuffer::new(id, writer.into_inner()))
}

/// Reads the packet at the cursor. The messages of a packet of messages are left for the caller to
/// read.
pub fn read_packet(reader: &mut Cursor) -> (r: Result<ProtocolPacket, PicklebackError>)
    requires
        old(reader).wf(),
    ensures
        final(reader).wf(),
        final(reader).all() == old(reader).all(),
        match r {
            Ok(p) => {
                &&& p.header().wf()
                &&& parse_packet(old(reader).rest()) == Ok::<_, PicklebackError>(
                    (p@, final(reader).rest()),
                )
            },
            Err(e) => parse_packet(old(reader).rest()) == Err::<(PacketView, Seq<u8>), _>(e),
        },
{
    let header = ProtocolPacketHeader::parse(reader)?;
    match header.packet_type {
        PacketType::KeepAlive => {
            let xor_salt = reader.read_u64()?;
            let client_index = reader.read_u32()?;
            Ok(ProtocolPacket::KeepAlive(KeepAlivePacket { header, xor_salt, client_index }))
        },
        PacketType::ConnectionRequest => {
            let client_salt = reader.read_u64()?;
            let protocol_version = reader.read_u64()?;
            if reader.remaining() != 500 {
                return Err(PicklebackError::InvalidPacket);
            }
            Ok(
                ProtocolPacket::ConnectionRequest(
                    ConnectionRequestPacket { header, client_salt, protocol_version },
                ),
            )
        },
        PacketType::ConnectionChallenge => {
            let client_salt = reader.read_u64()?;
            let server_salt = reader.read_u64()?;
            if reader.remaining() != 500 {
                return Err(PicklebackError::InvalidPacket);
            }
            Ok(
                ProtocolPacket::ConnectionChallenge(
                    ConnectionChallengePacket { header, client_salt, server_salt },
                ),
            )
        },
        PacketType::ConnectionChallengeResponse => {
            let xor_salt = reader.read_u64()?;
            if reader.remaining() != 500 {
                return Err(PicklebackError::InvalidPacket);
            }
            Ok(
                ProtocolPacket::ConnectionChallengeResponse(
                    ConnectionChallengeResponsePacket { header, xor_salt },
                ),
            )
        },
        PacketType::ConnectionDenied => {
            let code = reader.read_u8()?;
            let reason = DisconnectReason::try_from(code)?;
            Ok(ProtocolPacket::ConnectionDenied(ConnectionDeniedPacket { header, reason }))
        },
        PacketType::Messages => {
            let xor_salt = reader.read_u64()?;
            Ok(ProtocolPacket::Messages(MessagesPacket { header, xor_salt }))
        },
        PacketType::Disconnect => {
            let xor_salt = reader.read_u64()?;
            Ok(ProtocolPacket::Disconnect(DisconnectPacket { header, xor_salt }))
        },
    }
}

/// Parsing what was written of a header gives back the header and what follows it.
pub proof fn lemma_parse_packet_header(h: HeaderView, rest: Seq<u8>)
    requires
        h.ack matches Some(ack) ==> ack.canonical(),
    ensures
        parse_packet_header(h.encoded() + rest) == Ok::<_, PicklebackError>((h, rest)),
{
    wire::lemma_be_bytes_len(h.id.0 as nat, 2);
    wire::lemma_be_round_trip_fixed(h.id.0, 0, 0);
    let s = h.encoded() + rest;
    let ack_bytes = match h.ack {
        Some(ack) => ack.encoded(),
        None => Seq::empty(),
    };
    assert(s.skip(1) =~= wire::be_bytes(h.id.0 as nat, 2) + (ack_bytes + rest));
    cursor::lemma_parse_uint(h.id.0 as nat, 2, ack_bytes + rest);
    match h.ack {
        Some(ack) => {
            ack_header::lemma_parse_ack_field(ack, rest);
        },
        None => {
            assert(ack_bytes + rest =~= rest);
        },
    }
}

proof fn lemma_parse_pair(x: nat, a: nat, y: nat, b: nat, rest: Seq<u8>)
    requires
        wire::be_nat(wire::be_bytes(x, a)) == x,
        wire::be_nat(wire::be_bytes(y, b)) == y,
    ensures
        parse_pair(wire::be_bytes(x, a) + wire::be_bytes(y, b) + rest, a, b) == Ok::<
            _,
            PicklebackError,
        >(((x, y), rest)),
{
    cursor::lemma_parse_uint(x, a, wire::be_bytes(y, b) + rest);
    cursor::lemma_parse_uint(y, b, rest);
    assert(wire::be_bytes(x, a) + (wire::be_bytes(y, b) + rest) =~= wire::be_bytes(x, a)
        + wire::be_bytes(y, b) + rest);
}

/// Reading a packet that was written gives back the packet, with the padding, if it has any, left
/// over.
pub proof fn lemma_parse_packet(p: PacketView)
    requires
        p.wf(),
    ensures
        parse_packet(p.encoded()) == Ok::<_, PicklebackError>((p, p.body.padding())),
{
    let rest = p.body.padding();
    lemma_parse_packet_header(p.header, p.body.encoded() + rest);
    assert(p.encoded() =~= p.header.encoded() + (p.body.encoded() + rest));
    match p.body {
        PacketBody::ConnectionRequest { client_salt: a, protocol_version: b } => {
            wire::lemma_be_round_trip_fixed(0, 0, a);
            wire::lemma_be_round_trip_fixed(0, 0, b);
            lemma_parse_pair(a as nat, 8, b as nat, 8, rest);
        },
        PacketBody::ConnectionChallenge { client_salt: a, server_salt: b } => {
            wire::lemma_be_round_trip_fixed(0, 0, a);
            wire::lemma_be_round_trip_fixed(0, 0, b);
            lemma_parse_pair(a as nat, 8, b as nat, 8, rest);
        },
        PacketBody::KeepAlive { xor_salt: a, client_index: b } => {
            wire::lemma_be_round_trip_fixed(0, b, a);
            lemma_parse_pair(a as nat, 8, b as nat, 4, rest);
        },
        PacketBody::ConnectionDenied { reason } => {
            reason.lemma_code(reason.spec_code());
            assert((p.body.encoded() + rest).skip(1) =~= rest);
        },
        PacketBody::ConnectionChallengeResponse { xor_salt: a } => {
            wire::lemma_be_round_trip_fixed(0, 0, a);
            cursor::lemma_parse_uint(a as nat, 8, rest);
        },
        PacketBody::Messages { xor_salt: a } => {
            wire::lemma_be_round_trip_fixed(0, 0, a);
            cursor::lemma_parse_uint(a as nat, 8, rest);
        },
        PacketBody::Disconnect { xor_salt: a } => {
            wire::lemma_be_round_trip_fixed(0, 0, a);
            cursor::lemma_parse_uint(a as nat, 8, rest);
        },
    }
}

/// Reading a packet of messages gives back its header and salt, with the messages left over.
pub proof fn lemma_parse_messages(header: HeaderView, xor_salt: u64, messages: Seq<u8>)
    requires
        header.packet_type == PacketType::Messages,
        header.ack matches Some(ack) ==> ack.canonical(),
    ensures
        parse_packet(header.encoded() + wire::be_bytes(xor_salt as nat, 8) + messages) == Ok::<
            _,
            PicklebackError,
        >((PacketView { header, body: PacketBody::Messages { xor_salt } }, messages)),
{
    let salt = wire::be_bytes(xor_salt as nat, 8);
    lemma_parse_packet_header(header, salt + messages);
    assert(header.encoded() + salt + messages =~= header.encoded() + (salt + messages));
    wire::lemma_be_round_trip_fixed(0, 0, xor_salt);
    cursor::lemma_parse_uint(xor_salt as nat, 8, messages);
}

} // verus!
