//! What holds of a protocol server and its clients: who is sent what, and who hears what.

use super::client::{ClientState, DisconnectReason, ProtocolClientView};
use super::packets::{self, AddressedView, PacketBody, PacketView};
use super::server::{self, ProtocolServerView, SessionView};
use crate::address::PeerAddr;
use crate::delivery;
use crate::endpoint::EndpointView;
use crate::error::PicklebackError;
use crate::server::{PendingView, ServerView};
use crate::sessions::{
    all_sent, has_asked, is_challenged, lemma_find_asked, lemma_find_challenged, not_challenged,
    stands_at,
};
use crate::time::{self, Time};
use crate::upkeep::{self, collected_for, reads_body};
use vstd::prelude::*;

verus! {

/// Whether client number `i` is the first that is connected with this salt and address.
pub open spec fn is_session(
    connected: Seq<SessionView>,
    i: int,
    xor_salt: u64,
    addr: PeerAddr,
) -> bool {
    &&& 0 <= i < connected.len()
    &&& connected[i].xor_salt == xor_salt
    &&& connected[i].socket_addr == addr
    &&& forall|j: int|
        0 <= j < i ==> (#[trigger] connected[j]).xor_salt != xor_salt || connected[j].socket_addr
            != addr
}

/// Whether nobody is connected with this salt and address.
pub open spec fn no_session(connected: Seq<SessionView>, xor_salt: u64, addr: PeerAddr) -> bool {
    forall|j: int|
        0 <= j < connected.len() ==> (#[trigger] connected[j]).xor_salt != xor_salt
            || connected[j].socket_addr != addr
}

proof fn lemma_find_session(
    connected: Seq<SessionView>,
    i: int,
    xor_salt: u64,
    addr: PeerAddr,
    from: int,
)
    requires
        0 <= from,
    ensures
        is_session(connected, i, xor_salt, addr) && from <= i ==> server::find_session(
            connected,
            xor_salt,
            addr,
            from,
        ) == Some(i),
        no_session(connected, xor_salt, addr) ==> server::find_session(
            connected,
            xor_salt,
            addr,
            from,
        ) is None,
    decreases connected.len() - from,
{
    if from < connected.len() {
        lemma_find_session(connected, i, xor_salt, addr, from + 1);
    }
}

/// A packet of messages with the salt and from the address of a connected client is handed to that
/// client's endpoint, with all that stands behind the header. The client has been heard of. No
/// other client is affected, nor anything else.
pub proof fn lemma_server_hears(
    s: ProtocolServerView,
    bytes: Seq<u8>,
    addr: PeerAddr,
    salt: u64,
    i: int,
    packet: PacketView,
    rest: Seq<u8>,
    xor_salt: u64,
)
    requires
        packets::parse_packet(bytes) == Ok::<_, PicklebackError>((packet, rest)),
        packet.body == (PacketBody::Messages { xor_salt }),
        is_session(s.connected, i, xor_salt, addr),
    ensures
        ({
            let next = s.received(bytes, addr, salt).state;
            let o = s.connected[i].endpoint.packet_received(packet.header, rest);
            &&& s.received(bytes, addr, salt).result == o.result
            &&& next.connected.len() == s.connected.len()
            &&& next.connected[i] == SessionView {
                endpoint: o.state,
                last_received_time: s.time,
                ..s.connected[i]
            }
            &&& forall|j: int|
                0 <= j < s.connected.len() && j != i ==> #[trigger] next.connected[j]
                    == s.connected[j]
            &&& next.pending == s.pending
            &&& next.outbox == s.outbox
            &&& next.time == s.time
        }),
{
    lemma_find_session(s.connected, i, xor_salt, addr, 0);
}

/// A client that says that its connection is over is no longer connected. All others stay.
pub proof fn lemma_server_lets_go(
    s: ProtocolServerView,
    bytes: Seq<u8>,
    addr: PeerAddr,
    salt: u64,
    i: int,
    packet: PacketView,
    rest: Seq<u8>,
    xor_salt: u64,
)
    requires
        packets::parse_packet(bytes) == Ok::<_, PicklebackError>((packet, rest)),
        packet.body == (PacketBody::Disconnect { xor_salt }),
        is_session(s.connected, i, xor_salt, addr),
    ensures
        ({
            let next = s.received(bytes, addr, salt).state;
            &&& s.received(bytes, addr, salt).result is Ok
            &&& next.connected.len() == s.connected.len() - 1
            &&& forall|j: int| 0 <= j < i ==> #[trigger] next.connected[j] == s.connected[j]
            &&& forall|j: int|
                i <= j < next.connected.len() ==> #[trigger] next.connected[j] == s.connected[j + 1]
            &&& next.pending == s.pending
            &&& next.outbox == s.outbox
            &&& next.time == s.time
        }),
{
    lemma_find_session(s.connected, i, xor_salt, addr, 0);
}

/// Packets of messages, and the news that a connection is over, change nothing if they are from
/// anybody who is not connected. Neither do packets that only a server sends, nor what cannot be
/// read.
pub proof fn lemma_server_ignores(s: ProtocolServerView, bytes: Seq<u8>, addr: PeerAddr, salt: u64)
    ensures
        packets::parse_packet(bytes) matches Err(e) ==> s.received(bytes, addr, salt).state == s
            && s.received(bytes, addr, salt).result == Err::<(), _>(e),
        packets::parse_packet(bytes) matches Ok((p, _)) ==> (p.body is ConnectionChallenge
            || p.body is ConnectionDenied || p.body is KeepAlive) ==> s.received(
            bytes,
            addr,
            salt,
        ).state == s && s.received(bytes, addr, salt).result is Ok,
        packets::parse_packet(bytes) matches Ok((p, _)) ==> (p.body matches PacketBody::Messages {
            xor_salt,
        } ==> no_session(s.connected, xor_salt, addr) ==> s.received(bytes, addr, salt).state == s
            && s.received(bytes, addr, salt).result is Ok),
        packets::parse_packet(bytes) matches Ok((p, _)) ==> (p.body matches PacketBody::Disconnect {
            xor_salt,
        } ==> no_session(s.connected, xor_salt, addr) ==> s.received(bytes, addr, salt).state == s
            && s.received(bytes, addr, salt).result is Ok),
{
    if let Ok((p, _)) = packets::parse_packet(bytes) {
        match p.body {
            PacketBody::Messages { xor_salt } => {
                lemma_find_session(s.connected, 0, xor_salt, addr, 0);
            },
            PacketBody::Disconnect { xor_salt } => {
                lemma_find_session(s.connected, 0, xor_salt, addr, 0);
            },
            _ => {},
        }
    }
}

/// A connected client hands packets of messages with the salt of its connection to its endpoint,
/// with all that stands behind the header, and stays connected. Packets with another salt it
/// ignores.
pub proof fn lemma_client_hears(
    c: ProtocolClientView,
    bytes: Seq<u8>,
    packet: PacketView,
    rest: Seq<u8>,
    xor_salt: u64,
)
    requires
        packets::parse_packet(bytes) == Ok::<_, PicklebackError>((packet, rest)),
        packet.body == (PacketBody::Messages { xor_salt }),
        c.state is Connected,
    ensures
        ({
            let o = c.endpoint.packet_received(packet.header, rest);
            let known = c.xor_salt == Some(xor_salt);
            &&& c.received(bytes).state == ProtocolClientView {
                endpoint: if known {
                    o.state
                } else {
                    c.endpoint
                },
                last_receive_time: c.time,
                ..c
            }
            &&& known ==> c.received(bytes).result == o.result
            &&& !known ==> c.received(bytes).result is Ok
        }),
{
}

/// A client that was challenged for its own request answers from then on, with a salt made of both.
/// A keep alive with that salt connects it, and if it is turned away it is disconnected.
pub proof fn lemma_client_handshake(
    c: ProtocolClientView,
    bytes: Seq<u8>,
    packet: PacketView,
    rest: Seq<u8>,
)
    requires
        packets::parse_packet(bytes) == Ok::<_, PicklebackError>((packet, rest)),
    ensures
        ({
            let next = c.received(bytes).state;
            &&& next.last_receive_time == c.time
            &&& next.client_salt == c.client_salt
            &&& next.out_buffer == c.out_buffer
            &&& packet.body matches PacketBody::ConnectionChallenge { client_salt, server_salt }
                ==> c.state is SendingConnectionRequest ==> {
                &&& c.client_salt == Some(client_salt) ==> next.state is SendingChallengeResponse
                    && next.server_salt == Some(server_salt) && next.xor_salt == Some(
                    client_salt ^ server_salt,
                ) && c.received(bytes).result is Ok
                &&& c.client_salt != Some(client_salt) ==> next.state == c.state && next.xor_salt
                    == c.xor_salt && c.received(bytes).result == Err::<(), _>(
                    PicklebackError::InvalidPacket,
                )
            }
            &&& packet.body matches PacketBody::KeepAlive { xor_salt, client_index: _ }
                ==> c.state is SendingChallengeResponse ==> {
                &&& c.xor_salt == Some(xor_salt) ==> next.state is Connected
                    && next.endpoint.xor_salt == Some(xor_salt) && next.xor_salt == c.xor_salt
                &&& c.xor_salt != Some(xor_salt) ==> next.state == c.state
            }
            &&& packet.body is ConnectionDenied ==> (c.state is SendingConnectionRequest
                || c.state is SendingChallengeResponse) ==> (next.state
                matches ClientState::Disconnected(DisconnectReason::ServerDenied(_))
                && next.xor_salt is None && next.server_salt is None)
            &&& packet.body is ConnectionRequest || packet.body is ConnectionChallengeResponse
                || packet.body is Disconnect ==> next == (ProtocolClientView {
                last_receive_time: c.time,
                ..c
            })
        }),
{
    if let PacketBody::ConnectionChallenge { client_salt, server_salt } = packet.body {
        assert(server_salt ^ client_salt == client_salt ^ server_salt) by (bit_vector);
    }
}

/// As time passes, a client that has received nothing for more than 5 seconds is disconnected. Any
/// other client just has its clock moved on.
pub proof fn lemma_client_tick(c: ProtocolClientView, dt: Time)
    requires
        i64::MIN <= c.time + dt <= i64::MAX,
    ensures
        ({
            let next = c.updated(dt);
            let lost = !(c.state is Disconnected) && c.time + dt - c.last_receive_time
                > 5_000_000_000;
            &&& next.time == c.time + dt
            &&& lost ==> next.state == ClientState::Disconnected(DisconnectReason::TimedOut)
            &&& !lost ==> next.state == c.state && next.proto_last_send == c.proto_last_send
                && next.endpoint == c.endpoint.updated(dt)
            &&& next.client_salt == c.client_salt
            &&& next.server_salt == c.server_salt
            &&& next.xor_salt == c.xor_salt
            &&& next.out_buffer == c.out_buffer
            &&& next.last_receive_time == c.last_receive_time
            &&& next.last_send_time == c.last_send_time
            &&& next.server_addr == c.server_addr
        }),
{
}

/// Whether `next` is `c` after a packet with this body was put behind those to be sent to its
/// server. The packet is read as what it is at the other end, with the next number.
pub open spec fn sends(c: ProtocolClientView, next: ProtocolClientView, body: PacketBody) -> bool {
    &&& next.out_buffer.len() == c.out_buffer.len() + 1
    &&& c.out_buffer.is_prefix_of(next.out_buffer)
    &&& next.out_buffer.last().address == c.server_addr
    &&& packets::parse_packet(next.out_buffer.last().bytes) matches Ok((p, _)) && p.body == body
        && p.header.id.0 == c.endpoint.sequence_id.wrapping_add(1)
    &&& next == ProtocolClientView {
        out_buffer: next.out_buffer,
        last_send_time: c.time,
        endpoint: EndpointView {
            sequence_id: c.endpoint.sequence_id.wrapping_add(1),
            ..c.endpoint
        },
        ..c
    }
}

proof fn lemma_encoded_len(e: EndpointView, body: PacketBody)
    requires
        e.received_unacked() <= 350,
    ensures
        ({
            let header = e.header(body.packet_type())->Ok_0;
            &&& e.header(body.packet_type()) is Ok
            &&& header.id.0 == e.sequence_id
            &&& PacketView { header, body }.encoded().len() <= 571
            &&& packets::parse_packet(PacketView { header, body }.encoded()) == Ok::<
                _,
                PicklebackError,
            >((PacketView { header, body }, body.padding()))
        }),
{
    let header = e.header(body.packet_type())->Ok_0;
    upkeep::lemma_body_len(e, body);
    delivery::lemma_header(e, body.packet_type());
    packets::lemma_parse_packet(PacketView { header, body });
}

proof fn lemma_sends(c: ProtocolClientView, body: PacketBody)
    requires
        c.endpoint.received_unacked() <= 350,
    ensures
        c.next_sent(body).result is Ok,
        sends(c, c.next_sent(body).state, body),
        c.next_sent(body).state.endpoint.received_unacked() <= 350,
{
    lemma_encoded_len(c.endpoint.next_begun(), body);
}

/// A client in the handshake puts what the state calls for with the packets to be sent once more
/// than 100 ms have passed since it did last, and not before.
pub proof fn lemma_client_shakes_hands(c: ProtocolClientView)
    requires
        c.endpoint.received_unacked() <= 350,
        c.state is SendingConnectionRequest || c.state is SendingChallengeResponse,
    ensures
        ({
            let next = c.composed().state;
            let due = c.time - c.proto_last_send > 100_000_000;
            let body = if c.state is SendingConnectionRequest {
                PacketBody::ConnectionRequest {
                    client_salt: c.client_salt->0,
                    protocol_version: 1,
                }
            } else {
                PacketBody::ConnectionChallengeResponse { xor_salt: c.xor_salt->0 }
            };
            &&& c.composed().result is Ok
            &&& due ==> sends(ProtocolClientView { proto_last_send: c.time, ..c }, next, body)
            &&& !due ==> next == c
        }),
{
    let now = ProtocolClientView { proto_last_send: c.time, ..c };
    if c.state is SendingConnectionRequest {
        lemma_sends(
            now,
            PacketBody::ConnectionRequest { client_salt: c.client_salt->0, protocol_version: 1 },
        );
    } else {
        lemma_sends(
            now,
            PacketBody::ConnectionChallengeResponse { xor_salt: c.xor_salt->0 },
        );
    }
}

/// A connected client sends its server all that its endpoint has to send. Where there is nothing
/// to be sent at all, and nothing was for 100 ms, it sends a keep alive.
pub proof fn lemma_client_talks(c: ProtocolClientView, xor_salt: u64)
    requires
        c.state is Connected,
        c.xor_salt == Some(xor_salt),
        c.endpoint.drained().2 is None,
    ensures
        ({
            let (endpoint, sent, _) = c.endpoint.drained();
            let next = c.composed().state;
            let idle = c.out_buffer.len() == 0 && sent.len() == 0 && c.time - c.last_send_time
                >= 100_000_000;
            &&& !idle ==> {
                &&& c.composed().result is Ok
                &&& next == ProtocolClientView { endpoint, out_buffer: next.out_buffer, ..c }
                &&& next.out_buffer.len() == c.out_buffer.len() + sent.len()
                &&& c.out_buffer.is_prefix_of(next.out_buffer)
                &&& stands_at(
                    next.out_buffer,
                    c.out_buffer.len() as int,
                    c.server_addr,
                    sent,
                )
            }
            &&& idle && endpoint.received_unacked() <= 350 ==> {
                &&& c.composed().result is Ok
                &&& sends(
                    ProtocolClientView { endpoint, ..c },
                    next,
                    PacketBody::KeepAlive { xor_salt, client_index: 0 },
                )
            }
        }),
{
    let (endpoint, sent, _) = c.endpoint.drained();
    let next = c.composed().state;
    let drained = c.endpoint_drained().state;
    if endpoint.received_unacked() <= 350 {
        lemma_sends(drained, PacketBody::KeepAlive { xor_salt, client_index: 0 });
    }
    assert forall|k: int| 0 <= k < sent.len() implies (
    #[trigger] drained.out_buffer[c.out_buffer.len() + k]).address == c.server_addr
        && drained.out_buffer[c.out_buffer.len() + k].bytes == sent[k] by {
        assert(drained.out_buffer[c.out_buffer.len() + k] == packets::addressed(
            c.server_addr,
            sent,
        )[k]);
    }
    if sent.len() == 0 && c.out_buffer.len() == 0 {
        assert(drained.out_buffer =~= c.out_buffer);
    }
}

proof fn lemma_disconnects(c: ProtocolClientView, n: nat)
    requires
        c.endpoint.received_unacked() <= 350,
    ensures
        ({
            let told = c.disconnects_sent(n).state;
            let body = PacketBody::Disconnect { xor_salt: c.xor_salt->0 };
            &&& c.disconnects_sent(n).result is Ok
            &&& told.endpoint.received_unacked() <= 350
            &&& told == ProtocolClientView {
                endpoint: told.endpoint,
                out_buffer: told.out_buffer,
                last_send_time: told.last_send_time,
                ..c
            }
            &&& told.out_buffer.len() == c.out_buffer.len() + n
            &&& c.out_buffer.is_prefix_of(told.out_buffer)
            &&& forall|i: int|
                c.out_buffer.len() <= i < told.out_buffer.len() ==> reads_body(
                    (#[trigger] told.out_buffer[i]).bytes,
                    body,
                ) && told.out_buffer[i].address == c.server_addr
        }),
    decreases n,
{
    if n > 0 {
        lemma_disconnects(c, (n - 1) as nat);
        let before = c.disconnects_sent((n - 1) as nat).state;
        let told = c.disconnects_sent(n).state;
        let body = PacketBody::Disconnect { xor_salt: c.xor_salt->0 };
        lemma_sends(before, body);
        assert forall|i: int| c.out_buffer.len() <= i < told.out_buffer.len() implies reads_body(
            (#[trigger] told.out_buffer[i]).bytes,
            body,
        ) && told.out_buffer[i].address == c.server_addr by {
            if i < before.out_buffer.len() {
                assert(told.out_buffer[i] == before.out_buffer[i]);
            }
        }
    }
}

/// A client on its way out tells its server ten times that the connection is over, and forgets the
/// salts of the connection.
pub proof fn lemma_client_leaves(c: ProtocolClientView, xor_salt: u64)
    requires
        c.endpoint.received_unacked() <= 350,
        c.state is SelfInitiatedDisconnect,
        c.xor_salt == Some(xor_salt),
    ensures
        ({
            let next = c.composed().state;
            &&& c.composed().result is Ok
            &&& next.out_buffer.len() == c.out_buffer.len() + 10
            &&& c.out_buffer.is_prefix_of(next.out_buffer)
            &&& forall|i: int|
                c.out_buffer.len() <= i < next.out_buffer.len() ==> reads_body(
                    (#[trigger] next.out_buffer[i]).bytes,
                    PacketBody::Disconnect { xor_salt },
                ) && next.out_buffer[i].address == c.server_addr
            &&& next.client_salt is None
            &&& next.server_salt is None
            &&& next.xor_salt is None
            &&& next.state == c.state
        }),
{
    lemma_disconnects(c, 10);
}

/// A server that was asked for a connection has one more pending client, with the salt made up for
/// it, unless that client has asked before. A client that speaks another version of the protocol is
/// turned away.
pub proof fn lemma_server_asked(
    s: ProtocolServerView,
    bytes: Seq<u8>,
    addr: PeerAddr,
    salt: u64,
    packet: PacketView,
    rest: Seq<u8>,
    client_salt: u64,
    protocol_version: u64,
)
    requires
        packets::parse_packet(bytes) == Ok::<_, PicklebackError>((packet, rest)),
        packet.body == (PacketBody::ConnectionRequest { client_salt, protocol_version }),
    ensures
        ({
            let next = s.received(bytes, addr, salt).state;
            let p = next.pending.last();
            let new = protocol_version == 1 && !has_asked(s.pending, client_salt, addr);
            &&& s.received(bytes, addr, salt).result is Ok
            &&& next.connected == s.connected
            &&& next.time == s.time
            &&& new ==> {
                &&& next.pending.len() == s.pending.len() + 1
                &&& s.pending.is_prefix_of(next.pending)
                &&& p.client_salt == client_salt
                &&& p.server_salt == salt
                &&& p.socket_addr == addr
                &&& p.first_requested_time == s.time
                &&& p.last_challenged_at == 0
            }
            &&& !new ==> next.pending == s.pending
            &&& protocol_version == 1 ==> next.outbox == s.outbox
            &&& protocol_version != 1 ==> turned_away(s, next, addr)
        }),
{
    lemma_find_asked(s.pending, client_salt, addr, 0);
    lemma_turned_away(s, addr);
}

/// A pending client that answers with the salt made of both is no longer pending but connected. All
/// others stay. Who was not asked is turned away.
pub proof fn lemma_server_answered(
    s: ProtocolServerView,
    bytes: Seq<u8>,
    addr: PeerAddr,
    salt: u64,
    i: int,
    packet: PacketView,
    rest: Seq<u8>,
    xor_salt: u64,
)
    requires
        packets::parse_packet(bytes) == Ok::<_, PicklebackError>((packet, rest)),
        packet.body == (PacketBody::ConnectionChallengeResponse { xor_salt }),
    ensures
        ({
            let next = s.received(bytes, addr, salt).state;
            &&& s.received(bytes, addr, salt).result is Ok
            &&& next.time == s.time
            &&& is_challenged(s.pending, i, xor_salt, addr) ==> {
                let c = next.connected.last();
                &&& next.outbox == s.outbox
                &&& next.pending.len() == s.pending.len() - 1
                &&& forall|j: int| 0 <= j < i ==> #[trigger] next.pending[j] == s.pending[j]
                &&& forall|j: int|
                    i <= j < next.pending.len() ==> #[trigger] next.pending[j] == s.pending[j + 1]
                &&& next.connected.len() == s.connected.len() + 1
                &&& s.connected.is_prefix_of(next.connected)
                &&& c.xor_salt == xor_salt
                &&& c.client_salt == s.pending[i].client_salt
                &&& c.server_salt == s.pending[i].server_salt
                &&& c.socket_addr == addr
                &&& c.last_received_time == s.time
                &&& c.last_sent_time == s.time
                &&& c.endpoint == EndpointView {
                    xor_salt: Some(xor_salt),
                    ..s.pending[i].endpoint
                }
            }
            &&& not_challenged(s.pending, xor_salt, addr) ==> {
                &&& next.pending == s.pending
                &&& next.connected == s.connected
                &&& turned_away(s, next, addr)
            }
        }),
{
    lemma_find_challenged(s.pending, i, xor_salt, addr, 0);
    lemma_turned_away(s, addr);
}

/// Whether a client was told, behind all that was to be sent before, that it is turned away.
pub open spec fn turned_away(
    s: ProtocolServerView,
    next: ProtocolServerView,
    addr: PeerAddr,
) -> bool {
    &&& next.outbox.len() == s.outbox.len() + 1
    &&& s.outbox.is_prefix_of(next.outbox)
    &&& next.outbox.last().address == addr
    &&& packets::parse_packet(next.outbox.last().bytes) matches Ok((p, _)) && p.body
        is ConnectionDenied
}

proof fn lemma_turned_away(s: ProtocolServerView, addr: PeerAddr)
    ensures
        ({
            let p = ServerView::denial(super::DisconnectReason::Normal);
            let next = s.packet_sent(addr, p).state;
            &&& s.packet_sent(addr, p).result is Ok
            &&& turned_away(s, next, addr)
        }),
{
    broadcast use crate::wire::lemma_be_bytes_len;

    let p = ServerView::denial(super::DisconnectReason::Normal);
    packets::lemma_parse_packet(p);
    assert(p.encoded().len() == 4);
}

proof fn lemma_collected_more(
    a: Seq<AddressedView>,
    b: Seq<AddressedView>,
    addr: PeerAddr,
    body: PacketBody,
)
    requires
        a.is_prefix_of(b),
        collected_for(a, addr, body),
    ensures
        collected_for(b, addr, body),
{
    let i = choose|i: int|
        0 <= i < a.len() && #[trigger] reads_body(a[i].bytes, body) && a[i].address == addr;
    assert(b[i] == a[i]);
    assert(reads_body(b[i].bytes, body));
}

proof fn lemma_sent_more(
    a: Seq<AddressedView>,
    b: Seq<AddressedView>,
    addr: PeerAddr,
    bytes: Seq<Seq<u8>>,
)
    requires
        a.is_prefix_of(b),
        all_sent(a, addr, bytes),
    ensures
        all_sent(b, addr, bytes),
{
    let at = choose|at: int| #[trigger] stands_at(a, at, addr, bytes);
    assert forall|k: int| 0 <= k < bytes.len() implies (#[trigger] b[at + k]).address == addr && b[at
        + k].bytes == bytes[k] by {
        assert(b[at + k] == a[at + k]);
    }
    assert(stands_at(b, at, addr, bytes));
}

/// The challenge that a pending client is sent.
pub open spec fn challenge_of(p: PendingView) -> PacketBody {
    PacketBody::ConnectionChallenge { client_salt: p.client_salt, server_salt: p.server_salt }
}

/// Whether a pending client is to be challenged: it has been pending for no more than 5000 seconds,
/// and was not challenged in the last 100 ms.
pub open spec fn challenge_due(p: PendingView, now: Time) -> bool {
    now - p.first_requested_time <= 5_000_000_000_000 && now - p.last_challenged_at > 100_000_000
}

/// Whether `after` is what has become of a pending client when all were challenged that are due.
pub open spec fn challenged_if_due(before: PendingView, after: PendingView, now: Time) -> bool {
    &&& challenge_due(before, now) ==> after == (PendingView {
        last_challenged_at: now,
        endpoint: EndpointView {
            sequence_id: before.endpoint.sequence_id.wrapping_add(1),
            ..before.endpoint
        },
        ..before
    })
    &&& !challenge_due(before, now) ==> after == before
}

proof fn lemma_all_challenged(s: ProtocolServerView, n: int)
    requires
        0 <= n <= s.pending.len(),
        forall|i: int|
            0 <= i < s.pending.len() ==> (#[trigger] s.pending[i]).endpoint.received_unacked()
                <= 350,
    ensures
        ({
            let next = s.all_challenged(n).state;
            &&& s.all_challenged(n).result is Ok
            &&& next == ProtocolServerView { pending: next.pending, outbox: next.outbox, ..s }
            &&& next.pending.len() == s.pending.len()
            &&& s.outbox.is_prefix_of(next.outbox)
            &&& forall|i: int|
                n <= i < s.pending.len() ==> #[trigger] next.pending[i] == s.pending[i]
            &&& forall|i: int|
                0 <= i < n ==> challenged_if_due(s.pending[i], #[trigger] next.pending[i], s.time)
            &&& forall|i: int|
                0 <= i < n && challenge_due(#[trigger] s.pending[i], s.time) ==> collected_for(
                    next.outbox,
                    s.pending[i].socket_addr,
                    challenge_of(s.pending[i]),
                )
        }),
    decreases n,
{
    if n > 0 {
        lemma_all_challenged(s, n - 1);
        let before = s.all_challenged(n - 1).state;
        let next = s.all_challenged(n).state;
        let p = s.pending[n - 1];
        assert(before.pending[n - 1] == p);
        if challenge_due(p, s.time) {
            lemma_encoded_len(p.endpoint.next_begun(), challenge_of(p));
            assert(reads_body(next.outbox.last().bytes, challenge_of(p)));
            assert(reads_body(
                next.outbox[before.outbox.len() as int].bytes,
                challenge_of(p),
            ));
            assert(collected_for(next.outbox, p.socket_addr, challenge_of(p)));
        }
        assert(before.outbox.is_prefix_of(next.outbox));
        assert forall|i: int|
            0 <= i < n && challenge_due(#[trigger] s.pending[i], s.time) implies collected_for(
            next.outbox,
            s.pending[i].socket_addr,
            challenge_of(s.pending[i]),
        ) by {
            if i < n - 1 {
                lemma_collected_more(
                    before.outbox,
                    next.outbox,
                    s.pending[i].socket_addr,
                    challenge_of(s.pending[i]),
                );
            }
        }
    }
}

/// A connected client after all that is to be sent to it was taken.
pub open spec fn emptied(c: SessionView, now: Time) -> SessionView {
    let (endpoint, sent, _) = c.endpoint.drained();
    SessionView {
        endpoint,
        last_sent_time: if sent.len() == 0 {
            c.last_sent_time
        } else {
            now
        },
        ..c
    }
}

proof fn lemma_all_drained(s: ProtocolServerView, n: int)
    requires
        0 <= n <= s.connected.len(),
        forall|i: int|
            0 <= i < s.connected.len() ==> (#[trigger] s.connected[i]).endpoint.drained().2 is None,
    ensures
        ({
            let next = s.all_drained(n).state;
            &&& s.all_drained(n).result is Ok
            &&& next == ProtocolServerView { connected: next.connected, outbox: next.outbox, ..s }
            &&& next.connected.len() == s.connected.len()
            &&& s.outbox.is_prefix_of(next.outbox)
            &&& forall|i: int|
                n <= i < s.connected.len() ==> #[trigger] next.connected[i] == s.connected[i]
            &&& forall|i: int|
                0 <= i < n ==> #[trigger] next.connected[i] == emptied(s.connected[i], s.time)
            &&& forall|i: int|
                0 <= i < n ==> all_sent(
                    next.outbox,
                    (#[trigger] s.connected[i]).socket_addr,
                    s.connected[i].endpoint.drained().1,
                )
        }),
    decreases n,
{
    if n > 0 {
        lemma_all_drained(s, n - 1);
        let before = s.all_drained(n - 1).state;
        let next = s.all_drained(n).state;
        let c = s.connected[n - 1];
        assert(before.connected[n - 1] == c);
        let bytes = c.endpoint.drained().1;
        assert(next.outbox == before.outbox + packets::addressed(c.socket_addr, bytes));
        assert(stands_at(next.outbox, before.outbox.len() as int, c.socket_addr, bytes));
        assert(before.outbox.is_prefix_of(next.outbox));
        assert forall|i: int| 0 <= i < n implies all_sent(
            next.outbox,
            (#[trigger] s.connected[i]).socket_addr,
            s.connected[i].endpoint.drained().1,
        ) by {
            if i < n - 1 {
                lemma_sent_more(
                    before.outbox,
                    next.outbox,
                    s.connected[i].socket_addr,
                    s.connected[i].endpoint.drained().1,
                );
            }
        }
    }
}

/// Filtering two lists that go together, where what is kept of them goes together, keeps them
/// together.
proof fn lemma_filter_together<A, B>(
    a: Seq<A>,
    b: Seq<B>,
    p: spec_fn(A) -> bool,
    q: spec_fn(B) -> bool,
    r: spec_fn(A, B) -> bool,
)
    requires
        a.len() == b.len(),
        forall|i: int| 0 <= i < a.len() ==> p(#[trigger] a[i]) == q(b[i]) && r(a[i], b[i]),
    ensures
        a.filter(p).len() == b.filter(q).len(),
        forall|i: int| 0 <= i < a.filter(p).len() ==> r(#[trigger] a.filter(p)[i], b.filter(q)[i]),
    decreases a.len(),
{
    reveal(Seq::filter);
    if a.len() > 0 {
        assert(p(a[a.len() - 1]) == q(b[a.len() - 1]));
        assert forall|i: int| 0 <= i < a.drop_last().len() implies p(#[trigger] a.drop_last()[i])
            == q(b.drop_last()[i]) && r(a.drop_last()[i], b.drop_last()[i]) by {
            assert(p(a[i]) == q(b[i]) && r(a[i], b[i]));
        }
        lemma_filter_together(a.drop_last(), b.drop_last(), p, q, r);
    }
}

/// Whether something was received from a connected client in the last 5000 seconds.
pub open spec fn recently_heard(now: Time) -> spec_fn(SessionView) -> bool {
    |c: SessionView| now - c.last_received_time <= 5_000_000_000_000
}

/// Whether a pending client first asked for a connection in the last 5000 seconds.
pub open spec fn recently_asked(now: Time) -> spec_fn(PendingView) -> bool {
    |p: PendingView| now - p.first_requested_time <= 5_000_000_000_000
}

/// A pending client with its clock moved on.
pub open spec fn later(p: PendingView, dt: Time) -> PendingView {
    PendingView { endpoint: p.endpoint.updated(dt), ..p }
}

/// As time passes, a server keeps just those clients that it has heard of in the last 5000 seconds,
/// in order. Each of them is sent what it is due: a pending client its challenge, a connected one
/// all that its endpoint has to send. This comes behind all that was to be sent before.
pub proof fn lemma_server_tick(s: ProtocolServerView, dt: Time)
    requires
        i64::MIN <= s.time + dt <= i64::MAX,
        forall|i: int|
            0 <= i < s.pending.len() ==> (#[trigger] s.pending[i]).endpoint.received_unacked()
                <= 350,
        forall|i: int|
            0 <= i < s.connected.len() ==> (#[trigger] s.connected[i]).endpoint.updated(
                dt,
            ).drained().2 is None,
    ensures
        ({
            let next = s.updated(dt).state;
            let now = next.time;
            let connected = s.connected.filter(recently_heard(now));
            let pending = s.pending.filter(recently_asked(now));
            &&& s.updated(dt).result is Ok
            &&& now == s.time + dt
            &&& s.outbox.is_prefix_of(next.outbox)
            &&& next.connected.len() == connected.len()
            &&& next.pending.len() == pending.len()
            &&& forall|i: int|
                0 <= i < connected.len() ==> #[trigger] next.connected[i] == emptied(
                    SessionView {
                        endpoint: connected[i].endpoint.updated(dt),
                        ..connected[i]
                    },
                    now,
                )
            &&& forall|i: int|
                0 <= i < connected.len() ==> all_sent(
                    next.outbox,
                    (#[trigger] connected[i]).socket_addr,
                    connected[i].endpoint.updated(dt).drained().1,
                )
            &&& forall|i: int|
                0 <= i < pending.len() ==> challenged_if_due(
                    later(pending[i], dt),
                    #[trigger] next.pending[i],
                    now,
                )
            &&& forall|i: int|
                0 <= i < s.pending.len() && challenge_due(#[trigger] s.pending[i], now)
                    ==> collected_for(
                    next.outbox,
                    s.pending[i].socket_addr,
                    challenge_of(s.pending[i]),
                )
        }),
{
    let started = ProtocolServerView {
        time: time::advanced(s.time, dt),
        pending: s.pending.map_values(|p: PendingView| p.updated(dt)),
        connected: s.connected.map_values(
            |c: SessionView| SessionView { endpoint: c.endpoint.updated(dt), ..c },
        ),
        ..s
    };
    assert forall|i: int| 0 <= i < started.pending.len() implies (
    #[trigger] started.pending[i]).endpoint.received_unacked() <= 350 by {
        assert(s.pending[i].endpoint.received_unacked() <= 350);
    }
    let now = started.time;
    lemma_all_challenged(started, started.pending.len() as int);
    let challenged = started.all_challenged(started.pending.len() as int).state;
    let kept = challenged.expired_removed();
    // the clients that stay
    let p = recently_heard(now);
    let q = |c: SessionView| !server::session_expired(c, now);
    let r = |a: SessionView, b: SessionView|
        b == SessionView { endpoint: a.endpoint.updated(dt), ..a } && a.endpoint.updated(
            dt,
        ).drained().2 is None;
    assert forall|i: int| 0 <= i < s.connected.len() implies p(#[trigger] s.connected[i]) == q(
        challenged.connected[i],
    ) && r(s.connected[i], challenged.connected[i]) by {
        assert(challenged.connected[i] == SessionView {
            endpoint: s.connected[i].endpoint.updated(dt),
            ..s.connected[i]
        });
    }
    lemma_filter_together(s.connected, challenged.connected, p, q, r);
    let connected = s.connected.filter(p);
    assert(kept.connected == challenged.connected.filter(q));
    assert forall|i: int| 0 <= i < kept.connected.len() implies (
    #[trigger] kept.connected[i]).endpoint.drained().2 is None by {
        assert(r(connected[i], kept.connected[i]));
    }
    let a = recently_asked(now);
    let b = |x: PendingView| !server::pending_expired(x, now);
    let t = |x: PendingView, y: PendingView| challenged_if_due(later(x, dt), y, now);
    assert forall|i: int| 0 <= i < s.pending.len() implies a(#[trigger] s.pending[i]) == b(
        challenged.pending[i],
    ) && t(s.pending[i], challenged.pending[i]) by {
        assert(started.pending[i] == later(s.pending[i], dt));
        assert(challenged_if_due(started.pending[i], challenged.pending[i], now));
    }
    lemma_filter_together(s.pending, challenged.pending, a, b, t);
    let pending = s.pending.filter(a);
    assert(kept.pending == challenged.pending.filter(b));
    lemma_all_drained(kept, kept.connected.len() as int);
    let next = s.updated(dt).state;
    assert(next == kept.all_drained(kept.connected.len() as int).state);
    assert forall|i: int| 0 <= i < connected.len() implies #[trigger] next.connected[i] == emptied(
        SessionView { endpoint: connected[i].endpoint.updated(dt), ..connected[i] },
        now,
    ) by {
        assert(r(connected[i], kept.connected[i]));
    }
    assert forall|i: int| 0 <= i < connected.len() implies all_sent(
        next.outbox,
        (#[trigger] connected[i]).socket_addr,
        connected[i].endpoint.updated(dt).drained().1,
    ) by {
        assert(r(connected[i], kept.connected[i]));
    }
    assert forall|i: int| 0 <= i < pending.len() implies challenged_if_due(
        later(pending[i], dt),
        #[trigger] next.pending[i],
        now,
    ) by {
        assert(t(pending[i], kept.pending[i]));
    }
    assert forall|i: int|
        0 <= i < s.pending.len() && challenge_due(#[trigger] s.pending[i], now) implies collected_for(
        next.outbox,
        s.pending[i].socket_addr,
        challenge_of(s.pending[i]),
    ) by {
        assert(challenge_due(started.pending[i], now));
        lemma_collected_more(
            challenged.outbox,
            next.outbox,
            s.pending[i].socket_addr,
            challenge_of(s.pending[i]),
        );
    }
}

} // verus!
