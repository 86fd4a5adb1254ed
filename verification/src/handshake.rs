//! What holds of the handshake between a client and a server.

use crate::address::PeerAddr;
use crate::channel;
use crate::client::{ClientState, ClientView, RESEND_INTERVAL, TIMEOUT};
use crate::delivery;
use crate::endpoint::EndpointView;
use crate::error::PicklebackError;
use crate::protocol::ack_header::MAX_UNACKED_PACKETS;
use crate::protocol::packets::{self, HeaderView, PacketBody, PacketType, PacketView};
use crate::protocol::{DisconnectReason, PROTOCOL_VERSION};
use crate::server::{self, ConnectedView, PendingView, ServerView};
use crate::time::{self, Time};
use crate::PacketId;
use vstd::prelude::*;

verus! {

/// Whether a packet with this header is received for the first time, and is not too old.
pub open spec fn is_new(e: EndpointView, header: HeaderView) -> bool {
    e.received.in_range(header.id.0) && e.received.lookup(header.id.0) is None
}

/// A packet of the handshake, or a keep alive, that was sent is read as what it is at the other
/// end, and goes out behind all packets that were to be sent before.
pub proof fn lemma_next_sent(e: EndpointView, body: PacketBody)
    requires
        e.next_sent(body).result is Ok,
    ensures
        ({
            let next = e.next_sent(body).state;
            let header = e.next_begun().header(body.packet_type())->Ok_0;
            &&& next.outbox == e.outbox.push(next.outbox.last())
            &&& header.id == PacketId(next.sequence_id)
            &&& packets::parse_packet(next.outbox.last()) == Ok::<_, PicklebackError>(
                (PacketView { header, body }, body.padding()),
            )
        }),
{
    let begun = e.next_begun();
    delivery::lemma_header(begun, body.packet_type());
    let header = begun.header(body.packet_type())->Ok_0;
    packets::lemma_parse_packet(PacketView { header, body });
}

/// Packets that are to be sent stay in front of those that are composed of messages after them.
pub proof fn lemma_composed_keeps(e: EndpointView)
    requires
        e.wf(),
    ensures
        e.outbox.is_prefix_of(e.messages_composed().state.outbox),
    decreases e.sequence_lag(), MAX_UNACKED_PACKETS - e.sent_unacked(),
{
    if channel::first_ready(e.channels, 0) is Some {
        lemma_packet_keeps(e);
        if e.packet_composed().result is Ok {
            e.lemma_packet_composed();
            lemma_composed_keeps(e.packet_composed().state);
        }
    }
}

proof fn lemma_packet_keeps(e: EndpointView)
    ensures
        e.outbox.is_prefix_of(e.packet_composed().state.outbox),
{
    reveal(EndpointView::packet_composed);
}

/// Packets that are to be sent go out in the order in which they were written, before any that are
/// composed of messages after them.
pub proof fn lemma_drained_keeps(e: EndpointView)
    requires
        e.wf(),
        e.drained().2 is None,
    ensures
        e.outbox.is_prefix_of(e.drained().1),
{
    lemma_composed_keeps(e);
}

/// A client that asks for a connection for the first time becomes a pending client, with the salt
/// that the server made up. If it asks again, nothing changes.
pub proof fn lemma_request(
    s: ServerView,
    header: HeaderView,
    client_salt: u64,
    addr: PeerAddr,
    salt: u64,
    other_salt: u64,
)
    requires
        header.packet_type == PacketType::ConnectionRequest,
        header.ack matches Some(ack) ==> ack.canonical(),
        server::find_pending(s.pending, client_salt, addr, 0) is None,
    ensures
        ({
            let bytes = (PacketView {
                header,
                body: PacketBody::ConnectionRequest {
                    client_salt,
                    protocol_version: PROTOCOL_VERSION,
                },
            }).encoded();
            let (next, result) = s.received(bytes, addr, salt);
            let p = next.pending.last();
            &&& result is Ok
            &&& next.pending == s.pending.push(p)
            &&& p.client_salt == client_salt && p.server_salt == salt && p.socket_addr == addr
            &&& next.received(bytes, addr, other_salt) == (next, Ok::<(), PicklebackError>(()))
        }),
{
    let packet = PacketView {
        header,
        body: PacketBody::ConnectionRequest { client_salt, protocol_version: PROTOCOL_VERSION },
    };
    packets::lemma_parse_packet(packet);
    let next = s.received(packet.encoded(), addr, salt).0;
    lemma_find_pushed(s.pending, next.pending.last(), client_salt, addr, 0);
}

proof fn lemma_find_pushed(
    pending: Seq<PendingView>,
    p: PendingView,
    client_salt: u64,
    addr: PeerAddr,
    from: int,
)
    requires
        0 <= from <= pending.len(),
        p.client_salt == client_salt,
        p.socket_addr == addr,
    ensures
        server::find_pending(pending.push(p), client_salt, addr, from) is Some,
    decreases pending.len() - from,
{
    if from < pending.len() {
        lemma_find_pushed(pending, p, client_salt, addr, from + 1);
    }
}

/// A client that speaks another version of the protocol is turned away, and told why.
pub proof fn lemma_version_mismatch(
    s: ServerView,
    header: HeaderView,
    client_salt: u64,
    protocol_version: u64,
    addr: PeerAddr,
    salt: u64,
)
    requires
        header.packet_type == PacketType::ConnectionRequest,
        header.ack matches Some(ack) ==> ack.canonical(),
        protocol_version != PROTOCOL_VERSION,
        s.denied(addr, DisconnectReason::ProtocolMismatch).1 is Ok,
    ensures
        ({
            let bytes = (PacketView {
                header,
                body: PacketBody::ConnectionRequest { client_salt, protocol_version },
            }).encoded();
            let next = s.received(bytes, addr, salt).0;
            &&& next.pending == s.pending
            &&& next.connected == s.connected
            &&& next.outbox.last().address == addr
            &&& packets::parse_packet(next.outbox.last().bytes) matches Ok((p, _)) && p.body
                == PacketBody::ConnectionDenied { reason: DisconnectReason::ProtocolMismatch }
        }),
{
    packets::lemma_parse_packet(
        PacketView {
            header,
            body: PacketBody::ConnectionRequest { client_salt, protocol_version },
        },
    );
    packets::lemma_parse_packet(ServerView::denial(DisconnectReason::ProtocolMismatch));
}

/// A client that is challenged for its own request answers from then on, with a salt made of both.
/// A challenge for another request is refused, and changes nothing but the time at which something
/// was last received.
pub proof fn lemma_challenge(
    c: ClientView,
    header: HeaderView,
    client_salt: u64,
    server_salt: u64,
    source: PeerAddr,
)
    requires
        header.packet_type == PacketType::ConnectionChallenge,
        header.ack matches Some(ack) ==> ack.canonical(),
        c.state is SendingConnectionRequest,
        c.server_addr == Some(source),
        is_new(c.endpoint, header),
    ensures
        ({
            let bytes = (PacketView {
                header,
                body: PacketBody::ConnectionChallenge { client_salt, server_salt },
            }).encoded();
            let (next, result) = c.received(bytes, source);
            if c.client_salt == Some(client_salt) {
                &&& result is Ok
                &&& next.state is SendingChallengeResponse
                &&& next.server_salt == Some(server_salt)
                &&& next.xor_salt == Some(client_salt ^ server_salt)
                &&& next.server_addr == c.server_addr
            } else {
                &&& result == Err::<(), _>(PicklebackError::InvalidPacket)
                &&& next == ClientView { last_receive_time: c.time, ..c }
            }
        }),
{
    packets::lemma_parse_packet(
        PacketView {
            header,
            body: PacketBody::ConnectionChallenge { client_salt, server_salt },
        },
    );
    assert(server_salt ^ client_salt == client_salt ^ server_salt) by (bit_vector);
}

/// A pending client that answers with the salt made of both becomes a connected one, and a keep
/// alive tells it so.
pub proof fn lemma_answer(
    s: ServerView,
    header: HeaderView,
    i: int,
    addr: PeerAddr,
    salt: u64,
)
    requires
        header.packet_type == PacketType::ConnectionChallengeResponse,
        header.ack matches Some(ack) ==> ack.canonical(),
        0 <= i < s.pending.len(),
        server::find_challenged(s.pending, s.pending[i].xor_salt(), addr, 0) == Some(i),
        (EndpointView {
            xor_salt: Some(s.pending[i].xor_salt()),
            ..s.pending[i].endpoint
        }).next_sent(
            PacketBody::KeepAlive { xor_salt: s.pending[i].xor_salt(), client_index: 0 },
        ).result is Ok,
    ensures
        ({
            let xor_salt = s.pending[i].xor_salt();
            let bytes = (PacketView {
                header,
                body: PacketBody::ConnectionChallengeResponse { xor_salt },
            }).encoded();
            let (next, result) = s.received(bytes, addr, salt);
            let c = next.connected.last();
            &&& result is Ok
            &&& next.pending == s.pending.remove(i)
            &&& next.connected == s.connected.push(c)
            &&& c.xor_salt == xor_salt && c.socket_addr == addr
            &&& c.endpoint.xor_salt == Some(xor_salt)
            &&& packets::parse_packet(c.endpoint.outbox.last()) matches Ok((p, _)) && p.body
                == PacketBody::KeepAlive { xor_salt, client_index: 0 }
        }),
{
    let xor_salt = s.pending[i].xor_salt();
    packets::lemma_parse_packet(
        PacketView { header, body: PacketBody::ConnectionChallengeResponse { xor_salt } },
    );
    lemma_next_sent(
        EndpointView { xor_salt: Some(xor_salt), ..s.pending[i].endpoint },
        PacketBody::KeepAlive { xor_salt, client_index: 0 },
    );
}

/// A client that answers the challenge of nobody is turned away, and told why.
pub proof fn lemma_answer_unknown(
    s: ServerView,
    header: HeaderView,
    xor_salt: u64,
    addr: PeerAddr,
    salt: u64,
)
    requires
        header.packet_type == PacketType::ConnectionChallengeResponse,
        header.ack matches Some(ack) ==> ack.canonical(),
        server::find_challenged(s.pending, xor_salt, addr, 0) is None,
        s.denied(addr, DisconnectReason::HandshakeTimeout).1 is Ok,
    ensures
        ({
            let bytes = (PacketView {
                header,
                body: PacketBody::ConnectionChallengeResponse { xor_salt },
            }).encoded();
            let next = s.received(bytes, addr, salt).0;
            &&& next.pending == s.pending
            &&& next.connected == s.connected
            &&& next.outbox.last().address == addr
            &&& packets::parse_packet(next.outbox.last().bytes) matches Ok((p, _)) && p.body
                == PacketBody::ConnectionDenied { reason: DisconnectReason::HandshakeTimeout }
        }),
{
    packets::lemma_parse_packet(
        PacketView { header, body: PacketBody::ConnectionChallengeResponse { xor_salt } },
    );
    packets::lemma_parse_packet(ServerView::denial(DisconnectReason::HandshakeTimeout));
}

/// A client that has answered its challenge is connected by the first keep alive with the salt of
/// the connection. From then on its packets of messages carry that salt too.
pub proof fn lemma_keep_alive(
    c: ClientView,
    header: HeaderView,
    xor_salt: u64,
    client_index: u32,
    source: PeerAddr,
)
    requires
        header.packet_type == PacketType::KeepAlive,
        header.ack matches Some(ack) ==> ack.canonical(),
        c.state is SendingChallengeResponse,
        c.server_addr == Some(source),
        c.xor_salt == Some(xor_salt),
        is_new(c.endpoint, header),
    ensures
        ({
            let bytes = (PacketView {
                header,
                body: PacketBody::KeepAlive { xor_salt, client_index },
            }).encoded();
            let (next, result) = c.received(bytes, source);
            &&& result is Ok
            &&& next.state is Connected
            &&& next.xor_salt == Some(xor_salt)
            &&& next.endpoint.xor_salt == Some(xor_salt)
        }),
{
    packets::lemma_parse_packet(
        PacketView { header, body: PacketBody::KeepAlive { xor_salt, client_index } },
    );
}

/// A client that is turned away is disconnected, and knows why.
pub proof fn lemma_denied(c: ClientView, reason: DisconnectReason, source: PeerAddr)
    requires
        c.state is SendingConnectionRequest || c.state is SendingChallengeResponse,
        c.server_addr == Some(source),
    ensures
        ({
            let (next, result) = c.received(ServerView::denial(reason).encoded(), source);
            &&& result is Ok
            &&& next.state == ClientState::Disconnected(reason)
            &&& next.xor_salt is None && next.server_addr is None
        }),
{
    packets::lemma_parse_packet(ServerView::denial(reason));
}

/// A client takes packets from nowhere but its server, and without one from nowhere at all.
pub proof fn lemma_other_source(c: ClientView, bytes: Seq<u8>, source: PeerAddr)
    requires
        c.server_addr != Some(source),
    ensures
        c.received(bytes, source).0 == c,
        c.server_addr is Some ==> c.received(bytes, source).1 == Err::<(), _>(
            PicklebackError::SocketAddrMismatch,
        ),
{
}

/// A client that says that its connection is over is no longer connected, and nobody else is
/// affected.
pub proof fn lemma_disconnect(
    s: ServerView,
    header: HeaderView,
    i: int,
    salt: u64,
)
    requires
        header.packet_type == PacketType::Disconnect,
        header.ack matches Some(ack) ==> ack.canonical(),
        0 <= i < s.connected.len(),
        server::find_connected(
            s.connected,
            s.connected[i].xor_salt,
            s.connected[i].socket_addr,
            0,
        ) == Some(i),
    ensures
        ({
            let c = s.connected[i];
            let bytes = (PacketView {
                header,
                body: PacketBody::Disconnect { xor_salt: c.xor_salt },
            }).encoded();
            s.received(bytes, c.socket_addr, salt) == (
                ServerView { connected: s.connected.remove(i), ..s },
                Ok::<(), PicklebackError>(()),
            )
        }),
{
    packets::lemma_parse_packet(
        PacketView {
            header,
            body: PacketBody::Disconnect { xor_salt: s.connected[i].xor_salt },
        },
    );
}

/// A client that has not received anything for too long is disconnected. One that has is not.
pub proof fn lemma_client_timeout(c: ClientView, dt: Time)
    requires
        !(c.state is Disconnected),
    ensures
        ({
            let next = c.updated(dt);
            if time::advanced(c.time, dt) - c.last_receive_time > TIMEOUT {
                next.state == ClientState::Disconnected(DisconnectReason::TimedOut)
            } else {
                next.state == c.state
            }
        }),
{
}

/// As time passes, a server drops the clients that it has not heard of for too long, and no others.
pub proof fn lemma_server_timeout(connected: Seq<ConnectedView>, now: Time, n: int)
    requires
        0 <= n <= connected.len(),
    ensures
        ({
            let kept = server::connected_processed(connected, now, n);
            &&& forall|j: int| 0 <= j < kept.len() ==> !(#[trigger] kept[j]).expired(now)
            &&& forall|i: int|
                0 <= i < n && !(#[trigger] connected[i]).expired(now) ==> kept.contains(
                    connected[i].kept_alive(now),
                )
        }),
    decreases n,
{
    if n > 0 {
        lemma_server_timeout(connected, now, n - 1);
        let before = server::connected_processed(connected, now, n - 1);
        let kept = server::connected_processed(connected, now, n);
        assert forall|i: int| 0 <= i < n && !(#[trigger] connected[i]).expired(
            now,
        ) implies kept.contains(connected[i].kept_alive(now)) by {
            if i < n - 1 {
                let j = before.index_of(connected[i].kept_alive(now));
                assert(kept[j] == before[j]);
            } else {
                assert(kept.last() == connected[i].kept_alive(now));
            }
        }
    }
}

/// A client that is confirmed is sent no keep alive for a while after one, or anything else, was
/// sent to it.
pub proof fn lemma_no_needless_keep_alive(c: ConnectedView, now: Time, later: Time)
    requires
        c.confirmed,
        later - now <= RESEND_INTERVAL,
    ensures
        c.drained(now).1.len() > 0 ==> c.drained(now).0.kept_alive(later) == c.drained(now).0,
        c.kept_alive(now).last_sent_time == now ==> c.kept_alive(now).kept_alive(later)
            == c.kept_alive(now),
{
}

} // verus!
