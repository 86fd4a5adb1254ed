//! What holds of the packets that keep connections up: acks, keep alives and the handshake, and
//! when they are sent.

use crate::address::PeerAddr;
use crate::channel;
use crate::client::{ClientState, ClientView};
use crate::config::ConfigView;
use crate::delivery;
use crate::endpoint::{self, channels_wf, EndpointView};
use crate::handshake;
use crate::pickleback;
use crate::protocol::packets::{
    self, AddressedView, HeaderView, PacketBody, PacketType, PacketView,
};
use crate::protocol::DisconnectReason;
use crate::receiving;
use crate::sequence_buffer::{self, Window};
use crate::server::{self, ConnectedView, PendingView, ServerView};
use crate::time::Time;
use crate::wire;
use crate::{PacketId, SentMeta};
use vstd::prelude::*;

verus! {

/// Whether the numbers of packets are in step with what is known of those sent, give or take some
/// that were begun and never sent.
pub open spec fn in_step(e: EndpointView) -> bool {
    &&& (e.sequence_id - e.sent.sequence) % 0x1_0000 < 0x1000
    &&& e.sent.size < 0x7000
    &&& e.dispatcher.packets.size < 0x7000
}

/// Whether a packet that is no packet of messages can be sent: there is room for the largest one
/// there is, no more than 350 packets are to be acked, and the numbers of packets are in step.
pub open spec fn can_send(e: EndpointView) -> bool {
    &&& in_step(e)
    &&& e.config.max_packet_size >= 571
    &&& e.received_unacked() <= 350
}

/// Whether `next` is `e` after a packet with this body was sent, and nothing else happened: the
/// packet is read as what it is at the other end, with the next number, and goes out behind all
/// packets that were to be sent before.
pub open spec fn sends(e: EndpointView, next: EndpointView, body: PacketBody) -> bool {
    &&& next.outbox.len() == e.outbox.len() + 1
    &&& e.outbox.is_prefix_of(next.outbox)
    &&& packets::parse_packet(next.outbox.last()) matches Ok((p, _)) && p.body == body
        && p.header.id.0 == e.sequence_id.wrapping_add(1)
    &&& next.sequence_id == e.sequence_id.wrapping_add(1)
    &&& next.sent.lookup(next.sequence_id) matches Some(meta) && !meta.acked && meta.time == e.time
    &&& next.channels == e.channels
    &&& next.received == e.received
    &&& next.time == e.time
    &&& next.config == e.config
    &&& next.xor_salt == e.xor_salt
    &&& next.newest_ack == e.newest_ack
    &&& next.ack_low_watermark == e.ack_low_watermark
    &&& next.rtt_samples == e.rtt_samples
    &&& next.dispatcher.messages == e.dispatcher.messages
    &&& next.dispatcher.next_message_id == e.dispatcher.next_message_id
}

proof fn lemma_step(id: u16, sequence: u16, size: nat)
    requires
        (id - sequence) % 0x1_0000 < 0x1000,
        size < 0x7000,
    ensures
        sequence_buffer::seq_gt(id.wrapping_add(1), sequence),
        !sequence_buffer::seq_gt(((sequence - size as int) % 0x1_0000) as u16, id.wrapping_add(1)),
{
}

/// A packet of the handshake, or a keep alive, can be sent whenever there is room for it and the
/// acks fit in. It is read as what it is at the other end.
pub proof fn lemma_sends(e: EndpointView, body: PacketBody)
    requires
        can_send(e),
    ensures
        e.next_sent(body).result is Ok,
        sends(e, e.next_sent(body).state, body),
        can_send(e.next_sent(body).state),
        e.wf() ==> e.next_sent(body).state.wf(),
{
    let begun = e.next_begun();
    let header = begun.header(body.packet_type())->Ok_0;
    lemma_step(e.sequence_id, e.sent.sequence, e.sent.size);
    lemma_body_len(begun, body);
    assert(e.next_sent(body).result is Ok);
    handshake::lemma_next_sent(e, body);
    receiving::lemma_packet_sent(begun, PacketView { header, body }.encoded());
    let packet = PacketView { header, body }.encoded();
    let size = packet.len() + e.config.packet_header_size;
    e.sent.lemma_inserted(
        begun.sequence_id,
        SentMeta {
            time: e.time,
            acked: false,
            size: if size <= usize::MAX {
                size as usize
            } else {
                usize::MAX
            },
            acked_up_to: PacketId(e.received.sequence),
        },
    );
    if e.wf() {
        e.dispatcher.packets.lemma_advanced(begun.sequence_id);
        e.dispatcher.packets.lemma_advanced_inserted(begun.sequence_id, Seq::empty());
    }
}

/// No packet of the handshake is longer than 571 bytes, nor is a keep alive.
pub proof fn lemma_body_len(e: EndpointView, body: PacketBody)
    requires
        e.received_unacked() <= 350,
    ensures
        ({
            let header = e.header(body.packet_type())->Ok_0;
            PacketView { header, body }.encoded().len() <= 571
        }),
{
    broadcast use wire::lemma_be_bytes_len;

}

/// Packets of messages are never held up by anything but too many of them being unacked, at either
/// end, as long as there is room for a header and the numbers of packets are in step. So nothing
/// goes wrong when the packets to be sent are collected.
pub proof fn lemma_nothing_goes_wrong(e: EndpointView)
    requires
        e.wf(),
        in_step(e),
        e.config.max_packet_size >= 63,
    ensures
        e.composed().result matches Err(x) ==> x is Backpressure,
        e.drained().2 is None,
        e.drained().0.outbox.len() == 0,
{
    lemma_messages_go(e);
    let sent = e.messages_composed();
    if sent.result is Ok {
        lemma_step(sent.state.sequence_id, sent.state.sent.sequence, sent.state.sent.size);
    }
}

proof fn lemma_messages_go(e: EndpointView)
    requires
        e.wf(),
        in_step(e),
        e.config.max_packet_size >= 63,
    ensures
        e.messages_composed().result matches Err(x) ==> x is Backpressure,
        e.messages_composed().result is Ok ==> in_step(e.messages_composed().state),
    decreases e.sequence_lag(), 350 - e.sent_unacked(),
{
    if channel::first_ready(e.channels, 0) is Some {
        lemma_packet_goes(e);
        if e.packet_composed().result is Ok {
            e.lemma_packet_composed();
            lemma_messages_go(e.packet_composed().state);
        }
    }
}

proof fn lemma_packet_goes(e: EndpointView)
    requires
        e.wf(),
        in_step(e),
        e.config.max_packet_size >= 63,
    ensures
        ({
            let o = e.packet_composed();
            &&& o.result matches Err(x) ==> x is Backpressure
            &&& o.result is Ok ==> in_step(o.state) && o.state.config == e.config
            &&& e.sent_unacked() < 350 && e.received_unacked() <= 350 ==> o.result is Ok
        }),
{
    let begun = e.next_begun();
    lemma_step(e.sequence_id, e.sent.sequence, e.sent.size);
    if e.sent_unacked() < 350 && begun.header(PacketType::Messages) is Ok {
        let packet = e.next_filling().filled();
        assert(channels_wf(packet.channels)) by {
            endpoint::lemma_filled(e.next_filling());
        }
        let n = packet.handles.len();
        let filled = EndpointView {
            channels: packet.channels,
            stats: crate::PicklebackStats {
                messages_sent: ((begun.stats.messages_sent + n) % 0x1_0000_0000_0000_0000) as u64,
                ..begun.stats
            },
            ..begun
        };
        assert(filled.wf());
        filled.lemma_contents_noted(packet.out.out, packet.handles);
        lemma_in_step_after(filled, packet.out.out, packet.handles);
        pickleback::lemma_head_len(begun, begun.header(PacketType::Messages)->Ok_0);
        reveal(EndpointView::packet_composed);
    } else {
        reveal(EndpointView::packet_composed);
    }
}

proof fn lemma_in_step_after(
    e: EndpointView,
    packet: Seq<u8>,
    handles: Seq<crate::dispatcher::MessageHandle>,
)
    requires
        e.sent.size < 0x7000,
        e.dispatcher.packets.size < 0x7000,
        sequence_buffer::seq_gt(e.sequence_id, e.sent.sequence),
        e.packet_sent(packet).result is Ok,
    ensures
        in_step(e.packet_sent(packet).state.contents_noted(handles).state),
        in_step(e.packet_sent(packet).state),
{
}

/// Whether a header says of every packet that the other side may not have seen an ack of whether it
/// was received.
pub open spec fn says_received(header: HeaderView, e: EndpointView) -> bool {
    header.ack matches Some(ack) && forall|id: u16|
        #![trigger e.received.lookup(id)]
        (e.received.sequence - id) % 0x1_0000 < e.received_unacked() ==> ack.entries().contains(
            (id, e.received.lookup(id) is Some),
        )
}

proof fn lemma_back(sequence: u16, id: u16)
    ensures
        ((sequence - (sequence - id) % 0x1_0000) % 0x1_0000) as u16 == id,
{
}

proof fn lemma_entry_of(received: Window<crate::ReceivedMeta>, entries: Seq<(u16, bool)>, id: u16)
    requires
        forall|i: int|
            0 <= i < entries.len() ==> {
                let id = ((received.sequence - i) % 0x1_0000) as u16;
                #[trigger] entries[i] == (id, received.lookup(id) is Some)
            },
        (received.sequence - id) % 0x1_0000 < entries.len(),
    ensures
        entries.contains((id, received.lookup(id) is Some)),
{
    let i = (received.sequence - id) % 0x1_0000;
    lemma_back(received.sequence, id);
    assert(entries[i] == (id, received.lookup(id) is Some));
}

proof fn lemma_says_received(e: EndpointView, packet_type: PacketType)
    requires
        0 < e.received_unacked() <= 350,
    ensures
        says_received(e.header(packet_type)->Ok_0, e),
{
    let header = e.header(packet_type)->Ok_0;
    assert(e.header(packet_type) is Ok && header.ack is Some) by {
        receiving::lemma_header_is_true(e, packet_type);
    }
    let entries = header.ack->0.entries();
    assert forall|id: u16|
        #![trigger e.received.lookup(id)]
        (e.received.sequence - id) % 0x1_0000 < e.received_unacked() implies entries.contains(
        (id, e.received.lookup(id) is Some),
    ) by {
        receiving::lemma_header_is_true(e, packet_type);
        lemma_entry_of(e.received, entries, id);
    }
}

proof fn lemma_acks_composed(e: EndpointView)
    requires
        e.wf(),
        in_step(e),
        e.xor_salt is Some,
        channel::first_ready(e.channels, 0) is None,
        0 < e.received_unacked() <= 350,
        e.sent_unacked() < 350,
    ensures
        ({
            let begun = e.next_begun();
            let header = begun.header(PacketType::Messages)->Ok_0;
            &&& e.drained().0.outbox.len() == 0
            &&& e.drained().1 == e.outbox.push(begun.messages_head(header))
            &&& e.drained().2 is None
        }),
{
    lemma_step(e.sequence_id, e.sent.sequence, e.sent.size);
    assert(e.messages_composed().state == e);
    assert(e.empty_sent().result is Ok);
}

/// An endpoint that has no messages to send, but packets to ack, sends one packet just for that,
/// which says what it is to say and holds no messages. It needs to be connected for that.
pub proof fn lemma_acks_go_out(e: EndpointView, xor_salt: u64)
    requires
        e.wf(),
        in_step(e),
        e.xor_salt == Some(xor_salt),
        channel::first_ready(e.channels, 0) is None,
        0 < e.received_unacked() <= 350,
        e.sent_unacked() < 350,
    ensures
        ({
            let (next, sent, error) = e.drained();
            &&& error is None
            &&& sent.len() == e.outbox.len() + 1
            &&& e.outbox.is_prefix_of(sent)
            &&& next.outbox.len() == 0
            &&& packets::parse_packet(sent.last()) matches Ok((p, rest)) && p.body
                == (PacketBody::Messages { xor_salt }) && rest.len() == 0 && p.header.id.0
                == e.sequence_id.wrapping_add(1) && says_received(p.header, e)
        }),
{
    let begun = e.next_begun();
    let header = begun.header(PacketType::Messages)->Ok_0;
    lemma_acks_composed(e);
    assert(says_received(header, e)) by {
        lemma_says_received(begun, PacketType::Messages);
        assert(says_received(header, begun));
        assert(begun.received_unacked() == e.received_unacked());
    }
    delivery::lemma_header(begun, PacketType::Messages);
    packets::lemma_parse_messages(header, xor_salt, Seq::empty());
    let head = begun.messages_head(header);
    assert(head + Seq::<u8>::empty() =~= head);
}

/// An endpoint that has nothing to say says nothing.
pub proof fn lemma_quiet(e: EndpointView)
    requires
        e.wf(),
        channel::first_ready(e.channels, 0) is None,
        e.received_unacked() == 0,
    ensures
        e.drained().0 == (EndpointView { outbox: Seq::empty(), ..e }),
        e.drained().1 == e.outbox,
        e.drained().2 is None,
{
}

/// While 350 packets are unacked, no more are made. Those that were to be sent already still are.
pub proof fn lemma_held_back(e: EndpointView)
    requires
        e.sent_unacked() >= 350,
    ensures
        e.drained().0 == (EndpointView { outbox: Seq::empty(), ..e }),
        e.drained().1 == e.outbox,
        e.drained().2 is None,
{
}

/// Whether `after` is what has become of a client that stays connected as time passes. It is the
/// same client, with its clock moved on. It is sent a keep alive if it is not confirmed, or if
/// nothing was sent to it for more than 100 ms, and else it is sent nothing.
pub open spec fn stays_connected(
    before: ConnectedView,
    after: ConnectedView,
    now: Time,
    dt: Time,
) -> bool {
    let e = before.endpoint.updated(dt);
    &&& after.xor_salt == before.xor_salt
    &&& after.socket_addr == before.socket_addr
    &&& after.confirmed == before.confirmed
    &&& after.client_index == before.client_index
    &&& after.last_received_time == before.last_received_time
    &&& before.confirmed && now - before.last_sent_time <= 100_000_000 ==> after.endpoint == e
        && after.last_sent_time == before.last_sent_time
    &&& !before.confirmed || now - before.last_sent_time > 100_000_000 ==> can_send(e) ==> {
        &&& after.last_sent_time == now
        &&& sends(
            e,
            after.endpoint,
            PacketBody::KeepAlive {
                xor_salt: before.xor_salt,
                client_index: match before.client_index {
                    Some(i) => i,
                    None => 0,
                },
            },
        )
    }
}

/// Whether `after` is what has become of a client that stays pending as time passes. It is the same
/// client, with its clock moved on. It is sent its challenge if that was more than 100 ms ago, and
/// else it is sent nothing.
pub open spec fn stays_pending(
    before: PendingView,
    after: PendingView,
    now: Time,
    dt: Time,
) -> bool {
    let e = before.endpoint.updated(dt);
    &&& after.client_salt == before.client_salt
    &&& after.server_salt == before.server_salt
    &&& after.socket_addr == before.socket_addr
    &&& after.first_requested_time == before.first_requested_time
    &&& now - before.last_challenged_at <= 100_000_000 ==> after.endpoint == e
        && after.last_challenged_at == before.last_challenged_at
    &&& now - before.last_challenged_at > 100_000_000 ==> after.last_challenged_at == now && (
    can_send(e) ==> sends(
        e,
        after.endpoint,
        PacketBody::ConnectionChallenge {
            client_salt: before.client_salt,
            server_salt: before.server_salt,
        },
    ))
}

/// Whether something was received from a connected client in the last 5 seconds.
pub open spec fn recently_heard(now: Time) -> spec_fn(ConnectedView) -> bool {
    |c: ConnectedView| now - c.last_received_time <= 5_000_000_000
}

/// Whether a pending client first asked for a connection in the last 5 seconds.
pub open spec fn recently_asked(now: Time) -> spec_fn(PendingView) -> bool {
    |p: PendingView| now - p.first_requested_time <= 5_000_000_000
}

/// As time passes, a server keeps just those clients that it has heard of in the last 5 seconds, in
/// order. Each of them is sent what it is due, whatever becomes of the others.
pub proof fn lemma_server_tick(s: ServerView, dt: Time)
    requires
        i64::MIN <= s.time + dt <= i64::MAX,
    ensures
        ({
            let next = s.updated(dt);
            let now = next.time;
            let connected = s.connected.filter(recently_heard(now));
            let pending = s.pending.filter(recently_asked(now));
            &&& now == s.time + dt
            &&& next.outbox == s.outbox
            &&& next.config == s.config
            &&& next.connected.len() == connected.len()
            &&& next.pending.len() == pending.len()
            &&& forall|i: int|
                0 <= i < connected.len() ==> stays_connected(
                    connected[i],
                    #[trigger] next.connected[i],
                    now,
                    dt,
                )
            &&& forall|i: int|
                0 <= i < pending.len() ==> stays_pending(
                    pending[i],
                    #[trigger] next.pending[i],
                    now,
                    dt,
                )
        }),
{
    let now = s.updated(dt).time;
    lemma_connected_tick(s.connected, now, dt, s.connected.len() as int);
    lemma_pending_tick(s.pending, now, dt, s.pending.len() as int);
    assert(s.connected.take(s.connected.len() as int) =~= s.connected);
    assert(s.pending.take(s.pending.len() as int) =~= s.pending);
}

proof fn lemma_connected_tick(connected: Seq<ConnectedView>, now: Time, dt: Time, n: int)
    requires
        0 <= n <= connected.len(),
    ensures
        ({
            let kept = server::connected_processed(
                connected.map_values(|c: ConnectedView| c.updated(dt)),
                now,
                n,
            );
            let alive = connected.take(n).filter(recently_heard(now));
            &&& kept.len() == alive.len()
            &&& forall|i: int|
                0 <= i < alive.len() ==> stays_connected(alive[i], #[trigger] kept[i], now, dt)
        }),
    decreases n,
{
    reveal(Seq::filter);
    if n > 0 {
        lemma_connected_tick(connected, now, dt, n - 1);
        assert(connected.take(n).drop_last() =~= connected.take(n - 1));
        let c = connected[n - 1];
        let body = PacketBody::KeepAlive {
            xor_salt: c.xor_salt,
            client_index: match c.client_index {
                Some(i) => i,
                None => 0,
            },
        };
        if can_send(c.endpoint.updated(dt)) {
            lemma_sends(c.endpoint.updated(dt), body);
        }
        assert(stays_connected(c, c.updated(dt).kept_alive(now), now, dt));
    }
}

proof fn lemma_pending_tick(pending: Seq<PendingView>, now: Time, dt: Time, n: int)
    requires
        0 <= n <= pending.len(),
    ensures
        ({
            let kept = server::pending_processed(
                pending.map_values(|p: PendingView| p.updated(dt)),
                now,
                n,
            );
            let alive = pending.take(n).filter(recently_asked(now));
            &&& kept.len() == alive.len()
            &&& forall|i: int|
                0 <= i < alive.len() ==> stays_pending(alive[i], #[trigger] kept[i], now, dt)
        }),
    decreases n,
{
    reveal(Seq::filter);
    if n > 0 {
        lemma_pending_tick(pending, now, dt, n - 1);
        assert(pending.take(n).drop_last() =~= pending.take(n - 1));
        let p = pending[n - 1];
        let body = PacketBody::ConnectionChallenge {
            client_salt: p.client_salt,
            server_salt: p.server_salt,
        };
        if can_send(p.endpoint.updated(dt)) {
            lemma_sends(p.endpoint.updated(dt), body);
        }
        assert(stays_pending(p, p.updated(dt).challenged(now), now, dt));
    }
}

/// As time passes, a client that has received nothing for more than 5 seconds is disconnected, and
/// keeps nothing of the connection. Any other client just has its clock moved on.
pub proof fn lemma_client_tick(c: ClientView, dt: Time)
    requires
        i64::MIN <= c.time + dt <= i64::MAX,
    ensures
        ({
            let next = c.updated(dt);
            let lost = !(c.state is Disconnected) && c.time + dt - c.last_receive_time
                > 5_000_000_000;
            &&& next.time == c.time + dt
            &&& lost ==> {
                &&& next.state == ClientState::Disconnected(DisconnectReason::TimedOut)
                &&& next.client_salt is None
                &&& next.server_salt is None
                &&& next.xor_salt is None
                &&& next.server_addr is None
                &&& next.endpoint.xor_salt is None
                &&& next.endpoint.outbox.len() == 0
            }
            &&& !lost ==> next == (ClientView {
                time: next.time,
                endpoint: c.endpoint.updated(dt),
                ..c
            })
        }),
{
}

/// A client on its way in asks the server that it was told of, with the salt made up for this
/// connection. What it knew of an earlier connection is gone.
pub proof fn lemma_client_connecting(c: ClientView, server: PeerAddr, salt: u64)
    ensures
        ({
            let next = c.connecting(server, salt);
            &&& next.state is SendingConnectionRequest
            &&& next.server_addr == Some(server)
            &&& next.client_salt == Some(salt)
            &&& next.server_salt is None
            &&& next.xor_salt is None
            &&& next.endpoint.xor_salt is None
            &&& next.time == c.time
            &&& next.proto_last_send == 0
        }),
{
}

/// A client on its way out stays what it was until the server is told, if the server knows of it.
/// Else it is disconnected at once.
pub proof fn lemma_client_disconnecting(c: ClientView)
    ensures
        ({
            let next = c.disconnecting();
            let known = c.state is Connected || c.state is SendingChallengeResponse;
            &&& known ==> {
                &&& next.state is SelfInitiatedDisconnect
                &&& next.server_addr == c.server_addr
                &&& next.xor_salt == c.xor_salt
                &&& next.endpoint.outbox == c.endpoint.outbox
                &&& next.endpoint.sequence_id == c.endpoint.sequence_id
            }
            &&& !known ==> {
                &&& next.state == ClientState::Disconnected(DisconnectReason::Normal)
                &&& next.server_addr is None
                &&& next.xor_salt is None
                &&& next.client_salt is None
            }
        }),
{
}

/// Whether a packet with this body is among those that were collected for `server`.
pub open spec fn collected_for(
    sent: Seq<AddressedView>,
    server: PeerAddr,
    body: PacketBody,
) -> bool {
    exists|i: int|
        0 <= i < sent.len() && #[trigger] reads_body(sent[i].bytes, body) && sent[i].address
            == server
}

/// Whether a packet has this body.
pub open spec fn reads_body(bytes: Seq<u8>, body: PacketBody) -> bool {
    packets::parse_packet(bytes) matches Ok((p, _)) && p.body == body
}

/// What a client in the handshake is to send now, if anything.
pub open spec fn handshake_body(c: ClientView) -> Option<PacketBody> {
    match c.state {
        ClientState::SendingConnectionRequest => Some(
            PacketBody::ConnectionRequest { client_salt: c.client_salt->0, protocol_version: 1 },
        ),
        ClientState::SendingChallengeResponse => Some(
            PacketBody::ConnectionChallengeResponse { xor_salt: c.xor_salt->0 },
        ),
        _ => None,
    }
}

/// A client in the handshake sends its server what the state calls for once more than 100 ms have
/// passed since it did last, and not before. It sends nothing to anybody else.
pub proof fn lemma_client_shakes_hands(c: ClientView, server: PeerAddr, body: PacketBody)
    requires
        c.endpoint.wf(),
        can_send(c.endpoint),
        c.server_addr == Some(server),
        handshake_body(c) == Some(body),
    ensures
        ({
            let (next, sent, error) = c.collected();
            let due = c.time - c.proto_last_send > 100_000_000;
            &&& error is None
            &&& next.state == c.state
            &&& next.client_salt == c.client_salt
            &&& next.server_salt == c.server_salt
            &&& next.xor_salt == c.xor_salt
            &&& next.server_addr == c.server_addr
            &&& next.last_receive_time == c.last_receive_time
            &&& next.time == c.time
            &&& forall|i: int| 0 <= i < sent.len() ==> (#[trigger] sent[i]).address == server
            &&& due ==> collected_for(sent, server, body) && next.proto_last_send == c.time
            &&& !due ==> sent == packets::addressed(server, c.endpoint.drained().1)
                && next.endpoint == c.endpoint.drained().0 && next.proto_last_send
                == c.proto_last_send
        }),
{
    lemma_sends(c.endpoint, body);
    let ready = c.handshake_sent();
    lemma_nothing_goes_wrong(ready.endpoint);
    handshake::lemma_drained_keeps(ready.endpoint);
    let (next, sent, error) = c.collected();
    if c.time - c.proto_last_send > 100_000_000 {
        let i = c.endpoint.outbox.len() as int;
        assert(ready.endpoint.outbox[i] == ready.endpoint.outbox.last());
        assert(sent[i].bytes == ready.endpoint.outbox[i]);
        assert(reads_body(sent[i].bytes, body));
    }
}

/// A connected client sends its server all that its endpoint has to send. Where that is nothing,
/// and nothing was sent for 100 ms, it sends a keep alive.
pub proof fn lemma_client_talks(c: ClientView, server: PeerAddr, xor_salt: u64)
    requires
        c.endpoint.wf(),
        in_step(c.endpoint),
        c.endpoint.config.max_packet_size >= 571,
        c.state is Connected,
        c.server_addr == Some(server),
        c.xor_salt == Some(xor_salt),
    ensures
        ({
            let (next, sent, error) = c.collected();
            let (endpoint, packets, _) = c.endpoint.drained();
            let idle = packets.len() == 0 && c.time - c.last_send_time >= 100_000_000;
            &&& error is None || idle
            &&& next.state is Connected
            &&& next.xor_salt == c.xor_salt
            &&& next.server_addr == c.server_addr
            &&& next.last_receive_time == c.last_receive_time
            &&& next.time == c.time
            &&& forall|i: int| 0 <= i < sent.len() ==> (#[trigger] sent[i]).address == server
            &&& !idle ==> sent == packets::addressed(server, packets) && next.endpoint == endpoint
                && next.last_send_time == c.last_send_time
            &&& idle && endpoint.wf() && can_send(endpoint) ==> error is None && collected_for(
                sent,
                server,
                PacketBody::KeepAlive { xor_salt, client_index: 0 },
            ) && next.last_send_time == c.time
        }),
{
    let (endpoint, packets, _) = c.endpoint.drained();
    let body = PacketBody::KeepAlive { xor_salt, client_index: 0 };
    lemma_nothing_goes_wrong(c.endpoint);
    if endpoint.wf() && can_send(endpoint) {
        lemma_sends(endpoint, body);
        let kept = endpoint.next_sent(body).state;
        lemma_nothing_goes_wrong(kept);
        handshake::lemma_drained_keeps(kept);
        if packets.len() == 0 && c.time - c.last_send_time >= 100_000_000 {
            let sent = c.collected().1;
            assert(sent[0].bytes == kept.outbox[0]);
            assert(kept.outbox[0] == kept.outbox.last());
            assert(reads_body(sent[0].bytes, body));
        }
    }
}

proof fn lemma_disconnects(c: ClientView, n: nat)
    requires
        can_send(c.endpoint),
        c.xor_salt is Some,
    ensures
        ({
            let told = c.disconnects_tried(n);
            let body = PacketBody::Disconnect { xor_salt: c.xor_salt->0 };
            &&& can_send(told.endpoint)
            &&& told == ClientView {
                endpoint: told.endpoint,
                last_send_time: told.last_send_time,
                ..c
            }
            &&& told.endpoint.outbox.len() == c.endpoint.outbox.len() + n
            &&& c.endpoint.outbox.is_prefix_of(told.endpoint.outbox)
            &&& forall|i: int|
                c.endpoint.outbox.len() <= i < told.endpoint.outbox.len() ==> #[trigger] reads_body(
                    told.endpoint.outbox[i],
                    body,
                )
        }),
    decreases n,
{
    if n > 0 {
        lemma_disconnects(c, (n - 1) as nat);
        let before = c.disconnects_tried((n - 1) as nat);
        let told = c.disconnects_tried(n);
        let body = PacketBody::Disconnect { xor_salt: c.xor_salt->0 };
        lemma_sends(before.endpoint, body);
        assert forall|i: int|
            c.endpoint.outbox.len() <= i < told.endpoint.outbox.len() implies #[trigger] reads_body(
            told.endpoint.outbox[i],
            body,
        ) by {
            if i < before.endpoint.outbox.len() {
                assert(told.endpoint.outbox[i] == before.endpoint.outbox[i]);
                assert(reads_body(before.endpoint.outbox[i], body));
            }
        }
    }
}

/// A client on its way out tells its server ten times that the connection is over, behind what was
/// to be sent before, and is then disconnected.
pub proof fn lemma_client_leaves(c: ClientView, server: PeerAddr, xor_salt: u64)
    requires
        can_send(c.endpoint),
        c.state is SelfInitiatedDisconnect,
        c.server_addr == Some(server),
        c.xor_salt == Some(xor_salt),
    ensures
        ({
            let (next, sent, error) = c.collected();
            &&& error is None
            &&& sent.len() == c.endpoint.outbox.len() + 10
            &&& forall|i: int| 0 <= i < sent.len() ==> (#[trigger] sent[i]).address == server
            &&& forall|i: int|
                0 <= i < c.endpoint.outbox.len() ==> (#[trigger] sent[i]).bytes
                    == c.endpoint.outbox[i]
            &&& forall|i: int|
                c.endpoint.outbox.len() <= i < sent.len() ==> reads_body(
                    (#[trigger] sent[i]).bytes,
                    PacketBody::Disconnect { xor_salt },
                )
            &&& next.state == ClientState::Disconnected(DisconnectReason::Normal)
            &&& next.xor_salt is None
            &&& next.client_salt is None
            &&& next.server_salt is None
            &&& next.server_addr is None
            &&& next.endpoint.xor_salt is None
            &&& next.time == c.time
        }),
{
    lemma_disconnects(c, 10);
    let told = c.disconnects_tried(10);
    let sent = c.collected().1;
    assert forall|i: int| c.endpoint.outbox.len() <= i < sent.len() implies reads_body(
        (#[trigger] sent[i]).bytes,
        PacketBody::Disconnect { xor_salt },
    ) by {
        assert(reads_body(told.endpoint.outbox[i], PacketBody::Disconnect { xor_salt }));
    }
}

/// A client without a server sends nothing, and stays as it is.
pub proof fn lemma_client_alone(c: ClientView)
    requires
        c.server_addr is None,
    ensures
        c.collected().0 == c,
        c.collected().1.len() == 0,
        c.collected().2 is None,
{
}

/// With the settings that there are by default, an endpoint that starts can send whatever packet
/// there is, has room in a packet for the largest message there is, and takes messages of up to
/// 1024 fragments.
pub proof fn lemma_defaults_suffice(time: Time)
    ensures
        ({
            let config = ConfigView::default_settings();
            let e = pickleback::fresh_endpoint(config, time);
            &&& config.valid()
            &&& e.wf()
            &&& can_send(e)
            &&& e.drained().1.len() == 0
            &&& e.drained().2 is None
            &&& e.next_filling().out.room >= 1043
            &&& config.max_message_size == 1024 * 1024
            &&& e.next_filling().out.out.len() + e.next_filling().out.room == 1150
        }),
{
    let config = ConfigView::default_settings();
    let e = pickleback::fresh_endpoint(config, time);
    receiving::lemma_fresh(config, time);
    channel::lemma_first_ready(e.channels, 0);
    lemma_quiet(e);
    let begun = e.next_begun();
    pickleback::lemma_head_len(begun, begun.header(PacketType::Messages)->Ok_0);
}

/// A client and a server that have just been made know of nobody, and send nothing.
pub proof fn lemma_fresh_ends(time: Time, config: ConfigView)
    ensures
        ({
            let c = ClientView::fresh(time, config);
            let s = ServerView::fresh(time, config);
            &&& c.time == time
            &&& c.state == ClientState::Disconnected(DisconnectReason::Normal)
            &&& c.server_addr is None
            &&& c.xor_salt is None
            &&& c.client_salt is None
            &&& c.server_salt is None
            &&& c.collected().0 == c
            &&& c.collected().1.len() == 0
            &&& c.endpoint.config == config
            &&& s.time == time
            &&& s.config == config
            &&& s.pending.len() == 0
            &&& s.connected.len() == 0
            &&& s.collected().sent.len() == 0
            &&& s.collected().error is None
        }),
{
}

} // verus!
