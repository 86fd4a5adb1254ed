//! What holds of a server and its clients: who is sent what, and who hears what.

use crate::address::PeerAddr;
use crate::client::{ClientState, ClientView};
use crate::delivery;
use crate::endpoint::EndpointView;
use crate::error::PicklebackError;
use crate::protocol::packets::{self, AddressedView, PacketBody, PacketView};
use crate::protocol::DisconnectReason;
use crate::server::{self, Collecting, ConnectedView, PendingView, ServerView};
use crate::time::Time;
use crate::upkeep;
use vstd::prelude::*;

verus! {

/// Whether client number `i` is the first that is connected with this salt and address.
pub open spec fn is_session(
    connected: Seq<ConnectedView>,
    i: int,
    xor_salt: u64,
    addr: PeerAddr,
) -> bool {
    &&& 0 <= i < connected.len()
    &&& connected[i].xor_salt == xor_salt
    &&& connected[i].socket_addr == addr
    &&& forall|j: int|
        0 <= j < i ==> (#[trigger] connected[j]).xor_salt != xor_salt || connected[j].socket_addr
            != addr
}

/// Whether nobody is connected with this salt and address.
pub open spec fn no_session(connected: Seq<ConnectedView>, xor_salt: u64, addr: PeerAddr) -> bool {
    forall|j: int|
        0 <= j < connected.len() ==> (#[trigger] connected[j]).xor_salt != xor_salt
            || connected[j].socket_addr != addr
}

proof fn lemma_find_session(
    connected: Seq<ConnectedView>,
    i: int,
    xor_salt: u64,
    addr: PeerAddr,
    from: int,
)
    requires
        0 <= from,
    ensures
        is_session(connected, i, xor_salt, addr) && from <= i ==> server::find_connected(
            connected,
            xor_salt,
            addr,
            from,
        ) == Some(i),
        no_session(connected, xor_salt, addr) ==> server::find_connected(
            connected,
            xor_salt,
            addr,
            from,
        ) is None,
    decreases connected.len() - from,
{
    if from < connected.len() {
        lemma_find_session(connected, i, xor_salt, addr, from + 1);
    }
}

/// The salt that a packet carries once a client is connected.
pub open spec fn session_salt(body: PacketBody) -> Option<u64> {
    match body {
        PacketBody::Messages { xor_salt } => Some(xor_salt),
        PacketBody::KeepAlive { xor_salt, client_index: _ } => Some(xor_salt),
        _ => None,
    }
}

/// A packet of messages, or a keep alive, with the salt and from the address of a connected client
/// is handed to that client's endpoint, with all that stands behind the header. The client has been
/// heard of. No other client is affected, nor anything else.
pub proof fn lemma_server_hears(
    s: ServerView,
    bytes: Seq<u8>,
    addr: PeerAddr,
    salt: u64,
    i: int,
    packet: PacketView,
    rest: Seq<u8>,
    xor_salt: u64,
)
    requires
        packets::parse_packet(bytes) == Ok::<_, PicklebackError>((packet, rest)),
        session_salt(packet.body) == Some(xor_salt),
        is_session(s.connected, i, xor_salt, addr),
    ensures
        ({
            let (next, result) = s.received(bytes, addr, salt);
            let o = s.connected[i].endpoint.packet_received(packet.header, rest);
            &&& result == o.result
            &&& next.connected.len() == s.connected.len()
            &&& next.connected[i].endpoint == o.state
            &&& next.connected[i].confirmed
            &&& next.connected[i].last_received_time == s.time
            &&& next.connected[i].xor_salt == xor_salt
            &&& next.connected[i].socket_addr == addr
            &&& next.connected[i].last_sent_time == s.connected[i].last_sent_time
            &&& forall|j: int|
                0 <= j < s.connected.len() && j != i ==> #[trigger] next.connected[j]
                    == s.connected[j]
            &&& next.pending == s.pending
            &&& next.outbox == s.outbox
            &&& next.time == s.time
            &&& next.config == s.config
        }),
{
    lemma_find_session(s.connected, i, xor_salt, addr, 0);
}

/// Such a packet from anybody else changes nothing.
pub proof fn lemma_server_ignores_strangers(
    s: ServerView,
    bytes: Seq<u8>,
    addr: PeerAddr,
    salt: u64,
    packet: PacketView,
    rest: Seq<u8>,
    xor_salt: u64,
)
    requires
        packets::parse_packet(bytes) == Ok::<_, PicklebackError>((packet, rest)),
        session_salt(packet.body) == Some(xor_salt) || packet.body == (PacketBody::Disconnect {
            xor_salt,
        }),
        no_session(s.connected, xor_salt, addr),
    ensures
        s.received(bytes, addr, salt) == (s, Ok::<(), PicklebackError>(())),
{
    lemma_find_session(s.connected, 0, xor_salt, addr, 0);
}

/// What cannot be read changes nothing, and neither do packets that only a server sends.
pub proof fn lemma_server_ignores_noise(s: ServerView, bytes: Seq<u8>, addr: PeerAddr, salt: u64)
    ensures
        packets::parse_packet(bytes) matches Err(e) ==> s.received(bytes, addr, salt) == (
            s,
            Err::<(), _>(e),
        ),
        packets::parse_packet(bytes) matches Ok((p, _)) ==> (p.body is ConnectionChallenge
            || p.body is ConnectionDenied) ==> s.received(bytes, addr, salt) == (
            s,
            Ok::<(), PicklebackError>(()),
        ),
{
}

/// From a client to its server: all messages that were put into a packet at the client's end, which
/// is received by the server for the first time, are received there by the endpoint for that
/// client, in the order in which they were put in.
pub proof fn lemma_server_gets_messages(
    sender: EndpointView,
    s: ServerView,
    addr: PeerAddr,
    salt: u64,
    i: int,
    xor_salt: u64,
)
    requires
        sender.wf(),
        delivery::genuine_channels(sender.channels),
        sender.xor_salt == Some(xor_salt),
        sender.packet_composed().result is Ok,
        is_session(s.connected, i, xor_salt, addr),
        s.connected[i].endpoint.received.in_range(sender.next_begun().sequence_id),
        s.connected[i].endpoint.received.lookup(sender.next_begun().sequence_id) is None,
    ensures
        ({
            let bytes = sender.packet_composed().state.outbox.last();
            let ms = sender.next_filling().picked();
            let (packet, rest) = packets::parse_packet(bytes)->Ok_0;
            let (next, result) = s.received(bytes, addr, salt);
            &&& result is Ok
            &&& next.connected[i].endpoint == s.connected[i].endpoint.packet_noted(
                packet.header,
                rest,
            ).all_received(ms)
        }),
{
    let bytes = sender.packet_composed().state.outbox.last();
    delivery::lemma_packet_delivered(sender, s.connected[i].endpoint, xor_salt);
    let (packet, rest) = packets::parse_packet(bytes)->Ok_0;
    lemma_server_hears(s, bytes, addr, salt, i, packet, rest, xor_salt);
}

/// A connected client hands packets with the salt of its connection to its endpoint, with all that
/// stands behind the header, and stays connected. Packets with another salt it ignores.
pub proof fn lemma_client_hears(
    c: ClientView,
    bytes: Seq<u8>,
    source: PeerAddr,
    packet: PacketView,
    rest: Seq<u8>,
    xor_salt: u64,
)
    requires
        packets::parse_packet(bytes) == Ok::<_, PicklebackError>((packet, rest)),
        session_salt(packet.body) == Some(xor_salt),
        c.state is Connected,
        c.server_addr == Some(source),
    ensures
        ({
            let (next, result) = c.received(bytes, source);
            let o = c.endpoint.packet_received(packet.header, rest);
            &&& next == ClientView {
                endpoint: if c.xor_salt == Some(xor_salt) {
                    o.state
                } else {
                    c.endpoint
                },
                last_receive_time: c.time,
                ..c
            }
            &&& result == if c.xor_salt == Some(xor_salt) {
                o.result
            } else {
                Ok::<(), PicklebackError>(())
            }
        }),
{
}

/// From a server to its client: all messages that were put into a packet at the server's end, which
/// the connected client receives for the first time, are received there, in the order in which they
/// were put in.
pub proof fn lemma_client_gets_messages(
    sender: EndpointView,
    c: ClientView,
    source: PeerAddr,
    xor_salt: u64,
)
    requires
        sender.wf(),
        delivery::genuine_channels(sender.channels),
        sender.xor_salt == Some(xor_salt),
        sender.packet_composed().result is Ok,
        c.state is Connected,
        c.server_addr == Some(source),
        c.xor_salt == Some(xor_salt),
        c.endpoint.received.in_range(sender.next_begun().sequence_id),
        c.endpoint.received.lookup(sender.next_begun().sequence_id) is None,
    ensures
        ({
            let bytes = sender.packet_composed().state.outbox.last();
            let ms = sender.next_filling().picked();
            let (packet, rest) = packets::parse_packet(bytes)->Ok_0;
            let (next, result) = c.received(bytes, source);
            &&& result is Ok
            &&& next.state is Connected
            &&& next.endpoint == c.endpoint.packet_noted(packet.header, rest).all_received(ms)
        }),
{
    let bytes = sender.packet_composed().state.outbox.last();
    delivery::lemma_packet_delivered(sender, c.endpoint, xor_salt);
    let (packet, rest) = packets::parse_packet(bytes)->Ok_0;
    lemma_client_hears(c, bytes, source, packet, rest, xor_salt);
}

/// Whether all of `bytes`, one after the other and under one address, stand somewhere in `sent`.
pub open spec fn all_sent(
    sent: Seq<AddressedView>,
    address: PeerAddr,
    bytes: Seq<Seq<u8>>,
) -> bool {
    exists|at: int| #[trigger] stands_at(sent, at, address, bytes)
}

/// Whether all of `bytes` stand in `sent` from number `at` on, under one address.
pub open spec fn stands_at(
    sent: Seq<AddressedView>,
    at: int,
    address: PeerAddr,
    bytes: Seq<Seq<u8>>,
) -> bool {
    &&& 0 <= at
    &&& at + bytes.len() <= sent.len()
    &&& forall|k: int|
        0 <= k < bytes.len() ==> (#[trigger] sent[at + k]).address == address && sent[at + k].bytes
            == bytes[k]
}

proof fn lemma_appended(
    sent: Seq<AddressedView>,
    address: PeerAddr,
    bytes: Seq<Seq<u8>>,
    more: Seq<AddressedView>,
)
    ensures
        all_sent(sent + packets::addressed(address, bytes), address, bytes),
        all_sent(sent, address, bytes) ==> all_sent(sent + more, address, bytes),
{
    assert(stands_at(
        sent + packets::addressed(address, bytes),
        sent.len() as int,
        address,
        bytes,
    ));
    if all_sent(sent, address, bytes) {
        let at = choose|at: int| #[trigger] stands_at(sent, at, address, bytes);
        assert forall|k: int| 0 <= k < bytes.len() implies (#[trigger] (sent + more)[at + k]).address
            == address && (sent + more)[at + k].bytes == bytes[k] by {
            assert((sent + more)[at + k] == sent[at + k]);
        }
        assert(stands_at(sent + more, at, address, bytes));
    }
}

/// Whether a packet that was collected is for one of the first `n` connected clients.
pub open spec fn for_connected(connected: Seq<ConnectedView>, n: int, a: AddressedView) -> bool {
    exists|j: int|
        0 <= j < n && (#[trigger] connected[j]).socket_addr == a.address
            && connected[j].endpoint.drained().1.contains(a.bytes)
}

/// Whether a packet that was collected is for one of the first `n` pending clients.
pub open spec fn for_pending(pending: Seq<PendingView>, n: int, a: AddressedView) -> bool {
    exists|j: int|
        0 <= j < n && (#[trigger] pending[j]).socket_addr == a.address
            && pending[j].endpoint.drained().1.contains(a.bytes)
}

/// A connected client after all that is to be sent to it was taken.
pub open spec fn emptied(c: ConnectedView, now: Time) -> ConnectedView {
    let (endpoint, sent, _) = c.endpoint.drained();
    ConnectedView {
        endpoint,
        last_sent_time: if sent.len() == 0 {
            c.last_sent_time
        } else {
            now
        },
        ..c
    }
}

proof fn lemma_all_connected(c: Collecting, n: int)
    requires
        0 <= n <= c.server.connected.len(),
    ensures
        ({
            let r = c.all_connected(n);
            let before = c.server.connected;
            &&& r.server == ServerView { connected: r.server.connected, ..c.server }
            &&& r.server.connected.len() == before.len()
            &&& c.sent.is_prefix_of(r.sent)
            &&& forall|j: int| n <= j < before.len() ==> #[trigger] r.server.connected[j] == before[j]
            &&& r.error is None ==> {
                &&& c.error is None
                &&& forall|j: int|
                    0 <= j < n ==> #[trigger] r.server.connected[j] == emptied(
                        before[j],
                        c.server.time,
                    )
                &&& forall|j: int|
                    0 <= j < n ==> all_sent(
                        r.sent,
                        (#[trigger] before[j]).socket_addr,
                        before[j].endpoint.drained().1,
                    )
            }
            &&& forall|k: int|
                c.sent.len() <= k < r.sent.len() ==> for_connected(before, n, #[trigger] r.sent[k])
        }),
    decreases n,
{
    if n > 0 {
        lemma_all_connected(c, n - 1);
        let m = c.all_connected(n - 1);
        let r = c.all_connected(n);
        let before = c.server.connected;
        assert forall|k: int| c.sent.len() <= k < m.sent.len() implies for_connected(
            before,
            n,
            #[trigger] m.sent[k],
        ) by {
            assert(for_connected(before, n - 1, m.sent[k]));
            let j = choose|j: int|
                0 <= j < n - 1 && (#[trigger] before[j]).socket_addr == m.sent[k].address
                    && before[j].endpoint.drained().1.contains(m.sent[k].bytes);
            assert(before[j].socket_addr == m.sent[k].address);
        }
        if m.error is None {
            let x = before[n - 1];
            assert(m.server.connected[n - 1] == x);
            let bytes = x.endpoint.drained().1;
            let more = packets::addressed(x.socket_addr, bytes);
            assert(r.sent == m.sent + more);
            lemma_appended(m.sent, x.socket_addr, bytes, more);
            assert forall|j: int| 0 <= j < n && r.error is None implies all_sent(
                r.sent,
                (#[trigger] before[j]).socket_addr,
                before[j].endpoint.drained().1,
            ) by {
                if j < n - 1 {
                    lemma_appended(
                        m.sent,
                        before[j].socket_addr,
                        before[j].endpoint.drained().1,
                        more,
                    );
                }
            }
            assert forall|k: int| c.sent.len() <= k < r.sent.len() implies for_connected(
                before,
                n,
                #[trigger] r.sent[k],
            ) by {
                if k < m.sent.len() {
                    assert(r.sent[k] == m.sent[k]);
                } else {
                    assert(r.sent[k] == more[k - m.sent.len()]);
                    assert(bytes.contains(bytes[k - m.sent.len()]));
                    assert(before[n - 1].socket_addr == r.sent[k].address);
                }
            }
        }
    }
}

proof fn lemma_all_pending(c: Collecting, n: int)
    requires
        0 <= n <= c.server.pending.len(),
    ensures
        ({
            let r = c.all_pending(n);
            let before = c.server.pending;
            &&& r.server == ServerView { pending: r.server.pending, ..c.server }
            &&& r.server.pending.len() == before.len()
            &&& c.sent.is_prefix_of(r.sent)
            &&& forall|j: int| n <= j < before.len() ==> #[trigger] r.server.pending[j] == before[j]
            &&& r.error is None ==> {
                &&& c.error is None
                &&& forall|j: int|
                    0 <= j < n ==> #[trigger] r.server.pending[j] == (PendingView {
                        endpoint: before[j].endpoint.drained().0,
                        ..before[j]
                    })
                &&& forall|j: int|
                    0 <= j < n ==> all_sent(
                        r.sent,
                        (#[trigger] before[j]).socket_addr,
                        before[j].endpoint.drained().1,
                    )
            }
            &&& forall|k: int|
                c.sent.len() <= k < r.sent.len() ==> for_pending(before, n, #[trigger] r.sent[k])
        }),
    decreases n,
{
    if n > 0 {
        lemma_all_pending(c, n - 1);
        let m = c.all_pending(n - 1);
        let r = c.all_pending(n);
        let before = c.server.pending;
        assert forall|k: int| c.sent.len() <= k < m.sent.len() implies for_pending(
            before,
            n,
            #[trigger] m.sent[k],
        ) by {
            assert(for_pending(before, n - 1, m.sent[k]));
            let j = choose|j: int|
                0 <= j < n - 1 && (#[trigger] before[j]).socket_addr == m.sent[k].address
                    && before[j].endpoint.drained().1.contains(m.sent[k].bytes);
            assert(before[j].socket_addr == m.sent[k].address);
        }
        if m.error is None {
            let x = before[n - 1];
            assert(m.server.pending[n - 1] == x);
            let bytes = x.endpoint.drained().1;
            let more = packets::addressed(x.socket_addr, bytes);
            assert(r.sent == m.sent + more);
            lemma_appended(m.sent, x.socket_addr, bytes, more);
            assert forall|j: int| 0 <= j < n && r.error is None implies all_sent(
                r.sent,
                (#[trigger] before[j]).socket_addr,
                before[j].endpoint.drained().1,
            ) by {
                if j < n - 1 {
                    lemma_appended(
                        m.sent,
                        before[j].socket_addr,
                        before[j].endpoint.drained().1,
                        more,
                    );
                }
            }
            assert forall|k: int| c.sent.len() <= k < r.sent.len() implies for_pending(
                before,
                n,
                #[trigger] r.sent[k],
            ) by {
                if k < m.sent.len() {
                    assert(r.sent[k] == m.sent[k]);
                } else {
                    assert(r.sent[k] == more[k - m.sent.len()]);
                    assert(bytes.contains(bytes[k - m.sent.len()]));
                    assert(before[n - 1].socket_addr == r.sent[k].address);
                }
            }
        }
    }
}

/// Unless something goes wrong, all that any client is to be sent is collected, in order and under
/// the address of that client, along with the packets to clients that are not known. Nothing else
/// is, and nothing but what was to be sent changes with any client.
pub proof fn lemma_collected_all(s: ServerView)
    requires
        s.collected().error is None,
    ensures
        ({
            let sent = s.collected().sent;
            let next = s.collected().server;
            &&& s.outbox.is_prefix_of(sent)
            &&& next.outbox.len() == 0
            &&& next.time == s.time
            &&& next.config == s.config
            &&& next.connected.len() == s.connected.len()
            &&& next.pending.len() == s.pending.len()
            &&& forall|i: int|
                0 <= i < s.connected.len() ==> #[trigger] next.connected[i] == emptied(
                    s.connected[i],
                    s.time,
                )
            &&& forall|i: int|
                0 <= i < s.connected.len() ==> all_sent(
                    sent,
                    (#[trigger] s.connected[i]).socket_addr,
                    s.connected[i].endpoint.drained().1,
                )
            &&& forall|i: int|
                0 <= i < s.pending.len() ==> #[trigger] next.pending[i] == (PendingView {
                    endpoint: s.pending[i].endpoint.drained().0,
                    ..s.pending[i]
                })
            &&& forall|i: int|
                0 <= i < s.pending.len() ==> all_sent(
                    sent,
                    (#[trigger] s.pending[i]).socket_addr,
                    s.pending[i].endpoint.drained().1,
                )
            &&& forall|k: int|
                s.outbox.len() <= k < sent.len() ==> for_connected(
                    s.connected,
                    s.connected.len() as int,
                    #[trigger] sent[k],
                ) || for_pending(s.pending, s.pending.len() as int, sent[k])
        }),
{
    let start = Collecting {
        server: ServerView { outbox: Seq::empty(), ..s },
        sent: s.outbox,
        error: None,
    };
    let n = s.pending.len() as int;
    let m = start.all_pending(n);
    lemma_all_pending(start, n);
    lemma_all_connected(m, s.connected.len() as int);
    let r = s.collected();
    assert forall|i: int| 0 <= i < s.pending.len() implies all_sent(
        r.sent,
        (#[trigger] s.pending[i]).socket_addr,
        s.pending[i].endpoint.drained().1,
    ) by {
        let (address, bytes) = (s.pending[i].socket_addr, s.pending[i].endpoint.drained().1);
        assert(all_sent(m.sent, address, bytes));
        lemma_appended(m.sent, address, bytes, r.sent.skip(m.sent.len() as int));
        assert(r.sent =~= m.sent + r.sent.skip(m.sent.len() as int));
    }
    assert forall|k: int| s.outbox.len() <= k < r.sent.len() implies for_connected(
        s.connected,
        s.connected.len() as int,
        #[trigger] r.sent[k],
    ) || for_pending(s.pending, n, r.sent[k]) by {
        if k < m.sent.len() {
            assert(r.sent[k] == m.sent[k]);
        }
    }
}

/// Whether client number `i` is the first pending one that was asked to answer with this salt, which
/// is made of its own and the server's, from this address.
pub open spec fn is_challenged(
    pending: Seq<PendingView>,
    i: int,
    xor_salt: u64,
    addr: PeerAddr,
) -> bool {
    &&& 0 <= i < pending.len()
    &&& pending[i].client_salt ^ pending[i].server_salt == xor_salt
    &&& pending[i].socket_addr == addr
    &&& forall|j: int|
        0 <= j < i ==> (#[trigger] pending[j]).client_salt ^ pending[j].server_salt != xor_salt
            || pending[j].socket_addr != addr
}

/// Whether nobody was asked to answer with this salt from this address.
pub open spec fn not_challenged(pending: Seq<PendingView>, xor_salt: u64, addr: PeerAddr) -> bool {
    forall|j: int|
        0 <= j < pending.len() ==> (#[trigger] pending[j]).client_salt ^ pending[j].server_salt
            != xor_salt || pending[j].socket_addr != addr
}

/// Whether some client has asked for a connection with this salt, from this address.
pub open spec fn has_asked(pending: Seq<PendingView>, client_salt: u64, addr: PeerAddr) -> bool {
    exists|j: int|
        0 <= j < pending.len() && (#[trigger] pending[j]).client_salt == client_salt
            && pending[j].socket_addr == addr
}

/// Looking for a pending client finds the first one that an answer is from.
pub proof fn lemma_find_challenged(
    pending: Seq<PendingView>,
    i: int,
    xor_salt: u64,
    addr: PeerAddr,
    from: int,
)
    requires
        0 <= from,
    ensures
        is_challenged(pending, i, xor_salt, addr) && from <= i ==> server::find_challenged(
            pending,
            xor_salt,
            addr,
            from,
        ) == Some(i),
        not_challenged(pending, xor_salt, addr) ==> server::find_challenged(
            pending,
            xor_salt,
            addr,
            from,
        ) is None,
    decreases pending.len() - from,
{
    if from < pending.len() {
        lemma_find_challenged(pending, i, xor_salt, addr, from + 1);
    }
}

/// Looking for a pending client finds one just if it has asked.
pub proof fn lemma_find_asked(
    pending: Seq<PendingView>,
    client_salt: u64,
    addr: PeerAddr,
    from: int,
)
    requires
        0 <= from,
    ensures
        !has_asked(pending, client_salt, addr) ==> server::find_pending(
            pending,
            client_salt,
            addr,
            from,
        ) is None,
        (exists|j: int|
            from <= j < pending.len() && (#[trigger] pending[j]).client_salt == client_salt
                && pending[j].socket_addr == addr) ==> server::find_pending(
            pending,
            client_salt,
            addr,
            from,
        ) is Some,
    decreases pending.len() - from,
{
    if from < pending.len() {
        lemma_find_asked(pending, client_salt, addr, from + 1);
    }
}

/// A client that asks for a connection becomes a pending one, with the salt made up for it, unless
/// it has asked before. One that speaks another version of the protocol is turned away, and told
/// why. Nobody else is affected.
pub proof fn lemma_server_asked(
    s: ServerView,
    bytes: Seq<u8>,
    addr: PeerAddr,
    salt: u64,
    packet: PacketView,
    rest: Seq<u8>,
    client_salt: u64,
    protocol_version: u64,
)
    requires
        packets::parse_packet(bytes) == Ok::<_, PicklebackError>((packet, rest)),
        packet.body == (PacketBody::ConnectionRequest { client_salt, protocol_version }),
        s.config.max_packet_size >= 4,
    ensures
        ({
            let (next, result) = s.received(bytes, addr, salt);
            let new = protocol_version == 1 && !has_asked(s.pending, client_salt, addr);
            &&& result is Ok
            &&& next == ServerView { pending: next.pending, outbox: next.outbox, ..s }
            &&& new ==> {
                &&& next.pending.len() == s.pending.len() + 1
                &&& s.pending.is_prefix_of(next.pending)
                &&& next.pending.last().client_salt == client_salt
                &&& next.pending.last().server_salt == salt
                &&& next.pending.last().socket_addr == addr
                &&& next.pending.last().first_requested_time == s.time
                &&& next.pending.last().last_challenged_at == 0
                &&& next.pending.last().endpoint.time == s.time
                &&& next.pending.last().endpoint.outbox.len() == 0
            }
            &&& !new ==> next.pending == s.pending
            &&& protocol_version == 1 ==> next.outbox == s.outbox
            &&& protocol_version != 1 ==> turned_away(
                s,
                next,
                addr,
                DisconnectReason::ProtocolMismatch,
            )
        }),
{
    lemma_find_asked(s.pending, client_salt, addr, 0);
    lemma_turned_away(s, addr, DisconnectReason::ProtocolMismatch);
}

/// Whether a client was told, behind all that was to be sent before, why it is turned away.
pub open spec fn turned_away(
    s: ServerView,
    next: ServerView,
    addr: PeerAddr,
    reason: DisconnectReason,
) -> bool {
    &&& next.outbox.len() == s.outbox.len() + 1
    &&& s.outbox.is_prefix_of(next.outbox)
    &&& next.outbox.last().address == addr
    &&& packets::parse_packet(next.outbox.last().bytes) matches Ok((p, _)) && p.body == (
    PacketBody::ConnectionDenied { reason })
}

proof fn lemma_turned_away(s: ServerView, addr: PeerAddr, reason: DisconnectReason)
    requires
        s.config.max_packet_size >= 4,
    ensures
        ({
            let (next, result) = s.denied(addr, reason);
            &&& result is Ok
            &&& turned_away(s, next, addr, reason)
            &&& next == ServerView { outbox: next.outbox, ..s }
        }),
{
    broadcast use crate::wire::lemma_be_bytes_len;

    packets::lemma_parse_packet(ServerView::denial(reason));
    assert(ServerView::denial(reason).encoded().len() == 4);
}

/// A pending client that answers with the salt made of both is no longer pending but connected, and
/// a keep alive tells it so. All others stay. Who was not asked is turned away, and told why.
pub proof fn lemma_server_answered(
    s: ServerView,
    bytes: Seq<u8>,
    addr: PeerAddr,
    salt: u64,
    i: int,
    packet: PacketView,
    rest: Seq<u8>,
    xor_salt: u64,
)
    requires
        packets::parse_packet(bytes) == Ok::<_, PicklebackError>((packet, rest)),
        packet.body == (PacketBody::ConnectionChallengeResponse { xor_salt }),
        s.config.max_packet_size >= 4,
    ensures
        ({
            let (next, result) = s.received(bytes, addr, salt);
            let asked = EndpointView { xor_salt: Some(xor_salt), ..s.pending[i].endpoint };
            &&& next.time == s.time
            &&& next.config == s.config
            &&& is_challenged(s.pending, i, xor_salt, addr) && upkeep::can_send(asked) ==> {
                let c = next.connected.last();
                &&& result is Ok
                &&& next.outbox == s.outbox
                &&& next.pending.len() == s.pending.len() - 1
                &&& forall|j: int| 0 <= j < i ==> #[trigger] next.pending[j] == s.pending[j]
                &&& forall|j: int|
                    i <= j < next.pending.len() ==> #[trigger] next.pending[j] == s.pending[j + 1]
                &&& next.connected.len() == s.connected.len() + 1
                &&& s.connected.is_prefix_of(next.connected)
                &&& c.xor_salt == xor_salt
                &&& c.socket_addr == addr
                &&& !c.confirmed
                &&& c.last_received_time == s.time
                &&& c.last_sent_time == s.time
                &&& upkeep::sends(
                    asked,
                    c.endpoint,
                    PacketBody::KeepAlive { xor_salt, client_index: 0 },
                )
            }
            &&& not_challenged(s.pending, xor_salt, addr) ==> {
                &&& result is Ok
                &&& next.pending == s.pending
                &&& next.connected == s.connected
                &&& turned_away(s, next, addr, DisconnectReason::HandshakeTimeout)
            }
        }),
{
    let asked = EndpointView { xor_salt: Some(xor_salt), ..s.pending[i].endpoint };
    lemma_find_challenged(s.pending, i, xor_salt, addr, 0);
    lemma_turned_away(s, addr, DisconnectReason::HandshakeTimeout);
    if upkeep::can_send(asked) {
        upkeep::lemma_sends(asked, PacketBody::KeepAlive { xor_salt, client_index: 0 });
    }
}

/// A connected client that says that its connection is over is no longer connected. All others
/// stay.
pub proof fn lemma_server_lets_go(
    s: ServerView,
    bytes: Seq<u8>,
    addr: PeerAddr,
    salt: u64,
    i: int,
    packet: PacketView,
    rest: Seq<u8>,
    xor_salt: u64,
)
    requires
        packets::parse_packet(bytes) == Ok::<_, PicklebackError>((packet, rest)),
        packet.body == (PacketBody::Disconnect { xor_salt }),
        is_session(s.connected, i, xor_salt, addr),
    ensures
        ({
            let (next, result) = s.received(bytes, addr, salt);
            &&& result is Ok
            &&& next.connected.len() == s.connected.len() - 1
            &&& forall|j: int| 0 <= j < i ==> #[trigger] next.connected[j] == s.connected[j]
            &&& forall|j: int|
                i <= j < next.connected.len() ==> #[trigger] next.connected[j] == s.connected[j + 1]
            &&& next == ServerView { connected: next.connected, ..s }
        }),
{
    lemma_find_session(s.connected, i, xor_salt, addr, 0);
}

/// Nothing goes wrong with collecting what is to be sent, unless it does with what some client is
/// to be sent.
pub proof fn lemma_collected_fails(s: ServerView)
    ensures
        s.collected().error matches Some(e) ==> (exists|i: int|
            0 <= i < s.pending.len() && (#[trigger] s.pending[i]).endpoint.drained().2 == Some(e))
            || (exists|i: int|
            0 <= i < s.connected.len() && (#[trigger] s.connected[i]).endpoint.drained().2 == Some(
                e,
            )),
{
    let start = Collecting {
        server: ServerView { outbox: Seq::empty(), ..s },
        sent: s.outbox,
        error: None,
    };
    let n = s.pending.len() as int;
    lemma_all_pending(start, n);
    lemma_pending_fails(start, n);
    lemma_all_connected(start.all_pending(n), s.connected.len() as int);
    lemma_connected_fails(start.all_pending(n), s.connected.len() as int);
}

proof fn lemma_pending_fails(c: Collecting, n: int)
    requires
        0 <= n <= c.server.pending.len(),
        c.error is None,
    ensures
        c.all_pending(n).error matches Some(e) ==> exists|i: int|
            0 <= i < n && (#[trigger] c.server.pending[i]).endpoint.drained().2 == Some(e),
    decreases n,
{
    if n > 0 {
        lemma_pending_fails(c, n - 1);
        lemma_all_pending(c, n - 1);
        assert(c.all_pending(n - 1).server.pending[n - 1] == c.server.pending[n - 1]);
    }
}

proof fn lemma_connected_fails(c: Collecting, n: int)
    requires
        0 <= n <= c.server.connected.len(),
    ensures
        c.error is None ==> (c.all_connected(n).error matches Some(e) ==> exists|i: int|
            0 <= i < n && (#[trigger] c.server.connected[i]).endpoint.drained().2 == Some(e)),
        c.error is Some ==> c.all_connected(n).error == c.error,
    decreases n,
{
    if n > 0 {
        lemma_connected_fails(c, n - 1);
        lemma_all_connected(c, n - 1);
        assert(c.all_connected(n - 1).server.connected[n - 1] == c.server.connected[n - 1]);
    }
}

/// What packets of the handshake do to a client. Whatever comes from its server, it has heard of it.
/// A challenge for its own request has it answer, with a salt made of both, and right away. A keep
/// alive with that salt connects it. If it is turned away, it is disconnected, knows why, and keeps
/// nothing of the connection.
pub proof fn lemma_client_handshake(
    c: ClientView,
    bytes: Seq<u8>,
    source: PeerAddr,
    packet: PacketView,
    rest: Seq<u8>,
)
    requires
        packets::parse_packet(bytes) == Ok::<_, PicklebackError>((packet, rest)),
        c.server_addr == Some(source),
        c.endpoint.received.in_range(packet.header.id.0),
        c.endpoint.received.lookup(packet.header.id.0) is None,
        packet.wf(),
    ensures
        ({
            let (next, result) = c.received(bytes, source);
            let noted = c.endpoint.packet_received(packet.header, rest);
            &&& next.time == c.time
            &&& !(next.state is Disconnected) ==> next.last_receive_time == c.time
            &&& packet.body matches PacketBody::ConnectionChallenge { client_salt, server_salt }
                ==> c.state is SendingConnectionRequest ==> {
                &&& c.client_salt == Some(client_salt) ==> {
                    &&& next.state is SendingChallengeResponse
                    &&& next.server_salt == Some(server_salt)
                    &&& next.xor_salt == Some(client_salt ^ server_salt)
                    &&& next.client_salt == c.client_salt
                    &&& next.server_addr == c.server_addr
                    &&& next.proto_last_send == 0
                    &&& next.endpoint == EndpointView {
                        xor_salt: next.xor_salt,
                        ..noted.state
                    }
                    &&& result is Ok
                }
                &&& c.client_salt != Some(client_salt) ==> next == (ClientView {
                    last_receive_time: c.time,
                    ..c
                }) && result == Err::<(), _>(PicklebackError::InvalidPacket)
            }
            &&& packet.body matches PacketBody::KeepAlive { xor_salt, client_index: _ }
                ==> c.state is SendingChallengeResponse ==> {
                &&& c.xor_salt == Some(xor_salt) ==> {
                    &&& next.state is Connected
                    &&& next.xor_salt == c.xor_salt
                    &&& next.server_addr == c.server_addr
                    &&& next.endpoint == EndpointView {
                        xor_salt: Some(xor_salt),
                        ..noted.state
                    }
                    &&& result is Ok
                }
                &&& c.xor_salt != Some(xor_salt) ==> next == (ClientView {
                    last_receive_time: c.time,
                    ..c
                }) && result is Ok
            }
            &&& packet.body matches PacketBody::ConnectionDenied { reason } ==> (c.state
                is SendingConnectionRequest || c.state is SendingChallengeResponse) ==> {
                &&& next.state == ClientState::Disconnected(reason)
                &&& next.server_addr is None
                &&& next.xor_salt is None
                &&& next.client_salt is None
                &&& next.server_salt is None
                &&& result is Ok
            }
            &&& packet.body is ConnectionRequest || packet.body is ConnectionChallengeResponse
                || packet.body is Disconnect || c.state is Disconnected || c.state
                is SelfInitiatedDisconnect ==> next == (ClientView { last_receive_time: c.time, ..c })
                && result is Ok
        }),
{
    if let PacketBody::ConnectionChallenge { client_salt, server_salt } = packet.body {
        assert(server_salt ^ client_salt == client_salt ^ server_salt) by (bit_vector);
    }
}

} // verus!
