//! A server that manages connections to multiple clients.

use crate::address::PeerAddr;
use crate::buffer_pool::{self, BufPool};
use crate::client::{CollectedPackets, RESEND_INTERVAL, TIMEOUT};
use crate::config::{ConfigView, PicklebackConfig};
use crate::cursor::Cursor;
use crate::endpoint::EndpointView;
use crate::entropy;
use crate::error::{IoError, PicklebackError};
use crate::pickleback::{self, Pickleback};
use crate::protocol::packets::{
    self, AddressedPacket, AddressedView, ConnectionChallengePacket, ConnectionDeniedPacket,
    HeaderView, KeepAlivePacket, PacketBody, PacketType, PacketView, ProtocolPacket,
    ProtocolPacketHeader,
};
use crate::protocol::{DisconnectReason, PROTOCOL_VERSION};
use crate::time::{self, Time};
use crate::PacketId;
use vstd::prelude::*;

verus! {

/// A client that has asked for a connection, and has been challenged.
#[verifier::ext_equal]
pub struct PendingView {
    pub client_salt: u64,
    pub server_salt: u64,
    pub first_requested_time: Time,
    pub last_challenged_at: Time,
    pub socket_addr: PeerAddr,
    pub endpoint: EndpointView,
}

impl PendingView {
    /// The salt that packets carry once the client is connected.
    pub open spec fn xor_salt(self) -> u64 {
        self.client_salt ^ self.server_salt
    }

    /// No messages are to be sent to a client that is not connected.
    pub open spec fn wf(self) -> bool {
        forall|k: u8| #[trigger]
            self.endpoint.channels.contains_key(k) ==> self.endpoint.channels[k].queue.len() == 0
    }

    /// With the clock moved on.
    pub open spec fn updated(self, dt: Time) -> Self {
        PendingView { endpoint: self.endpoint.updated(dt), ..self }
    }

    /// Whether the client has been pending for too long.
    pub open spec fn expired(self, now: Time) -> bool {
        now - self.first_requested_time > TIMEOUT
    }

    /// After the client was challenged, unless it was a moment ago. What goes wrong is let be.
    pub open spec fn challenged(self, now: Time) -> Self {
        if now - self.last_challenged_at > RESEND_INTERVAL {
            PendingView {
                last_challenged_at: now,
                endpoint: self.endpoint.next_sent(
                    PacketBody::ConnectionChallenge {
                        client_salt: self.client_salt,
                        server_salt: self.server_salt,
                    },
                ).state,
                ..self
            }
        } else {
            self
        }
    }
}

/// A client that is connected.
#[verifier::ext_equal]
pub struct ConnectedView {
    pub xor_salt: u64,
    pub socket_addr: PeerAddr,
    /// Whether anything was received from the client since it was connected.
    pub confirmed: bool,
    pub client_index: Option<u32>,
    pub last_received_time: Time,
    /// When a packet was last sent to the client.
    pub last_sent_time: Time,
    pub endpoint: EndpointView,
}

impl ConnectedView {
    /// Packets of messages can be sent to the client.
    pub open spec fn wf(self) -> bool {
        self.endpoint.xor_salt is Some
    }

    /// With the clock moved on.
    pub open spec fn updated(self, dt: Time) -> Self {
        ConnectedView { endpoint: self.endpoint.updated(dt), ..self }
    }

    /// Whether nothing was received from the client for too long.
    pub open spec fn expired(self, now: Time) -> bool {
        now - self.last_received_time > TIMEOUT
    }

    /// After a keep alive was sent, if one is called for: until the client is confirmed, or if
    /// nothing was sent for a while. What goes wrong is let be.
    pub open spec fn kept_alive(self, now: Time) -> Self {
        if !self.confirmed || now - self.last_sent_time > RESEND_INTERVAL {
            let o = self.endpoint.next_sent(
                PacketBody::KeepAlive {
                    xor_salt: self.xor_salt,
                    client_index: match self.client_index {
                        Some(i) => i,
                        None => 0,
                    },
                },
            );
            ConnectedView {
                endpoint: o.state,
                last_sent_time: if o.result is Ok {
                    now
                } else {
                    self.last_sent_time
                },
                ..self
            }
        } else {
            self
        }
    }

    /// After the packets to be sent were collected: the client then, the packets, and what went
    /// wrong.
    pub open spec fn drained(self, now: Time) -> (Self, Seq<Seq<u8>>, Option<PicklebackError>) {
        let (endpoint, sent, error) = self.endpoint.drained();
        (
            ConnectedView {
                endpoint,
                last_sent_time: if sent.len() > 0 {
                    now
                } else {
                    self.last_sent_time
                },
                ..self
            },
            sent,
            error,
        )
    }

    /// After a packet was received from the client.
    pub open spec fn received(self, header: HeaderView, rest: Seq<u8>, now: Time) -> (
        Self,
        Result<(), PicklebackError>,
    ) {
        let o = self.endpoint.packet_received(header, rest);
        (
            ConnectedView {
                confirmed: true,
                last_received_time: now,
                endpoint: o.state,
                ..self
            },
            o.result,
        )
    }
}

/// The state of a server.
#[verifier::ext_equal]
pub struct ServerView {
    pub time: Time,
    pub pending: Seq<PendingView>,
    pub connected: Seq<ConnectedView>,
    pub config: ConfigView,
    /// Packets to clients that are not known.
    pub outbox: Seq<AddressedView>,
}

/// The pending clients after the first `n` were processed: those that have been pending for too
/// long are gone, and the others are challenged.
pub open spec fn pending_processed(pending: Seq<PendingView>, now: Time, n: int) -> Seq<PendingView>
    decreases n,
{
    if n <= 0 {
        Seq::empty()
    } else {
        let before = pending_processed(pending, now, n - 1);
        if pending[n - 1].expired(now) {
            before
        } else {
            before.push(pending[n - 1].challenged(now))
        }
    }
}

/// The connected clients after the first `n` were processed: those that nothing was heard of for
/// too long are gone, and the others are kept alive.
pub open spec fn connected_processed(
    connected: Seq<ConnectedView>,
    now: Time,
    n: int,
) -> Seq<ConnectedView>
    decreases n,
{
    if n <= 0 {
        Seq::empty()
    } else {
        let before = connected_processed(connected, now, n - 1);
        if connected[n - 1].expired(now) {
            before
        } else {
            before.push(connected[n - 1].kept_alive(now))
        }
    }
}

/// The first pending client from number `from` on with this salt and address.
pub open spec fn find_pending(
    pending: Seq<PendingView>,
    client_salt: u64,
    addr: PeerAddr,
    from: int,
) -> Option<int>
    decreases pending.len() - from,
{
    if from >= pending.len() {
        None
    } else if pending[from].client_salt == client_salt && pending[from].socket_addr == addr {
        Some(from)
    } else {
        find_pending(pending, client_salt, addr, from + 1)
    }
}

/// The first pending client from number `from` on that a challenge response with this salt is
/// from.
pub open spec fn find_challenged(
    pending: Seq<PendingView>,
    xor_salt: u64,
    addr: PeerAddr,
    from: int,
) -> Option<int>
    decreases pending.len() - from,
{
    if from >= pending.len() {
        None
    } else if pending[from].xor_salt() == xor_salt && pending[from].socket_addr == addr {
        Some(from)
    } else {
        find_challenged(pending, xor_salt, addr, from + 1)
    }
}

/// The first connected client from number `from` on with this salt and address.
pub open spec fn find_connected(
    connected: Seq<ConnectedView>,
    xor_salt: u64,
    addr: PeerAddr,
    from: int,
) -> Option<int>
    decreases connected.len() - from,
{
    if from >= connected.len() {
        None
    } else if connected[from].xor_salt == xor_salt && connected[from].socket_addr == addr {
        Some(from)
    } else {
        find_connected(connected, xor_salt, addr, from + 1)
    }
}

/// What has been collected to be sent.
#[verifier::ext_equal]
pub struct Collecting {
    pub server: ServerView,
    pub sent: Seq<AddressedView>,
    pub error: Option<PicklebackError>,
}

impl Collecting {
    /// With the packets for pending client number `i` added, unless something went wrong before.
    pub open spec fn with_pending(self, i: int) -> Self {
        if self.error is Some {
            self
        } else {
            let p = self.server.pending[i];
            let (endpoint, sent, error) = p.endpoint.drained();
            Collecting {
                server: ServerView {
                    pending: self.server.pending.update(i, PendingView { endpoint, ..p }),
                    ..self.server
                },
                sent: self.sent + packets::addressed(p.socket_addr, sent),
                error,
            }
        }
    }

    /// With the packets for connected client number `i` added, unless something went wrong before.
    pub open spec fn with_connected(self, i: int) -> Self {
        if self.error is Some {
            self
        } else {
            let c = self.server.connected[i];
            let (drained, sent, error) = c.drained(self.server.time);
            Collecting {
                server: ServerView {
                    connected: self.server.connected.update(i, drained),
                    ..self.server
                },
                sent: self.sent + packets::addressed(c.socket_addr, sent),
                error,
            }
        }
    }

    /// With the packets for the first `n` pending clients added.
    pub open spec fn all_pending(self, n: int) -> Self
        decreases n,
    {
        if n <= 0 {
            self
        } else {
            self.all_pending(n - 1).with_pending(n - 1)
        }
    }

    /// With the packets for the first `n` connected clients added.
    pub open spec fn all_connected(self, n: int) -> Self
        decreases n,
    {
        if n <= 0 {
            self
        } else {
            self.all_connected(n - 1).with_connected(n - 1)
        }
    }
}

impl ServerView {
    /// A server without clients.
    pub open spec fn fresh(time: Time, config: ConfigView) -> Self {
        ServerView {
            time,
            pending: Seq::empty(),
            connected: Seq::empty(),
            config,
            outbox: Seq::empty(),
        }
    }

    /// With the clock moved on, and the clients processed.
    pub open spec fn updated(self, dt: Time) -> Self {
        let now = time::advanced(self.time, dt);
        let pending = self.pending.map_values(|p: PendingView| p.updated(dt));
        let connected = self.connected.map_values(|c: ConnectedView| c.updated(dt));
        ServerView {
            time: now,
            pending: pending_processed(pending, now, pending.len() as int),
            connected: connected_processed(connected, now, connected.len() as int),
            ..self
        }
    }

    /// The packet that turns a client away.
    pub open spec fn denial(reason: DisconnectReason) -> PacketView {
        PacketView {
            header: HeaderView {
                packet_type: PacketType::ConnectionDenied,
                id: PacketId(0),
                ack: None,
            },
            body: PacketBody::ConnectionDenied { reason },
        }
    }

    /// After a client was turned away.
    pub open spec fn denied(self, addr: PeerAddr, reason: DisconnectReason) -> (Self, Result<
        (),
        PicklebackError,
    >) {
        let bytes = Self::denial(reason).encoded();
        if bytes.len() > self.config.max_packet_size {
            (self, Err(PicklebackError::Io(IoError::WriteZero)))
        } else {
            (
                ServerView {
                    outbox: self.outbox.push(AddressedView { address: addr, bytes }),
                    ..self
                },
                Ok(()),
            )
        }
    }

    /// After a client asked for a connection, with `salt` made up for it. A client that speaks
    /// another version of the protocol is turned away, and one that has asked already is challenged
    /// anyway.
    pub open spec fn requested(
        self,
        client_salt: u64,
        protocol_version: u64,
        addr: PeerAddr,
        salt: u64,
    ) -> (Self, Result<(), PicklebackError>) {
        if protocol_version != PROTOCOL_VERSION {
            self.denied(addr, DisconnectReason::ProtocolMismatch)
        } else if find_pending(self.pending, client_salt, addr, 0) is Some {
            (self, Ok(()))
        } else {
            (
                ServerView {
                    pending: self.pending.push(
                        PendingView {
                            client_salt,
                            server_salt: salt,
                            first_requested_time: self.time,
                            last_challenged_at: 0,
                            socket_addr: addr,
                            endpoint: pickleback::fresh_endpoint(
                                ConfigView::default_settings(),
                                self.time,
                            ),
                        },
                    ),
                    ..self
                },
                Ok(()),
            )
        }
    }

    /// After a client answered its challenge: it is connected, and sent a keep alive to say so. One
    /// that was not challenged, or has taken too long, is turned away.
    pub open spec fn answered(self, xor_salt: u64, addr: PeerAddr) -> (Self, Result<
        (),
        PicklebackError,
    >) {
        match find_challenged(self.pending, xor_salt, addr, 0) {
            None => self.denied(addr, DisconnectReason::HandshakeTimeout),
            Some(i) => {
                let taken = ServerView { pending: self.pending.remove(i), ..self };
                let o = (EndpointView {
                    xor_salt: Some(xor_salt),
                    ..self.pending[i].endpoint
                }).next_sent(PacketBody::KeepAlive { xor_salt, client_index: 0 });
                if o.result is Err {
                    (taken, o.result)
                } else {
                    (
                        ServerView {
                            connected: self.connected.push(
                                ConnectedView {
                                    xor_salt,
                                    socket_addr: addr,
                                    confirmed: false,
                                    client_index: None,
                                    last_received_time: self.time,
                                    last_sent_time: self.time,
                                    endpoint: o.state,
                                },
                            ),
                            ..taken
                        },
                        Ok(()),
                    )
                }
            },
        }
    }

    /// After a connected client sent something. One that is not connected is ignored.
    pub open spec fn heard(
        self,
        xor_salt: u64,
        addr: PeerAddr,
        header: HeaderView,
        rest: Seq<u8>,
    ) -> (Self, Result<(), PicklebackError>) {
        match find_connected(self.connected, xor_salt, addr, 0) {
            None => (self, Ok(())),
            Some(i) => {
                let (c, result) = self.connected[i].received(header, rest, self.time);
                (ServerView { connected: self.connected.update(i, c), ..self }, result)
            },
        }
    }

    /// After a client said that its connection is over.
    pub open spec fn left(self, xor_salt: u64, addr: PeerAddr) -> Self {
        match find_connected(self.connected, xor_salt, addr, 0) {
            None => self,
            Some(i) => ServerView { connected: self.connected.remove(i), ..self },
        }
    }

    /// After `bytes` were received from `addr`, with `salt` made up in case that it asks for a
    /// connection.
    pub open spec fn received(self, bytes: Seq<u8>, addr: PeerAddr, salt: u64) -> (Self, Result<
        (),
        PicklebackError,
    >) {
        match packets::parse_packet(bytes) {
            Err(e) => (self, Err(e)),
            Ok((p, rest)) => match p.body {
                PacketBody::ConnectionRequest { client_salt, protocol_version } => self.requested(
                    client_salt,
                    protocol_version,
                    addr,
                    salt,
                ),
                PacketBody::ConnectionChallengeResponse { xor_salt } => self.answered(
                    xor_salt,
                    addr,
                ),
                PacketBody::Disconnect { xor_salt } => (self.left(xor_salt, addr), Ok(())),
                PacketBody::KeepAlive { xor_salt, client_index } => self.heard(
                    xor_salt,
                    addr,
                    p.header,
                    rest,
                ),
                PacketBody::Messages { xor_salt } => self.heard(xor_salt, addr, p.header, rest),
                _ => (self, Ok(())),
            },
        }
    }

    /// After the packets to be sent were collected: those to clients that are not known, then those
    /// to pending clients, then those to connected clients. Stops where something goes wrong.
    pub open spec fn collected(self) -> Collecting {
        let start = Collecting {
            server: ServerView { outbox: Seq::empty(), ..self },
            sent: self.outbox,
            error: None,
        };
        start.all_pending(self.pending.len() as int).all_connected(self.connected.len() as int)
    }
}

/// When the server gets a connection request, it sends a challenge and creates a pending client.
pub struct PendingClient {
    client_salt: u64,
    server_salt: u64,
    first_requested_time: Time,
    last_challenged_at: Time,
    socket_addr: PeerAddr,
    pickleback: Pickleback,
}

impl View for PendingClient {
    type V = PendingView;

    closed spec fn view(&self) -> PendingView {
        PendingView {
            client_salt: self.client_salt,
            server_salt: self.server_salt,
            first_requested_time: self.first_requested_time,
            last_challenged_at: self.last_challenged_at,
            socket_addr: self.socket_addr,
            endpoint: self.pickleback@,
        }
    }
}

impl PendingClient {
    /// The endpoint is whole and has no messages.
    pub closed spec fn wf(&self) -> bool {
        self.pickleback.wf() && self@.wf()
    }

    /// Moves the clock on.
    fn update(&mut self, dt: Time)
        requires
            old(self).wf(),
        ensures
            final(self).wf(),
            final(self)@ == old(self)@.updated(dt),
    {
        self.pickleback.update(dt);
    }

    /// Challenges the client, unless it was a moment ago.
    fn challenge(&mut self, now: Time)
        requires
            old(self).wf(),
        ensures
            final(self).wf(),
            final(self)@ == old(self)@.challenged(now),
    {
        if time::elapsed(now, self.last_challenged_at) > RESEND_INTERVAL as i128 {
            self.last_challenged_at = now;
            if let Ok(header) = self.pickleback.next_packet_header(
                PacketType::ConnectionChallenge,
            ) {
                let packet = ProtocolPacket::ConnectionChallenge(
                    ConnectionChallengePacket {
                        header,
                        client_salt: self.client_salt,
                        server_salt: self.server_salt,
                    },
                );
                // an error with one client must not abort processing for other clients
                let _ = self.pickleback.send_packet(packet);
            }
        }
    }

    /// Collects the packets to be sent to the client.
    fn collect(&mut self, out: &mut Vec<AddressedPacket>) -> (r: Option<PicklebackError>)
        requires
            old(self).wf(),
        ensures
            final(self).wf(),
            ({
                let (endpoint, sent, error) = old(self)@.endpoint.drained();
                &&& final(self)@ == (PendingView { endpoint, ..old(self)@ })
                &&& r == error
                &&& final(out)@.map_values(|p: AddressedPacket| p@) == old(out)@.map_values(
                    |p: AddressedPacket| p@,
                ) + packets::addressed(old(self)@.socket_addr, sent)
            }),
    {
        proof {
            self.pickleback.lemma_wf();
            self@.endpoint.lemma_no_messages();
            assert(packets::addressed(self.socket_addr, Seq::empty()) =~= Seq::empty());
        }
        match self.pickleback.collect_packets_to_send_inefficiently() {
            Ok(sent) => {
                packets::push_addressed(out, self.socket_addr, sent);
                None
            },
            Err(e) => {
                assert(out@.map_values(|p: AddressedPacket| p@) + Seq::<AddressedView>::empty()
                    =~= out@.map_values(|p: AddressedPacket| p@));
                Some(e)
            },
        }
    }
}

/// When the server gets an answer to its challenge, it promotes the pending client to a connected
/// one.
pub struct ConnectedClient {
    pub xor_salt: u64,
    pub socket_addr: PeerAddr,
    /// Whether anything was received from the client since it was connected.
    pub confirmed: bool,
    pub client_index: Option<u32>,
    /// When a packet was last received from the client.
    pub last_received_time: Time,
    /// When a packet was last sent to the client.
    pub last_sent_time: Time,
    /// Endpoint for messages.
    pub pickleback: Pickleback,
}

impl View for ConnectedClient {
    type V = ConnectedView;

    open spec fn view(&self) -> ConnectedView {
        ConnectedView {
            xor_salt: self.xor_salt,
            socket_addr: self.socket_addr,
            confirmed: self.confirmed,
            client_index: self.client_index,
            last_received_time: self.last_received_time,
            last_sent_time: self.last_sent_time,
            endpoint: self.pickleback@,
        }
    }
}

impl ConnectedClient {
    /// The endpoint is whole, and packets of messages can be sent.
    pub open spec fn wf(&self) -> bool {
        self.pickleback.wf() && self@.wf()
    }

    /// Moves the clock on.
    fn update(&mut self, dt: Time)
        requires
            old(self).wf(),
        ensures
            final(self).wf(),
            final(self)@ == old(self)@.updated(dt),
    {
        self.pickleback.update(dt);
    }

    /// Sends a keep alive, if one is called for.
    fn keep_alive(&mut self, now: Time)
        requires
            old(self).wf(),
        ensures
            final(self).wf(),
            final(self)@ == old(self)@.kept_alive(now),
    {
        if !self.confirmed || time::elapsed(now, self.last_sent_time) > RESEND_INTERVAL as i128 {
            if let Ok(header) = self.pickleback.next_packet_header(PacketType::KeepAlive) {
                let client_index = match self.client_index {
                    Some(i) => i,
                    None => 0,
                };
                let packet = ProtocolPacket::KeepAlive(
                    KeepAlivePacket { header, xor_salt: self.xor_salt, client_index },
                );
                // an error with one client must not abort processing for other clients
                if self.pickleback.send_packet(packet).is_ok() {
                    self.last_sent_time = now;
                }
            }
        }
    }

    /// Takes a packet from the client.
    fn receive(&mut self, header: &ProtocolPacketHeader, cur: &mut Cursor, now: Time) -> (r: Result<
        (),
        PicklebackError,
    >)
        requires
            old(self).wf(),
            header.wf(),
            old(cur).wf(),
        ensures
            final(self).wf(),
            (final(self)@, r) == old(self)@.received(header@, old(cur).rest(), now),
    {
        self.confirmed = true;
        self.last_received_time = now;
        proof {
            self.pickleback@.lemma_packet_received(header@, cur.rest());
        }
        self.pickleback.process_incoming_packet(header, cur)
    }

    /// Collects the packets to be sent to the client.
    fn collect(&mut self, now: Time, out: &mut Vec<AddressedPacket>) -> (r: Option<
        PicklebackError,
    >)
        requires
            old(self).wf(),
        ensures
            final(self).wf(),
            ({
                let (drained, sent, error) = old(self)@.drained(now);
                &&& final(self)@ == drained
                &&& r == error
                &&& final(out)@.map_values(|p: AddressedPacket| p@) == old(out)@.map_values(
                    |p: AddressedPacket| p@,
                ) + packets::addressed(old(self)@.socket_addr, sent)
            }),
    {
        proof {
            self.pickleback.lemma_wf();
            self@.endpoint.lemma_composed();
            assert(packets::addressed(self.socket_addr, Seq::empty()) =~= Seq::empty());
        }
        match self.pickleback.collect_packets_to_send_inefficiently() {
            Ok(sent) => {
                if sent.len() > 0 {
                    self.last_sent_time = now;
                }
                packets::push_addressed(out, self.socket_addr, sent);
                None
            },
            Err(e) => {
                assert(out@.map_values(|p: AddressedPacket| p@) + Seq::<AddressedView>::empty()
                    =~= out@.map_values(|p: AddressedPacket| p@));
                Some(e)
            },
        }
    }
}

/// The pending clients as they are seen from outside.
pub open spec fn pending_views(pending: Seq<PendingClient>) -> Seq<PendingView> {
    pending.map_values(|p: PendingClient| p@)
}

/// The connected clients as they are seen from outside.
pub open spec fn connected_views(connected: Seq<ConnectedClient>) -> Seq<ConnectedView> {
    connected.map_values(|c: ConnectedClient| c@)
}

/// Server that manages connections to multiple clients.
pub struct PicklebackServer {
    time: Time,
    pending_clients: Vec<PendingClient>,
    connected_clients: Vec<ConnectedClient>,
    config: PicklebackConfig,
    pool: BufPool,
    /// For arbitrary responses before clients are connected, like denied packets.
    outbox: Vec<AddressedPacket>,
}

impl View for PicklebackServer {
    type V = ServerView;

    closed spec fn view(&self) -> ServerView {
        ServerView {
            time: self.time,
            pending: pending_views(self.pending_clients@),
            connected: connected_views(self.connected_clients@),
            config: self.config@,
            outbox: self.outbox@.map_values(|p: AddressedPacket| p@),
        }
    }
}

impl PicklebackServer {
    /// All clients are whole.
    pub closed spec fn wf(&self) -> bool {
        &&& buffer_pool::usable(self.pool@)
        &&& forall|i: int|
            0 <= i < self.pending_clients@.len() ==> (#[trigger] self.pending_clients@[i]).wf()
        &&& forall|i: int|
            0 <= i < self.connected_clients@.len() ==> (#[trigger] self.connected_clients@[i]).wf()
    }

    /// A server without clients.
    pub fn new(time: Time, config: &PicklebackConfig) -> (r: Self)
        ensures
            r.wf(),
            r@ == ServerView::fresh(time, config@),
    {
        let r = PicklebackServer {
            time,
            pending_clients: Vec::new(),
            connected_clients: Vec::new(),
            config: config.clone(),
            pool: BufPool::full_packets_only(),
            outbox: Vec::new(),
        };
        assert(r@ =~= ServerView::fresh(time, config@));
        r
    }

    /// The current time, as advanced by calling `update()`.
    pub fn time(&self) -> (r: Time)
        ensures
            r == self@.time,
    {
        self.time
    }

    /// All clients in the connected state. They must be left whole.
    pub fn connected_clients_mut(&mut self) -> (r: &mut Vec<ConnectedClient>)
        requires
            old(self).wf(),
        ensures
            connected_views(r@) == old(self)@.connected,
            forall|i: int| 0 <= i < r@.len() ==> (#[trigger] r@[i]).wf(),
            final(self)@ == (ServerView {
                connected: connected_views(final(r)@),
                ..old(self)@
            }),
            (forall|i: int| 0 <= i < final(r)@.len() ==> (#[trigger] final(r)@[i]).wf())
                ==> final(self).wf(),
    {
        &mut self.connected_clients
    }

    /// Advances time, and the client connection state machines.
    pub fn update(&mut self, dt: Time)
        requires
            old(self).wf(),
        ensures
            final(self).wf(),
            final(self)@ == old(self)@.updated(dt),
    {
        self.time = time::advance(self.time, dt);
        self.update_clients(dt);
        self.process_pending_clients();
        self.process_connected_clients();
    }

    /// Moves the clocks of all clients on.
    fn update_clients(&mut self, dt: Time)
        requires
            old(self).wf(),
        ensures
            final(self).wf(),
            final(self)@ == (ServerView {
                pending: old(self)@.pending.map_values(|p: PendingView| p.updated(dt)),
                connected: old(self)@.connected.map_values(|c: ConnectedView| c.updated(dt)),
                ..old(self)@
            }),
    {
        let mut i: usize = 0;
        while i < self.pending_clients.len()
            invariant
                self.wf(),
                i <= self.pending_clients@.len(),
                self.pending_clients@.len() == old(self)@.pending.len(),
                forall|j: int|
                    0 <= j < self.pending_clients@.len() ==> (
                    #[trigger] self.pending_clients@[j])@ == (if j < i {
                        old(self)@.pending[j].updated(dt)
                    } else {
                        old(self)@.pending[j]
                    }),
                self@ =~= (ServerView { pending: self@.pending, ..old(self)@ }),
            decreases self.pending_clients@.len() - i,
        {
            self.pending_clients[i].update(dt);
            i = i + 1;
        }
        assert(self@.pending =~= old(self)@.pending.map_values(
            |p: PendingView| p.updated(dt),
        ));
        let ghost pending = self@.pending;
        let mut k: usize = 0;
        while k < self.connected_clients.len()
            invariant
                self.wf(),
                k <= self.connected_clients@.len(),
                self.connected_clients@.len() == old(self)@.connected.len(),
                forall|j: int|
                    0 <= j < self.connected_clients@.len() ==> (
                    #[trigger] self.connected_clients@[j])@ == (if j < k {
                        old(self)@.connected[j].updated(dt)
                    } else {
                        old(self)@.connected[j]
                    }),
                self@ =~= (ServerView { pending, connected: self@.connected, ..old(self)@ }),
            decreases self.connected_clients@.len() - k,
        {
            self.connected_clients[k].update(dt);
            k = k + 1;
        }
        assert(self@.connected =~= old(self)@.connected.map_values(
            |c: ConnectedView| c.updated(dt),
        ));
    }

    /// Processes pending clients: those that have been pending for too long are removed, and the
    /// others challenged.
    fn process_pending_clients(&mut self)
        requires
            old(self).wf(),
        ensures
            final(self).wf(),
            final(self)@ == (ServerView {
                pending: pending_processed(
                    old(self)@.pending,
                    old(self)@.time,
                    old(self)@.pending.len() as int,
                ),
                ..old(self)@
            }),
    {
        let ghost all = self@.pending;
        let ghost mut n: int = 0;
        let mut i: usize = 0;
        while i < self.pending_clients.len()
            invariant
                self.wf(),
                self.time == old(self).time,
                0 <= n <= all.len(),
                i <= self.pending_clients@.len(),
                self.pending_clients@.len() - i == all.len() - n,
                self@.pending.take(i as int) =~= pending_processed(all, self.time, n),
                self@.pending.skip(i as int) =~= all.skip(n),
                all == old(self)@.pending,
                self@ =~= (ServerView { pending: self@.pending, ..old(self)@ }),
            decreases self.pending_clients@.len() - i,
        {
            let ghost before = self@.pending;
            assert(before.skip(i as int)[0] == all.skip(n)[0]);
            assert(self.pending_clients@[i as int]@ == all[n]);
            if time::elapsed(self.time, self.pending_clients[i].first_requested_time)
                > TIMEOUT as i128 {
                let _ = self.pending_clients.remove(i);
                assert(self@.pending =~= before.remove(i as int));
                assert(self@.pending.take(i as int) =~= before.take(i as int));
                assert(self@.pending.skip(i as int) =~= before.skip(i as int).skip(1));
            } else {
                let now = self.time;
                self.pending_clients[i].challenge(now);
                assert(self@.pending =~= before.update(i as int, all[n].challenged(now)));
                i = i + 1;
                assert(self@.pending.take(i as int) =~= before.take(i - 1).push(
                    all[n].challenged(now),
                ));
                assert(self@.pending.skip(i as int) =~= before.skip(i - 1).skip(1));
            }
            assert(all.skip(n).skip(1) =~= all.skip(n + 1));
            proof {
                n = n + 1;
            }
        }
        assert(self@.pending.take(i as int) =~= self@.pending);
    }

    /// Processes connected clients: those that nothing was heard of for too long are removed, and
    /// the others kept alive.
    fn process_connected_clients(&mut self)
        requires
            old(self).wf(),
        ensures
            final(self).wf(),
            final(self)@ == (ServerView {
                connected: connected_processed(
                    old(self)@.connected,
                    old(self)@.time,
                    old(self)@.connected.len() as int,
                ),
                ..old(self)@
            }),
    {
        let ghost all = self@.connected;
        let ghost mut n: int = 0;
        let mut i: usize = 0;
        while i < self.connected_clients.len()
            invariant
                self.wf(),
                self.time == old(self).time,
                0 <= n <= all.len(),
                i <= self.connected_clients@.len(),
                self.connected_clients@.len() - i == all.len() - n,
                self@.connected.take(i as int) =~= connected_processed(all, self.time, n),
                self@.connected.skip(i as int) =~= all.skip(n),
                all == old(self)@.connected,
                self@ =~= (ServerView { connected: self@.connected, ..old(self)@ }),
            decreases self.connected_clients@.len() - i,
        {
            let ghost before = self@.connected;
            assert(before.skip(i as int)[0] == all.skip(n)[0]);
            assert(self.connected_clients@[i as int]@ == all[n]);
            if time::elapsed(self.time, self.connected_clients[i].last_received_time)
                > TIMEOUT as i128 {
                let _ = self.connected_clients.remove(i);
                assert(self@.connected =~= before.remove(i as int));
                assert(self@.connected.take(i as int) =~= before.take(i as int));
                assert(self@.connected.skip(i as int) =~= before.skip(i as int).skip(1));
            } else {
                let now = self.time;
                self.connected_clients[i].keep_alive(now);
                assert(self@.connected =~= before.update(i as int, all[n].kept_alive(now)));
                i = i + 1;
                assert(self@.connected.take(i as int) =~= before.take(i - 1).push(
                    all[n].kept_alive(now),
                ));
                assert(self@.connected.skip(i as int) =~= before.skip(i - 1).skip(1));
            }
            assert(all.skip(n).skip(1) =~= all.skip(n + 1));
            proof {
                n = n + 1;
            }
        }
        assert(self@.connected.take(i as int) =~= self@.connected);
    }

    /// Whether a client has asked for a connection already.
    fn has_pending_with_client_salt(&self, client_salt: u64, client_addr: PeerAddr) -> (r: bool)
        ensures
            r == find_pending(self@.pending, client_salt, client_addr, 0) is Some,
    {
        let mut i: usize = 0;
        while i < self.pending_clients.len()
            invariant
                i <= self.pending_clients@.len(),
                find_pending(self@.pending, client_salt, client_addr, 0) == find_pending(
                    self@.pending,
                    client_salt,
                    client_addr,
                    i as int,
                ),
            decreases self.pending_clients@.len() - i,
        {
            if self.pending_clients[i].client_salt == client_salt
                && self.pending_clients[i].socket_addr == client_addr {
                return true;
            }
            i = i + 1;
        }
        false
    }

    /// Takes out the pending client that a challenge response is from.
    fn take_pending_by_xor_salt(&mut self, xor_salt: u64, client_addr: PeerAddr) -> (r: Option<
        PendingClient,
    >)
        requires
            old(self).wf(),
        ensures
            final(self).wf(),
            match find_challenged(old(self)@.pending, xor_salt, client_addr, 0) {
                None => r is None && final(self)@ == old(self)@,
                Some(i) => {
                    &&& 0 <= i < old(self)@.pending.len()
                    &&& r matches Some(p) && p.wf() && p@ == old(self)@.pending[i]
                    &&& final(self)@ == (ServerView {
                        pending: old(self)@.pending.remove(i),
                        ..old(self)@
                    })
                },
            },
    {
        let mut i: usize = 0;
        while i < self.pending_clients.len()
            invariant
                self.wf(),
                *self == *old(self),
                i <= self.pending_clients@.len(),
                find_challenged(self@.pending, xor_salt, client_addr, 0) == find_challenged(
                    self@.pending,
                    xor_salt,
                    client_addr,
                    i as int,
                ),
            decreases self.pending_clients@.len() - i,
        {
            if (self.pending_clients[i].client_salt ^ self.pending_clients[i].server_salt)
                == xor_salt && self.pending_clients[i].socket_addr == client_addr {
                let pending = self.pending_clients.remove(i);
                assert(self@.pending =~= old(self)@.pending.remove(i as int));
                return Some(pending);
            }
            i = i + 1;
        }
        None
    }

    /// The number of the connected client with this salt and address.
    fn connected_client_index(&self, xor_salt: u64, client_addr: PeerAddr) -> (r: Option<usize>)
        ensures
            match r {
                Some(i) => i < self.connected_clients@.len() && find_connected(
                    self@.connected,
                    xor_salt,
                    client_addr,
                    0,
                ) == Some(i as int),
                None => find_connected(self@.connected, xor_salt, client_addr, 0) is None,
            },
    {
        let mut i: usize = 0;
        while i < self.connected_clients.len()
            invariant
                i <= self.connected_clients@.len(),
                find_connected(self@.connected, xor_salt, client_addr, 0) == find_connected(
                    self@.connected,
                    xor_salt,
                    client_addr,
                    i as int,
                ),
            decreases self.connected_clients@.len() - i,
        {
            if self.connected_clients[i].xor_salt == xor_salt
                && self.connected_clients[i].socket_addr == client_addr {
                return Some(i);
            }
            i = i + 1;
        }
        None
    }

    /// Removes the connected client with this salt and address.
    fn remove_connected_client(&mut self, xor_salt: u64, client_addr: PeerAddr)
        requires
            old(self).wf(),
        ensures
            final(self).wf(),
            final(self)@ == old(self)@.left(xor_salt, client_addr),
    {
        if let Some(i) = self.connected_client_index(xor_salt, client_addr) {
            let _ = self.connected_clients.remove(i);
            assert(self@.connected =~= old(self)@.connected.remove(i as int));
        }
    }

    /// Takes a packet from a connected client.
    fn receive_from_connected(
        &mut self,
        xor_salt: u64,
        client_addr: PeerAddr,
        header: &ProtocolPacketHeader,
        cur: &mut Cursor,
    ) -> (r: Result<(), PicklebackError>)
        requires
            old(self).wf(),
            header.wf(),
            old(cur).wf(),
        ensures
            final(self).wf(),
            (final(self)@, r) == old(self)@.heard(
                xor_salt,
                client_addr,
                header@,
                old(cur).rest(),
            ),
    {
        match self.connected_client_index(xor_salt, client_addr) {
            Some(i) => {
                let now = self.time;
                let r = self.connected_clients[i].receive(header, cur, now);
                proof {
                    let c = old(self)@.connected[i as int].received(
                        header@,
                        old(cur).rest(),
                        now,
                    ).0;
                    assert(self@.connected =~= old(self)@.connected.update(i as int, c));
                }
                r
            },
            None => Ok(()),
        }
    }

    /// Turns a client away.
    fn deny(&mut self, client_addr: PeerAddr, reason: DisconnectReason) -> (r: Result<
        (),
        PicklebackError,
    >)
        requires
            old(self).wf(),
        ensures
            final(self).wf(),
            (final(self)@, r) == old(self)@.denied(client_addr, reason),
    {
        let header = ProtocolPacketHeader::new_no_acks(PacketId(0), PacketType::ConnectionDenied)?;
        let packet = ProtocolPacket::ConnectionDenied(ConnectionDeniedPacket { header, reason });
        let denied = packets::write_packet(&mut self.pool, &self.config, packet)?;
        let mut copy: Vec<u8> = Vec::with_capacity(denied.len());
        copy.extend_from_slice(denied.as_slice());
        assert(copy@ =~= denied@);
        self.outbox.push(AddressedPacket { address: client_addr, packet: copy });
        self.pool.return_buffer(denied);
        assert(self@ =~= old(self)@.denied(client_addr, reason).0);
        Ok(())
    }

    /// A client asks for a connection.
    fn receive_request(
        &mut self,
        client_salt: u64,
        protocol_version: u64,
        client_addr: PeerAddr,
        server_salt: u64,
    ) -> (r: Result<(), PicklebackError>)
        requires
            old(self).wf(),
        ensures
            final(self).wf(),
            (final(self)@, r) == old(self)@.requested(
                client_salt,
                protocol_version,
                client_addr,
                server_salt,
            ),
    {
        if protocol_version != PROTOCOL_VERSION {
            return self.deny(client_addr, DisconnectReason::ProtocolMismatch);
        }
        if !self.has_pending_with_client_salt(client_salt, client_addr) {
            let pending = PendingClient {
                client_salt,
                server_salt,
                first_requested_time: self.time,
                last_challenged_at: 0,
                socket_addr: client_addr,
                pickleback: Pickleback::new(PicklebackConfig::default(), self.time),
            };
            self.pending_clients.push(pending);
            assert(self@.pending =~= old(self)@.pending.push(pending@));
        }
        Ok(())
    }

    /// A client answers its challenge.
    fn receive_challenge_response(&mut self, xor_salt: u64, client_addr: PeerAddr) -> (r: Result<
        (),
        PicklebackError,
    >)
        requires
            old(self).wf(),
        ensures
            final(self).wf(),
            (final(self)@, r) == old(self)@.answered(xor_salt, client_addr),
    {
        match self.take_pending_by_xor_salt(xor_salt, client_addr) {
            None => self.deny(client_addr, DisconnectReason::HandshakeTimeout),
            Some(pending) => {
                let mut pickleback = pending.pickleback;
                pickleback.set_xor_salt(Some(xor_salt));
                let header = pickleback.next_packet_header(PacketType::KeepAlive)?;
                let packet = ProtocolPacket::KeepAlive(
                    KeepAlivePacket { header, xor_salt, client_index: 0 },
                );
                pickleback.send_packet(packet)?;
                let client = ConnectedClient {
                    xor_salt,
                    socket_addr: client_addr,
                    confirmed: false,
                    client_index: None,
                    last_received_time: self.time,
                    last_sent_time: self.time,
                    pickleback,
                };
                self.connected_clients.push(client);
                assert(self@.connected =~= old(self)@.connected.push(client@));
                Ok(())
            },
        }
    }

    /// Processes a packet received from the network. A client that asks for a connection is given a
    /// random salt.
    ///
    /// # Errors
    ///
    /// * Invalid packets cause an error.
    /// * Errors sending to clients can cause an error.
    ///
    /// However, this processes one packet at a time, so errors won't prevent processing packets for
    /// other clients.
    pub fn receive(&mut self, packet: &[u8], client_addr: PeerAddr) -> (r: Result<
        (),
        PicklebackError,
    >)
        requires
            old(self).wf(),
        ensures
            final(self).wf(),
            exists|salt: u64|
                (final(self)@, r) == #[trigger] old(self)@.received(packet@, client_addr, salt),
    {
        let salt = entropy::random_u64();
        self.receive_with_salt(packet, client_addr, salt)
    }

    /// Processes a packet received from the network. A client that asks for a connection is given
    /// `server_salt`.
    pub fn receive_with_salt(
        &mut self,
        packet: &[u8],
        client_addr: PeerAddr,
        server_salt: u64,
    ) -> (r: Result<(), PicklebackError>)
        requires
            old(self).wf(),
        ensures
            final(self).wf(),
            (final(self)@, r) == old(self)@.received(packet@, client_addr, server_salt),
    {
        let mut cur = Cursor::new(packet);
        let packet = packets::read_packet(&mut cur)?;
        match packet {
            ProtocolPacket::ConnectionRequest(p) => {
                self.receive_request(p.client_salt, p.protocol_version, client_addr, server_salt)
            },
            ProtocolPacket::ConnectionChallengeResponse(p) => {
                self.receive_challenge_response(p.xor_salt, client_addr)
            },
            ProtocolPacket::Disconnect(p) => {
                self.remove_connected_client(p.xor_salt, client_addr);
                Ok(())
            },
            ProtocolPacket::KeepAlive(p) => {
                self.receive_from_connected(p.xor_salt, client_addr, &p.header, &mut cur)
            },
            ProtocolPacket::Messages(p) => {
                self.receive_from_connected(p.xor_salt, client_addr, &p.header, &mut cur)
            },
            _ => Ok(()),
        }
    }

    /// Collects all pending outbound packets for all clients.
    pub fn collect_packets_to_send(&mut self) -> (r: CollectedPackets)
        requires
            old(self).wf(),
        ensures
            final(self).wf(),
            ({
                let c = old(self)@.collected();
                &&& final(self)@ == c.server
                &&& r.sent() == c.sent
                &&& r.error == c.error
            }),
    {
        // the packets the server generates that don't belong to a client
        let mut collected: Vec<AddressedPacket> = Vec::new();
        std::mem::swap(&mut collected, &mut self.outbox);
        let mut error: Option<PicklebackError> = None;
        let ghost start = Collecting {
            server: ServerView { outbox: Seq::empty(), ..old(self)@ },
            sent: old(self)@.outbox,
            error: None,
        };
        assert(self@ =~= start.server);
        let ghost view = |p: AddressedPacket| p@;
        let mut i: usize = 0;
        while i < self.pending_clients.len()
            invariant
                self.wf(),
                i <= self.pending_clients@.len(),
                self.pending_clients@.len() == old(self)@.pending.len(),
                self.connected_clients@.len() == old(self)@.connected.len(),
                view == (|p: AddressedPacket| p@),
                start.all_pending(i as int) == (Collecting {
                    server: self@,
                    sent: collected@.map_values(view),
                    error,
                }),
            decreases self.pending_clients@.len() - i,
        {
            let ghost before = self@;
            if error.is_none() {
                error = self.pending_clients[i].collect(&mut collected);
                proof {
                    let p = before.pending[i as int];
                    assert(self@.pending =~= before.pending.update(
                        i as int,
                        PendingView { endpoint: p.endpoint.drained().0, ..p },
                    ));
                }
            }
            i = i + 1;
        }
        let ghost middle = start.all_pending(old(self)@.pending.len() as int);
        let mut k: usize = 0;
        while k < self.connected_clients.len()
            invariant
                self.wf(),
                k <= self.connected_clients@.len(),
                self.connected_clients@.len() == old(self)@.connected.len(),
                view == (|p: AddressedPacket| p@),
                middle.all_connected(k as int) == (Collecting {
                    server: self@,
                    sent: collected@.map_values(view),
                    error,
                }),
            decreases self.connected_clients@.len() - k,
        {
            let ghost before = self@;
            if error.is_none() {
                error = self.connected_clients[k].collect(self.time, &mut collected);
                proof {
                    let c = before.connected[k as int];
                    assert(self@.connected =~= before.connected.update(
                        k as int,
                        c.drained(before.time).0,
                    ));
                }
            }
            k = k + 1;
        }
        CollectedPackets { packets: collected, error }
    }
}

} // verus!
