//! A server that keeps the packets of the handshake apart from those of the endpoints: they are
//! not tracked, so they are never acked.

use super::packets::{
    self, AddressedPacket, AddressedView, ConnectionChallengePacket, ConnectionDeniedPacket,
    HeaderView, PacketBody, PacketType, PacketView, ProtocolPacket, ProtocolPacketHeader,
};
use super::{DisconnectReason, PROTOCOL_VERSION};
use crate::address::PeerAddr;
use crate::buffer_pool::{self, BufPool};
use crate::client::RESEND_INTERVAL;
use crate::config::{ConfigView, PicklebackConfig};
use crate::cursor::Cursor;
use crate::endpoint::EndpointView;
use crate::entropy;
use crate::error::{IoError, PicklebackError};
use crate::pickleback::{self, Pickleback};
use crate::server::{self, PendingView, ServerView};
use crate::time::{self, Time};
use crate::PacketId;
use vstd::prelude::*;

verus! {

/// How long a client lasts without anything being heard of it.
pub const CLIENT_TIMEOUT: Time = 5_000_000_000_000;

/// A client that is connected.
#[verifier::ext_equal]
pub struct SessionView {
    pub client_salt: u64,
    pub server_salt: u64,
    pub xor_salt: u64,
    pub socket_addr: PeerAddr,
    pub last_received_time: Time,
    /// When a packet was last sent to the client.
    pub last_sent_time: Time,
    pub endpoint: EndpointView,
}

/// The state of a server.
#[verifier::ext_equal]
pub struct ProtocolServerView {
    pub time: Time,
    pub pending: Seq<PendingView>,
    pub connected: Seq<SessionView>,
    /// The packets to be sent.
    pub outbox: Seq<AddressedView>,
}

/// What came of an operation: the state after it, and what the caller is told.
pub struct ServerOutcome {
    pub state: ProtocolServerView,
    pub result: Result<(), PicklebackError>,
}

/// Whether a client has been pending for too long.
pub open spec fn pending_expired(p: PendingView, now: Time) -> bool {
    now - p.first_requested_time > CLIENT_TIMEOUT
}

/// Whether nothing was received from a client for too long.
pub open spec fn session_expired(s: SessionView, now: Time) -> bool {
    now - s.last_received_time > CLIENT_TIMEOUT
}

/// The first session from number `from` on with this salt and address.
pub open spec fn find_session(
    connected: Seq<SessionView>,
    xor_salt: u64,
    addr: PeerAddr,
    from: int,
) -> Option<int>
    decreases connected.len() - from,
{
    if from >= connected.len() {
        None
    } else if connected[from].xor_salt == xor_salt && connected[from].socket_addr == addr {
        Some(from)
    } else {
        find_session(connected, xor_salt, addr, from + 1)
    }
}

impl ProtocolServerView {
    /// A server without clients.
    pub open spec fn fresh(time: Time) -> Self {
        ProtocolServerView {
            time,
            pending: Seq::empty(),
            connected: Seq::empty(),
            outbox: Seq::empty(),
        }
    }

    /// After a packet was written and put into the outbox.
    pub open spec fn packet_sent(self, addr: PeerAddr, p: PacketView) -> ServerOutcome {
        let bytes = p.encoded();
        if bytes.len() > ConfigView::default_settings().max_packet_size {
            ServerOutcome { state: self, result: Err(PicklebackError::Io(IoError::WriteZero)) }
        } else {
            ServerOutcome {
                state: ProtocolServerView {
                    outbox: self.outbox.push(AddressedView { address: addr, bytes }),
                    ..self
                },
                result: Ok(()),
            }
        }
    }

    /// After pending client number `i` was challenged, unless it was a moment ago or has been
    /// pending for too long.
    pub open spec fn challenged(self, i: int) -> ServerOutcome {
        let p = self.pending[i];
        if pending_expired(p, self.time) || self.time - p.last_challenged_at <= RESEND_INTERVAL {
            ServerOutcome { state: self, result: Ok(()) }
        } else {
            let begun = PendingView {
                last_challenged_at: self.time,
                endpoint: p.endpoint.next_begun(),
                ..p
            };
            let noted = ProtocolServerView { pending: self.pending.update(i, begun), ..self };
            match begun.endpoint.header(PacketType::ConnectionChallenge) {
                Err(e) => ServerOutcome { state: noted, result: Err(e) },
                Ok(header) => noted.packet_sent(
                    p.socket_addr,
                    PacketView {
                        header,
                        body: PacketBody::ConnectionChallenge {
                            client_salt: p.client_salt,
                            server_salt: p.server_salt,
                        },
                    },
                ),
            }
        }
    }

    /// After the first `n` pending clients were challenged. Stops where something goes wrong.
    pub open spec fn all_challenged(self, n: int) -> ServerOutcome
        decreases n,
    {
        if n <= 0 {
            ServerOutcome { state: self, result: Ok(()) }
        } else {
            let before = self.all_challenged(n - 1);
            if before.result is Err {
                before
            } else {
                before.state.challenged(n - 1)
            }
        }
    }

    /// After the packets for session number `i` were put into the outbox.
    pub open spec fn session_drained(self, i: int) -> ServerOutcome {
        let s = self.connected[i];
        let (endpoint, sent, error) = s.endpoint.drained();
        ServerOutcome {
            state: ProtocolServerView {
                connected: self.connected.update(
                    i,
                    SessionView {
                        endpoint,
                        last_sent_time: if sent.len() > 0 {
                            self.time
                        } else {
                            s.last_sent_time
                        },
                        ..s
                    },
                ),
                outbox: self.outbox + packets::addressed(s.socket_addr, sent),
                ..self
            },
            result: match error {
                Some(e) => Err(e),
                None => Ok(()),
            },
        }
    }

    /// After the packets for the first `n` sessions were put into the outbox. Stops where something
    /// goes wrong.
    pub open spec fn all_drained(self, n: int) -> ServerOutcome
        decreases n,
    {
        if n <= 0 {
            ServerOutcome { state: self, result: Ok(()) }
        } else {
            let before = self.all_drained(n - 1);
            if before.result is Err {
                before
            } else {
                before.state.session_drained(n - 1)
            }
        }
    }

    /// Without the clients that nothing was heard of for too long.
    pub open spec fn expired_removed(self) -> Self {
        ProtocolServerView {
            pending: self.pending.filter(|p: PendingView| !pending_expired(p, self.time)),
            connected: self.connected.filter(|s: SessionView| !session_expired(s, self.time)),
            ..self
        }
    }

    /// After the clients were processed: pending ones are challenged, those that nothing was heard
    /// of for too long are gone, and what is to be sent to the others is in the outbox.
    pub open spec fn composed(self) -> ServerOutcome {
        let challenged = self.all_challenged(self.pending.len() as int);
        if challenged.result is Err {
            challenged
        } else {
            let kept = challenged.state.expired_removed();
            kept.all_drained(kept.connected.len() as int)
        }
    }

    /// With the clock moved on, and the clients processed.
    pub open spec fn updated(self, dt: Time) -> ServerOutcome {
        (ProtocolServerView {
            time: time::advanced(self.time, dt),
            pending: self.pending.map_values(|p: PendingView| p.updated(dt)),
            connected: self.connected.map_values(
                |s: SessionView| SessionView { endpoint: s.endpoint.updated(dt), ..s },
            ),
            ..self
        }).composed()
    }

    /// After a client asked for a connection, with `salt` made up for it.
    pub open spec fn requested(
        self,
        client_salt: u64,
        protocol_version: u64,
        addr: PeerAddr,
        salt: u64,
    ) -> ServerOutcome {
        if protocol_version != PROTOCOL_VERSION {
            self.packet_sent(addr, ServerView::denial(DisconnectReason::Normal))
        } else if server::find_pending(self.pending, client_salt, addr, 0) is Some {
            ServerOutcome { state: self, result: Ok(()) }
        } else {
            ServerOutcome {
                state: ProtocolServerView {
                    pending: self.pending.push(
                        PendingView {
                            client_salt,
                            server_salt: salt,
                            first_requested_time: self.time,
                            last_challenged_at: 0,
                            socket_addr: addr,
                            endpoint: pickleback::fresh_endpoint(
                                ConfigView::default_settings(),
                                self.time,
                            ),
                        },
                    ),
                    ..self
                },
                result: Ok(()),
            }
        }
    }

    /// After a client answered its challenge: it is connected. One that was not challenged is turned
    /// away.
    pub open spec fn answered(self, xor_salt: u64, addr: PeerAddr) -> ServerOutcome {
        match server::find_challenged(self.pending, xor_salt, addr, 0) {
            None => self.packet_sent(addr, ServerView::denial(DisconnectReason::Normal)),
            Some(i) => {
                let p = self.pending[i];
                ServerOutcome {
                    state: ProtocolServerView {
                        pending: self.pending.remove(i),
                        connected: self.connected.push(
                            SessionView {
                                client_salt: p.client_salt,
                                server_salt: p.server_salt,
                                xor_salt: p.xor_salt(),
                                socket_addr: addr,
                                last_received_time: self.time,
                                last_sent_time: self.time,
                                endpoint: EndpointView {
                                    xor_salt: Some(p.xor_salt()),
                                    ..p.endpoint
                                },
                            },
                        ),
                        ..self
                    },
                    result: Ok(()),
                }
            },
        }
    }

    /// After a connected client sent a packet of messages. One that is not connected is ignored.
    pub open spec fn heard(
        self,
        xor_salt: u64,
        addr: PeerAddr,
        header: HeaderView,
        rest: Seq<u8>,
    ) -> ServerOutcome {
        match find_session(self.connected, xor_salt, addr, 0) {
            None => ServerOutcome { state: self, result: Ok(()) },
            Some(i) => {
                let o = self.connected[i].endpoint.packet_received(header, rest);
                ServerOutcome {
                    state: ProtocolServerView {
                        connected: self.connected.update(
                            i,
                            SessionView {
                                last_received_time: self.time,
                                endpoint: o.state,
                                ..self.connected[i]
                            },
                        ),
                        ..self
                    },
                    result: o.result,
                }
            },
        }
    }

    /// After a client said that its connection is over.
    pub open spec fn left(self, xor_salt: u64, addr: PeerAddr) -> Self {
        match find_session(self.connected, xor_salt, addr, 0) {
            None => self,
            Some(i) => ProtocolServerView { connected: self.connected.remove(i), ..self },
        }
    }

    /// After `bytes` were received from `addr`, with `salt` made up in case that it asks for a
    /// connection.
    pub open spec fn received(self, bytes: Seq<u8>, addr: PeerAddr, salt: u64) -> ServerOutcome {
        match packets::parse_packet(bytes) {
            Err(e) => ServerOutcome { state: self, result: Err(e) },
            Ok((p, rest)) => match p.body {
                PacketBody::ConnectionRequest { client_salt, protocol_version } => self.requested(
                    client_salt,
                    protocol_version,
                    addr,
                    salt,
                ),
                PacketBody::ConnectionChallengeResponse { xor_salt } => self.answered(
                    xor_salt,
                    addr,
                ),
                PacketBody::Disconnect { xor_salt } => ServerOutcome {
                    state: self.left(xor_salt, addr),
                    result: Ok(()),
                },
                PacketBody::Messages { xor_salt } => self.heard(xor_salt, addr, p.header, rest),
                _ => ServerOutcome { state: self, result: Ok(()) },
            },
        }
    }
}

/// When the server gets a connection request, it sends a challenge and creates a pending client.
struct PendingClient {
    client_salt: u64,
    server_salt: u64,
    first_requested_time: Time,
    last_challenged_at: Time,
    socket_addr: PeerAddr,
    packeteer: Pickleback,
}

impl PendingClient {
    spec fn seen(self) -> PendingView {
        PendingView {
            client_salt: self.client_salt,
            server_salt: self.server_salt,
            first_requested_time: self.first_requested_time,
            last_challenged_at: self.last_challenged_at,
            socket_addr: self.socket_addr,
            endpoint: self.packeteer@,
        }
    }
}

/// When the server gets an answer to its challenge, it promotes the pending client to a connected
/// one.
struct ConnectedClient {
    client_salt: u64,
    server_salt: u64,
    xor_salt: u64,
    socket_addr: PeerAddr,
    last_received_time: Time,
    last_sent_time: Time,
    packeteer: Pickleback,
}

impl ConnectedClient {
    spec fn seen(self) -> SessionView {
        SessionView {
            client_salt: self.client_salt,
            server_salt: self.server_salt,
            xor_salt: self.xor_salt,
            socket_addr: self.socket_addr,
            last_received_time: self.last_received_time,
            last_sent_time: self.last_sent_time,
            endpoint: self.packeteer@,
        }
    }

    spec fn wf(self) -> bool {
        self.packeteer.wf() && self.packeteer@.xor_salt is Some
    }
}

/// A server that manages connections to multiple clients.
pub struct ProtocolServer {
    time: Time,
    pending_clients: Vec<PendingClient>,
    connected_clients: Vec<ConnectedClient>,
    outbox: Vec<AddressedPacket>,
    pool: BufPool,
    config: PicklebackConfig,
}

impl View for ProtocolServer {
    type V = ProtocolServerView;

    closed spec fn view(&self) -> ProtocolServerView {
        ProtocolServerView {
            time: self.time,
            pending: self.pending_clients@.map_values(|p: PendingClient| p.seen()),
            connected: self.connected_clients@.map_values(|c: ConnectedClient| c.seen()),
            outbox: self.outbox@.map_values(|p: AddressedPacket| p@),
        }
    }
}

impl ProtocolServer {
    /// All clients are whole.
    pub closed spec fn wf(&self) -> bool {
        &&& buffer_pool::usable(self.pool@)
        &&& self.config@ == ConfigView::default_settings()
        &&& forall|i: int|
            0 <= i < self.pending_clients@.len() ==> (
            #[trigger] self.pending_clients@[i]).packeteer.wf()
        &&& forall|i: int|
            0 <= i < self.connected_clients@.len() ==> (#[trigger] self.connected_clients@[i]).wf()
    }

    /// A server without clients, that takes buffers from `pool`.
    pub fn new(time: Time, pool: BufPool) -> (r: Self)
        requires
            buffer_pool::usable(pool@),
        ensures
            r.wf(),
            r@ == ProtocolServerView::fresh(time),
    {
        let r = ProtocolServer {
            time,
            pending_clients: Vec::new(),
            connected_clients: Vec::new(),
            outbox: Vec::new(),
            pool,
            config: PicklebackConfig::default(),
        };
        assert(r@ =~= ProtocolServerView::fresh(time));
        r
    }

    /// Advances time, and composes the packets to be sent.
    pub fn update(&mut self, dt: Time) -> (r: Result<(), PicklebackError>)
        requires
            old(self).wf(),
        ensures
            final(self).wf(),
            final(self)@ == old(self)@.updated(dt).state,
            r == old(self)@.updated(dt).result,
    {
        self.time = time::advance(self.time, dt);
        self.update_clients(dt);
        self.compose_packets()
    }

    /// Moves the clocks of all clients on.
    fn update_clients(&mut self, dt: Time)
        requires
            old(self).wf(),
        ensures
            final(self).wf(),
            final(self)@ == (ProtocolServerView {
                pending: old(self)@.pending.map_values(|p: PendingView| p.updated(dt)),
                connected: old(self)@.connected.map_values(
                    |s: SessionView| SessionView { endpoint: s.endpoint.updated(dt), ..s },
                ),
                ..old(self)@
            }),
    {
        let mut i: usize = 0;
        while i < self.pending_clients.len()
            invariant
                self.wf(),
                i <= self.pending_clients@.len(),
                self.pending_clients@.len() == old(self)@.pending.len(),
                forall|j: int|
                    0 <= j < self.pending_clients@.len() ==> (
                    #[trigger] self.pending_clients@[j]).seen() == (if j < i {
                        old(self)@.pending[j].updated(dt)
                    } else {
                        old(self)@.pending[j]
                    }),
                self@ =~= (ProtocolServerView { pending: self@.pending, ..old(self)@ }),
            decreases self.pending_clients@.len() - i,
        {
            self.pending_clients[i].packeteer.update(dt);
            i = i + 1;
        }
        assert(self@.pending =~= old(self)@.pending.map_values(|p: PendingView| p.updated(dt)));
        let ghost pending = self@.pending;
        let mut k: usize = 0;
        while k < self.connected_clients.len()
            invariant
                self.wf(),
                k <= self.connected_clients@.len(),
                self.connected_clients@.len() == old(self)@.connected.len(),
                forall|j: int|
                    0 <= j < self.connected_clients@.len() ==> (
                    #[trigger] self.connected_clients@[j]).seen() == (if j < k {
                        SessionView {
                            endpoint: old(self)@.connected[j].endpoint.updated(dt),
                            ..old(self)@.connected[j]
                        }
                    } else {
                        old(self)@.connected[j]
                    }),
                self@ =~= (ProtocolServerView {
                    pending,
                    connected: self@.connected,
                    ..old(self)@
                }),
            decreases self.connected_clients@.len() - k,
        {
            self.connected_clients[k].packeteer.update(dt);
            k = k + 1;
        }
        assert(self@.connected =~= old(self)@.connected.map_values(
            |s: SessionView| SessionView { endpoint: s.endpoint.updated(dt), ..s },
        ));
    }

    /// Takes out the packets to be sent.
    pub fn drain_packets_to_send(&mut self) -> (r: Vec<AddressedPacket>)
        requires
            old(self).wf(),
        ensures
            final(self).wf(),
            r@.map_values(|p: AddressedPacket| p@) == old(self)@.outbox,
            final(self)@ == (ProtocolServerView { outbox: Seq::empty(), ..old(self)@ }),
    {
        let mut ret: Vec<AddressedPacket> = Vec::new();
        std::mem::swap(&mut ret, &mut self.outbox);
        assert(self@.outbox =~= Seq::empty());
        ret
    }

    /// Writes a packet, and puts it into the outbox.
    fn send(&mut self, address: PeerAddr, packet: ProtocolPacket) -> (r: Result<
        (),
        PicklebackError,
    >)
        requires
            old(self).wf(),
            packet.header().wf(),
            !(packet@.body is Messages),
        ensures
            final(self).wf(),
            final(self)@ == old(self)@.packet_sent(address, packet@).state,
            r == old(self)@.packet_sent(address, packet@).result,
    {
        let buffer = packets::write_packet(&mut self.pool, &self.config, packet)?;
        let mut copy: Vec<u8> = Vec::with_capacity(buffer.len());
        copy.extend_from_slice(buffer.as_slice());
        assert(copy@ =~= buffer@);
        self.pool.return_buffer(buffer);
        self.outbox.push(AddressedPacket { address, packet: copy });
        assert(self@ =~= old(self)@.packet_sent(address, packet@).state);
        Ok(())
    }

    /// Turns a client away.
    fn deny(&mut self, address: PeerAddr) -> (r: Result<(), PicklebackError>)
        requires
            old(self).wf(),
        ensures
            final(self).wf(),
            ({
                let o = old(self)@.packet_sent(
                    address,
                    ServerView::denial(DisconnectReason::Normal),
                );
                final(self)@ == o.state && r == o.result
            }),
    {
        let header = ProtocolPacketHeader::new_no_acks(PacketId(0), PacketType::ConnectionDenied)?;
        self.send(
            address,
            ProtocolPacket::ConnectionDenied(
                ConnectionDeniedPacket { header, reason: DisconnectReason::Normal },
            ),
        )
    }

    /// Runs the state machine of the clients, and composes the packets to be sent to them.
    fn compose_packets(&mut self) -> (r: Result<(), PicklebackError>)
        requires
            old(self).wf(),
        ensures
            final(self).wf(),
            final(self)@ == old(self)@.composed().state,
            r == old(self)@.composed().result,
    {
        self.challenge_pending_clients()?;
        self.remove_expired_clients();
        self.drain_connected_clients()
    }

    /// Challenges the pending clients.
    fn challenge_pending_clients(&mut self) -> (r: Result<(), PicklebackError>)
        requires
            old(self).wf(),
        ensures
            final(self).wf(),
            final(self)@ == old(self)@.all_challenged(old(self)@.pending.len() as int).state,
            r == old(self)@.all_challenged(old(self)@.pending.len() as int).result,
    {
        let mut i: usize = 0;
        while i < self.pending_clients.len()
            invariant
                self.wf(),
                i <= self.pending_clients@.len(),
                self.pending_clients@.len() == old(self)@.pending.len(),
                self@ == old(self)@.all_challenged(i as int).state,
                old(self)@.all_challenged(i as int).result is Ok,
            decreases self.pending_clients@.len() - i,
        {
            proof {
                lemma_challenged_failed(old(self)@, i + 1, old(self)@.pending.len() as int);
            }
            self.challenge_pending_client(i)?;
            i = i + 1;
        }
        Ok(())
    }

    /// Challenges a pending client, unless it was a moment ago or has been pending for too long.
    fn challenge_pending_client(&mut self, i: usize) -> (r: Result<(), PicklebackError>)
        requires
            old(self).wf(),
            i < old(self)@.pending.len(),
        ensures
            final(self).wf(),
            final(self)@ == old(self)@.challenged(i as int).state,
            final(self)@.pending.len() == old(self)@.pending.len(),
            r == old(self)@.challenged(i as int).result,
    {
        let now = self.time;
        if time::elapsed(now, self.pending_clients[i].first_requested_time)
            > CLIENT_TIMEOUT as i128 {
            return Ok(());
        }
        if time::elapsed(now, self.pending_clients[i].last_challenged_at)
            <= RESEND_INTERVAL as i128 {
            return Ok(());
        }
        self.pending_clients[i].last_challenged_at = now;
        let header = self.pending_clients[i].packeteer.next_packet_header(
            PacketType::ConnectionChallenge,
        );
        proof {
            let p = old(self)@.pending[i as int];
            assert(self@.pending =~= old(self)@.pending.update(
                i as int,
                PendingView {
                    last_challenged_at: now,
                    endpoint: p.endpoint.next_begun(),
                    ..p
                },
            ));
        }
        let header = header?;
        let packet = ProtocolPacket::ConnectionChallenge(
            ConnectionChallengePacket {
                header,
                client_salt: self.pending_clients[i].client_salt,
                server_salt: self.pending_clients[i].server_salt,
            },
        );
        let address = self.pending_clients[i].socket_addr;
        self.send(address, packet)
    }

    /// Removes the clients that nothing was heard of for too long.
    fn remove_expired_clients(&mut self)
        requires
            old(self).wf(),
        ensures
            final(self).wf(),
            final(self)@ == old(self)@.expired_removed(),
    {
        let ghost now = self.time;
        let ghost keep = |p: PendingView| !pending_expired(p, now);
        let ghost all = self@.pending;
        let ghost mut n: int = 0;
        let mut i: usize = 0;
        assert(all.take(0).filter(keep) =~= Seq::empty()) by {
            reveal(Seq::filter);
        }
        while i < self.pending_clients.len()
            invariant
                self.wf(),
                self.time == now,
                0 <= n <= all.len(),
                i <= self.pending_clients@.len(),
                self.pending_clients@.len() - i == all.len() - n,
                keep == (|p: PendingView| !pending_expired(p, now)),
                self@.pending.take(i as int) =~= all.take(n).filter(keep),
                self@.pending.skip(i as int) =~= all.skip(n),
                self@ =~= (ProtocolServerView { pending: self@.pending, ..old(self)@ }),
            decreases self.pending_clients@.len() - i,
        {
            let ghost before = self@.pending;
            proof {
                assert(before.skip(i as int)[0] == all.skip(n)[0]);
                assert(self.pending_clients@[i as int].seen() == all[n]);
                reveal(Seq::filter);
                assert(all.take(n + 1).drop_last() =~= all.take(n));
            }
            if time::elapsed(self.time, self.pending_clients[i].first_requested_time)
                > CLIENT_TIMEOUT as i128 {
                let _ = self.pending_clients.remove(i);
                assert(self@.pending =~= before.remove(i as int));
                assert(self@.pending.take(i as int) =~= before.take(i as int));
                assert(self@.pending.skip(i as int) =~= before.skip(i as int).skip(1));
            } else {
                i = i + 1;
                assert(self@.pending.take(i as int) =~= before.take(i - 1).push(before[i - 1]));
                assert(self@.pending.skip(i as int) =~= before.skip(i - 1).skip(1));
            }
            assert(all.skip(n).skip(1) =~= all.skip(n + 1));
            proof {
                n = n + 1;
            }
        }
        assert(all.take(n) =~= all);
        assert(self@.pending.take(i as int) =~= self@.pending);
        self.remove_expired_sessions();
    }

    /// Removes the connected clients that nothing was heard of for too long.
    fn remove_expired_sessions(&mut self)
        requires
            old(self).wf(),
        ensures
            final(self).wf(),
            final(self)@ == (ProtocolServerView {
                connected: old(self)@.connected.filter(
                    |s: SessionView| !session_expired(s, old(self)@.time),
                ),
                ..old(self)@
            }),
    {
        let ghost now = self.time;
        let ghost keep = |s: SessionView| !session_expired(s, now);
        let ghost all = self@.connected;
        let ghost mut n: int = 0;
        let mut i: usize = 0;
        assert(all.take(0).filter(keep) =~= Seq::empty()) by {
            reveal(Seq::filter);
        }
        while i < self.connected_clients.len()
            invariant
                self.wf(),
                self.time == now,
                0 <= n <= all.len(),
                i <= self.connected_clients@.len(),
                self.connected_clients@.len() - i == all.len() - n,
                keep == (|s: SessionView| !session_expired(s, now)),
                self@.connected.take(i as int) =~= all.take(n).filter(keep),
                self@.connected.skip(i as int) =~= all.skip(n),
                self@ =~= (ProtocolServerView { connected: self@.connected, ..old(self)@ }),
            decreases self.connected_clients@.len() - i,
        {
            let ghost before = self@.connected;
            proof {
                assert(before.skip(i as int)[0] == all.skip(n)[0]);
                assert(self.connected_clients@[i as int].seen() == all[n]);
                reveal(Seq::filter);
                assert(all.take(n + 1).drop_last() =~= all.take(n));
            }
            if time::elapsed(self.time, self.connected_clients[i].last_received_time)
                > CLIENT_TIMEOUT as i128 {
                let _ = self.connected_clients.remove(i);
                assert(self@.connected =~= before.remove(i as int));
                assert(self@.connected.take(i as int) =~= before.take(i as int));
                assert(self@.connected.skip(i as int) =~= before.skip(i as int).skip(1));
            } else {
                i = i + 1;
                assert(self@.connected.take(i as int) =~= before.take(i - 1).push(before[i - 1]));
                assert(self@.connected.skip(i as int) =~= before.skip(i - 1).skip(1));
            }
            assert(all.skip(n).skip(1) =~= all.skip(n + 1));
            proof {
                n = n + 1;
            }
        }
        assert(all.take(n) =~= all);
        assert(self@.connected.take(i as int) =~= self@.connected);
    }

    /// Puts what is to be sent to the connected clients into the outbox.
    fn drain_connected_clients(&mut self) -> (r: Result<(), PicklebackError>)
        requires
            old(self).wf(),
        ensures
            final(self).wf(),
            final(self)@ == old(self)@.all_drained(old(self)@.connected.len() as int).state,
            r == old(self)@.all_drained(old(self)@.connected.len() as int).result,
    {
        let mut i: usize = 0;
        while i < self.connected_clients.len()
            invariant
                self.wf(),
                i <= self.connected_clients@.len(),
                self.connected_clients@.len() == old(self)@.connected.len(),
                self@ == old(self)@.all_drained(i as int).state,
                old(self)@.all_drained(i as int).result is Ok,
            decreases self.connected_clients@.len() - i,
        {
            proof {
                lemma_drained_failed(old(self)@, i + 1, old(self)@.connected.len() as int);
            }
            self.drain_connected_client(i)?;
            i = i + 1;
        }
        Ok(())
    }

    /// Puts what is to be sent to a connected client into the outbox.
    fn drain_connected_client(&mut self, i: usize) -> (r: Result<(), PicklebackError>)
        requires
            old(self).wf(),
            i < old(self)@.connected.len(),
        ensures
            final(self).wf(),
            final(self)@ == old(self)@.session_drained(i as int).state,
            final(self)@.connected.len() == old(self)@.connected.len(),
            r == old(self)@.session_drained(i as int).result,
    {
        let address = self.connected_clients[i].socket_addr;
        let ghost s = self@.connected[i as int];
        proof {
            self.connected_clients@[i as int].packeteer.lemma_wf();
            s.endpoint.lemma_composed();
        }
        let collected = self.connected_clients[i].packeteer.collect_packets_to_send_inefficiently();
        match collected {
            Ok(sent) => {
                if sent.len() > 0 {
                    self.connected_clients[i].last_sent_time = self.time;
                }
                assert(self@.connected =~= old(self)@.session_drained(i as int).state.connected);
                packets::push_addressed(&mut self.outbox, address, sent);
                Ok(())
            },
            Err(e) => {
                assert(self@.connected =~= old(self)@.session_drained(i as int).state.connected);
                assert(packets::addressed(address, Seq::empty()) =~= Seq::empty());
                assert(self@.outbox + Seq::<AddressedView>::empty() =~= self@.outbox);
                Err(e)
            },
        }
    }

    /// Whether a client has asked for a connection already.
    fn has_pending_with_client_salt(&self, client_salt: u64, client_addr: PeerAddr) -> (r: bool)
        ensures
            r == server::find_pending(self@.pending, client_salt, client_addr, 0) is Some,
    {
        let mut i: usize = 0;
        while i < self.pending_clients.len()
            invariant
                i <= self.pending_clients@.len(),
                server::find_pending(self@.pending, client_salt, client_addr, 0)
                    == server::find_pending(self@.pending, client_salt, client_addr, i as int),
            decreases self.pending_clients@.len() - i,
        {
            if self.pending_clients[i].client_salt == client_salt
                && self.pending_clients[i].socket_addr == client_addr {
                return true;
            }
            i = i + 1;
        }
        false
    }

    /// Takes out the pending client that a challenge response is from.
    fn take_pending_by_xor_salt(&mut self, xor_salt: u64, client_addr: PeerAddr) -> (r: Option<
        PendingClient,
    >)
        requires
            old(self).wf(),
        ensures
            final(self).wf(),
            match server::find_challenged(old(self)@.pending, xor_salt, client_addr, 0) {
                None => r is None && final(self)@ == old(self)@,
                Some(i) => {
                    &&& 0 <= i < old(self)@.pending.len()
                    &&& old(self)@.pending[i].xor_salt() == xor_salt
                    &&& r matches Some(p) && p.packeteer.wf() && p.seen() == old(self)@.pending[i]
                    &&& final(self)@ == (ProtocolServerView {
                        pending: old(self)@.pending.remove(i),
                        ..old(self)@
                    })
                },
            },
    {
        let mut i: usize = 0;
        while i < self.pending_clients.len()
            invariant
                self.wf(),
                *self == *old(self),
                i <= self.pending_clients@.len(),
                server::find_challenged(self@.pending, xor_salt, client_addr, 0)
                    == server::find_challenged(self@.pending, xor_salt, client_addr, i as int),
            decreases self.pending_clients@.len() - i,
        {
            if (self.pending_clients[i].client_salt ^ self.pending_clients[i].server_salt)
                == xor_salt && self.pending_clients[i].socket_addr == client_addr {
                let pending = self.pending_clients.remove(i);
                assert(self@.pending =~= old(self)@.pending.remove(i as int));
                return Some(pending);
            }
            i = i + 1;
        }
        None
    }

    /// The number of the connected client with this salt and address.
    fn connected_client_index(&self, xor_salt: u64, client_addr: PeerAddr) -> (r: Option<usize>)
        ensures
            match r {
                Some(i) => i < self.connected_clients@.len() && find_session(
                    self@.connected,
                    xor_salt,
                    client_addr,
                    0,
                ) == Some(i as int),
                None => find_session(self@.connected, xor_salt, client_addr, 0) is None,
            },
    {
        let mut i: usize = 0;
        while i < self.connected_clients.len()
            invariant
                i <= self.connected_clients@.len(),
                find_session(self@.connected, xor_salt, client_addr, 0) == find_session(
                    self@.connected,
                    xor_salt,
                    client_addr,
                    i as int,
                ),
            decreases self.connected_clients@.len() - i,
        {
            if self.connected_clients[i].xor_salt == xor_salt
                && self.connected_clients[i].socket_addr == client_addr {
                return Some(i);
            }
            i = i + 1;
        }
        None
    }

    /// Removes the connected client with this salt and address.
    fn remove_connected_client(&mut self, xor_salt: u64, client_addr: PeerAddr)
        requires
            old(self).wf(),
        ensures
            final(self).wf(),
            final(self)@ == old(self)@.left(xor_salt, client_addr),
    {
        if let Some(i) = self.connected_client_index(xor_salt, client_addr) {
            let _ = self.connected_clients.remove(i);
            assert(self@.connected =~= old(self)@.connected.remove(i as int));
        }
    }

    /// A client asks for a connection.
    fn receive_request(
        &mut self,
        client_salt: u64,
        protocol_version: u64,
        client_addr: PeerAddr,
        server_salt: u64,
    ) -> (r: Result<(), PicklebackError>)
        requires
            old(self).wf(),
        ensures
            final(self).wf(),
            ({
                let o = old(self)@.requested(
                    client_salt,
                    protocol_version,
                    client_addr,
                    server_salt,
                );
                final(self)@ == o.state && r == o.result
            }),
    {
        if protocol_version != PROTOCOL_VERSION {
            return self.deny(client_addr);
        }
        if !self.has_pending_with_client_salt(client_salt, client_addr) {
            let pending = PendingClient {
                client_salt,
                server_salt,
                first_requested_time: self.time,
                last_challenged_at: 0,
                socket_addr: client_addr,
                packeteer: Pickleback::new(PicklebackConfig::default(), self.time),
            };
            self.pending_clients.push(pending);
            assert(self@.pending =~= old(self)@.pending.push(pending.seen()));
        }
        Ok(())
    }

    /// A client answers its challenge.
    fn receive_challenge_response(&mut self, xor_salt: u64, client_addr: PeerAddr) -> (r: Result<
        (),
        PicklebackError,
    >)
        requires
            old(self).wf(),
        ensures
            final(self).wf(),
            ({
                let o = old(self)@.answered(xor_salt, client_addr);
                final(self)@ == o.state && r == o.result
            }),
    {
        match self.take_pending_by_xor_salt(xor_salt, client_addr) {
            None => self.deny(client_addr),
            Some(pending) => {
                let mut packeteer = pending.packeteer;
                packeteer.set_xor_salt(Some(xor_salt));
                let client = ConnectedClient {
                    client_salt: pending.client_salt,
                    server_salt: pending.server_salt,
                    xor_salt,
                    socket_addr: client_addr,
                    last_received_time: self.time,
                    last_sent_time: self.time,
                    packeteer,
                };
                self.connected_clients.push(client);
                assert(self@.connected =~= old(self)@.connected.push(client.seen()));
                Ok(())
            },
        }
    }

    /// Takes a packet of messages from a connected client.
    fn receive_messages(
        &mut self,
        xor_salt: u64,
        client_addr: PeerAddr,
        header: &ProtocolPacketHeader,
        cur: &mut Cursor,
    ) -> (r: Result<(), PicklebackError>)
        requires
            old(self).wf(),
            header.wf(),
            old(cur).wf(),
        ensures
            final(self).wf(),
            ({
                let o = old(self)@.heard(xor_salt, client_addr, header@, old(cur).rest());
                final(self)@ == o.state && r == o.result
            }),
    {
        match self.connected_client_index(xor_salt, client_addr) {
            Some(i) => {
                let now = self.time;
                proof {
                    self@.connected[i as int].endpoint.lemma_packet_received(
                        header@,
                        cur.rest(),
                    );
                }
                self.connected_clients[i].last_received_time = now;
                let r = self.connected_clients[i].packeteer.process_incoming_packet(header, cur);
                proof {
                    let s = old(self)@.connected[i as int];
                    assert(self@.connected =~= old(self)@.connected.update(
                        i as int,
                        SessionView {
                            last_received_time: now,
                            endpoint: s.endpoint.packet_received(header@, old(cur).rest()).state,
                            ..s
                        },
                    ));
                }
                r
            },
            None => Ok(()),
        }
    }

    /// Processes a packet received from the network. A client that asks for a connection is given a
    /// random salt.
    pub fn receive(&mut self, packet: &[u8], client_addr: PeerAddr) -> (r: Result<
        (),
        PicklebackError,
    >)
        requires
            old(self).wf(),
        ensures
            final(self).wf(),
            exists|salt: u64|
                {
                    let o = #[trigger] old(self)@.received(packet@, client_addr, salt);
                    final(self)@ == o.state && r == o.result
                },
    {
        let salt = entropy::random_u64();
        self.receive_with_salt(packet, client_addr, salt)
    }

    /// Processes a packet received from the network. A client that asks for a connection is given
    /// `server_salt`.
    pub fn receive_with_salt(
        &mut self,
        packet: &[u8],
        client_addr: PeerAddr,
        server_salt: u64,
    ) -> (r: Result<(), PicklebackError>)
        requires
            old(self).wf(),
        ensures
            final(self).wf(),
            ({
                let o = old(self)@.received(packet@, client_addr, server_salt);
                final(self)@ == o.state && r == o.result
            }),
    {
        let mut cur = Cursor::new(packet);
        let packet = packets::read_packet(&mut cur)?;
        match packet {
            ProtocolPacket::ConnectionRequest(p) => {
                self.receive_request(p.client_salt, p.protocol_version, client_addr, server_salt)
            },
            ProtocolPacket::ConnectionChallengeResponse(p) => {
                self.receive_challenge_response(p.xor_salt, client_addr)
            },
            ProtocolPacket::Disconnect(p) => {
                self.remove_connected_client(p.xor_salt, client_addr);
                Ok(())
            },
            ProtocolPacket::Messages(p) => {
                self.receive_messages(p.xor_salt, client_addr, &p.header, &mut cur)
            },
            _ => Ok(()),
        }
    }
}

/// Once challenging has failed, no more clients are challenged.
proof fn lemma_challenged_failed(s: ProtocolServerView, n: int, m: int)
    requires
        0 <= n <= m,
    ensures
        s.all_challenged(n).result is Err ==> s.all_challenged(m) == s.all_challenged(n),
    decreases m,
{
    if n < m {
        lemma_challenged_failed(s, n, m - 1);
    }
}

/// Once a session has failed, no more are drained.
proof fn lemma_drained_failed(s: ProtocolServerView, n: int, m: int)
    requires
        0 <= n <= m,
    ensures
        s.all_drained(n).result is Err ==> s.all_drained(m) == s.all_drained(n),
    decreases m,
{
    if n < m {
        lemma_drained_failed(s, n, m - 1);
    }
}

} // verus!
