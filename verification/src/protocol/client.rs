//! A client that keeps the packets of the handshake apart from those of the endpoint: they are
//! not tracked, so they are never acked.

use super::packets::{
    self, AddressedPacket, AddressedView, ConnectionChallengeResponsePacket,
    ConnectionRequestPacket, DisconnectPacket, KeepAlivePacket, PacketBody, PacketType, PacketView,
    ProtocolPacket,
};
use super::PROTOCOL_VERSION;
use crate::address::PeerAddr;
use crate::buffer_pool::{self, BufPool};
use crate::client::{NUM_DISCONNECTS, RESEND_INTERVAL, TIMEOUT};
use crate::config::{ConfigView, PicklebackConfig};
use crate::cursor::Cursor;
use crate::endpoint::EndpointView;
use crate::entropy;
use crate::error::{IoError, PicklebackError};
use crate::pickleback::{self, Pickleback};
use crate::time::{self, Time, SECOND};
use vstd::prelude::*;

verus! {

/// Why a connection ended, or was not made.
#[derive(Debug, Clone, Copy, PartialEq, Eq, Structural)]
pub enum DisconnectReason {
    Normal,
    TimedOut,
    /// Turned away, with the number of the reason.
    ServerDenied(u8),
}

/// Where a client stands with its server.
#[derive(Debug, Clone, Copy, PartialEq, Eq, Structural)]
pub enum ClientState {
    SendingConnectionRequest,
    SendingChallengeResponse,
    Connected,
    Disconnected(DisconnectReason),
    SelfInitiatedDisconnect,
}

/// The state of a client.
#[verifier::ext_equal]
pub struct ProtocolClientView {
    pub time: Time,
    pub state: ClientState,
    pub client_salt: Option<u64>,
    pub server_salt: Option<u64>,
    pub xor_salt: Option<u64>,
    /// When a packet of the handshake was last sent.
    pub proto_last_send: Time,
    /// The packets to be sent.
    pub out_buffer: Seq<AddressedView>,
    pub last_receive_time: Time,
    pub last_send_time: Time,
    pub endpoint: EndpointView,
    pub server_addr: PeerAddr,
}

/// What came of an operation: the state after it, and what the caller is told.
pub struct ClientOutcome {
    pub state: ProtocolClientView,
    pub result: Result<(), PicklebackError>,
}

impl ProtocolClientView {
    /// A client that is not connected.
    pub open spec fn fresh(time: Time) -> Self {
        ProtocolClientView {
            time,
            state: ClientState::Disconnected(DisconnectReason::Normal),
            client_salt: None,
            server_salt: None,
            xor_salt: None,
            proto_last_send: 0,
            out_buffer: Seq::empty(),
            last_receive_time: 0,
            last_send_time: 0,
            endpoint: pickleback::fresh_endpoint(ConfigView::default_settings(), SECOND),
            server_addr: PeerAddr::V4 { v4: 0x7F00_0001, port: 6000 },
        }
    }

    /// The salts that a state needs are known.
    pub open spec fn wf(self) -> bool {
        &&& self.state is SendingConnectionRequest ==> self.client_salt is Some
        &&& self.state is SendingChallengeResponse ==> self.xor_salt is Some
        &&& self.state is Connected ==> self.xor_salt is Some
    }

    /// In another state.
    pub open spec fn transitioned(self, state: ClientState) -> Self {
        ProtocolClientView {
            state,
            proto_last_send: 0,
            endpoint: EndpointView { xor_salt: self.xor_salt, ..self.endpoint },
            ..self
        }
    }

    /// With the clock moved on. A client that has not received anything for too long is
    /// disconnected.
    pub open spec fn updated(self, dt: Time) -> Self {
        let next = ProtocolClientView {
            time: time::advanced(self.time, dt),
            endpoint: self.endpoint.updated(dt),
            ..self
        };
        if !(self.state is Disconnected) && next.time - self.last_receive_time > TIMEOUT {
            next.transitioned(ClientState::Disconnected(DisconnectReason::TimedOut))
        } else {
            next
        }
    }

    /// On the way out. Anything waiting to be sent is discarded. Where the server knows of the
    /// client, it has to be told.
    pub open spec fn disconnecting(self) -> Self {
        let cleared = ProtocolClientView { out_buffer: Seq::empty(), ..self };
        if self.state is Connected || self.state is SendingChallengeResponse {
            cleared.transitioned(ClientState::SelfInitiatedDisconnect)
        } else {
            cleared.transitioned(ClientState::Disconnected(DisconnectReason::Normal))
        }
    }

    /// On the way in, with `salt` made up for this connection. The time that a timeout is counted
    /// from, which is when anything was last received or else zero, stays as it is.
    pub open spec fn connecting(self, salt: u64) -> Self {
        (ProtocolClientView {
            server_salt: None,
            xor_salt: None,
            client_salt: Some(salt),
            ..self
        }).transitioned(ClientState::SendingConnectionRequest)
    }

    /// After a packet was written and put with those to be sent.
    pub open spec fn packet_sent(self, p: PacketView) -> ClientOutcome {
        let bytes = p.encoded();
        if bytes.len() > ConfigView::default_settings().max_packet_size {
            ClientOutcome { state: self, result: Err(PicklebackError::Io(IoError::WriteZero)) }
        } else {
            ClientOutcome {
                state: ProtocolClientView {
                    out_buffer: self.out_buffer.push(
                        AddressedView { address: self.server_addr, bytes },
                    ),
                    last_send_time: self.time,
                    ..self
                },
                result: Ok(()),
            }
        }
    }

    /// After a packet with the next header was written and put with those to be sent.
    pub open spec fn next_sent(self, body: PacketBody) -> ClientOutcome {
        let begun = ProtocolClientView { endpoint: self.endpoint.next_begun(), ..self };
        match begun.endpoint.header(body.packet_type()) {
            Err(e) => ClientOutcome { state: begun, result: Err(e) },
            Ok(header) => begun.packet_sent(PacketView { header, body }),
        }
    }

    /// After the server was told `n` times that the connection is over. Stops where something goes
    /// wrong.
    pub open spec fn disconnects_sent(self, n: nat) -> ClientOutcome
        decreases n,
    {
        if n == 0 {
            ClientOutcome { state: self, result: Ok(()) }
        } else {
            let before = self.disconnects_sent((n - 1) as nat);
            if before.result is Err {
                before
            } else {
                before.state.next_sent(PacketBody::Disconnect { xor_salt: self.xor_salt->0 })
            }
        }
    }

    /// Whether a packet of the handshake is to be sent.
    pub open spec fn handshake_due(self) -> bool {
        self.time - self.proto_last_send > RESEND_INTERVAL
    }

    /// After the packets of the endpoint were put with those to be sent.
    pub open spec fn endpoint_drained(self) -> ClientOutcome {
        let (endpoint, sent, error) = self.endpoint.drained();
        ClientOutcome {
            state: ProtocolClientView {
                endpoint,
                out_buffer: self.out_buffer + packets::addressed(self.server_addr, sent),
                ..self
            },
            result: match error {
                Some(e) => Err(e),
                None => Ok(()),
            },
        }
    }

    /// After what the state calls for was put with the packets to be sent: a packet of the
    /// handshake, those of the endpoint or, failing those, a keep alive, or the news that the
    /// connection is over.
    pub open spec fn composed(self) -> ClientOutcome {
        let now = ProtocolClientView { proto_last_send: self.time, ..self };
        match self.state {
            ClientState::SelfInitiatedDisconnect if self.xor_salt is Some => {
                let told = self.disconnects_sent(NUM_DISCONNECTS as nat);
                if told.result is Err {
                    told
                } else {
                    ClientOutcome {
                        state: ProtocolClientView {
                            client_salt: None,
                            server_salt: None,
                            xor_salt: None,
                            ..told.state
                        },
                        result: Ok(()),
                    }
                }
            },
            ClientState::SendingConnectionRequest if self.handshake_due() => now.next_sent(
                PacketBody::ConnectionRequest {
                    client_salt: self.client_salt->0,
                    protocol_version: PROTOCOL_VERSION,
                },
            ),
            ClientState::SendingChallengeResponse if self.handshake_due() => now.next_sent(
                PacketBody::ConnectionChallengeResponse { xor_salt: self.xor_salt->0 },
            ),
            ClientState::Connected => {
                let drained = self.endpoint_drained();
                if drained.result is Ok && drained.state.out_buffer.len() == 0 && self.time
                    - self.last_send_time >= RESEND_INTERVAL {
                    drained.state.next_sent(
                        PacketBody::KeepAlive { xor_salt: self.xor_salt->0, client_index: 0 },
                    )
                } else {
                    drained
                }
            },
            _ => ClientOutcome { state: self, result: Ok(()) },
        }
    }

    /// After packet `p` was received, with `rest` behind what was read of it.
    pub open spec fn packet_received(self, p: PacketView, rest: Seq<u8>) -> ClientOutcome {
        let same = ClientOutcome { state: self, result: Ok(()) };
        match p.body {
            PacketBody::ConnectionChallenge { client_salt, server_salt }
                if self.state is SendingConnectionRequest => if self.client_salt != Some(
                client_salt,
            ) {
                ClientOutcome { state: self, result: Err(PicklebackError::InvalidPacket) }
            } else {
                ClientOutcome {
                    state: (ProtocolClientView {
                        server_salt: Some(server_salt),
                        xor_salt: Some(server_salt ^ client_salt),
                        ..self
                    }).transitioned(ClientState::SendingChallengeResponse),
                    result: Ok(()),
                }
            },
            PacketBody::ConnectionDenied { reason } if self.state is SendingConnectionRequest
                || self.state is SendingChallengeResponse => ClientOutcome {
                state: (ProtocolClientView {
                    server_salt: None,
                    xor_salt: None,
                    ..self
                }).transitioned(
                    ClientState::Disconnected(DisconnectReason::ServerDenied(reason.spec_code())),
                ),
                result: Ok(()),
            },
            PacketBody::KeepAlive { xor_salt, client_index } if self.xor_salt == Some(xor_salt)
                && self.state is SendingChallengeResponse => ClientOutcome {
                state: self.transitioned(ClientState::Connected),
                result: Ok(()),
            },
            PacketBody::Messages { xor_salt } if self.xor_salt == Some(xor_salt)
                && self.state is Connected => {
                let o = self.endpoint.packet_received(p.header, rest);
                ClientOutcome {
                    state: ProtocolClientView { endpoint: o.state, ..self },
                    result: o.result,
                }
            },
            _ => same,
        }
    }

    /// After `bytes` were received from the server.
    pub open spec fn received(self, bytes: Seq<u8>) -> ClientOutcome {
        match packets::parse_packet(bytes) {
            Err(e) => ClientOutcome { state: self, result: Err(e) },
            Ok((p, rest)) => (ProtocolClientView {
                last_receive_time: self.time,
                ..self
            }).packet_received(p, rest),
        }
    }
}

/// This can get wrapped up together with a transport, which packets are shuttled to and fro with.
pub struct ProtocolClient {
    time: Time,
    state: ClientState,
    client_salt: Option<u64>,
    server_salt: Option<u64>,
    xor_salt: Option<u64>,
    proto_last_send: Time,
    out_buffer: Vec<AddressedPacket>,
    last_receive_time: Time,
    last_send_time: Time,
    packeteer: Pickleback,
    server_addr: PeerAddr,
    pool: BufPool,
    config: PicklebackConfig,
}

impl View for ProtocolClient {
    type V = ProtocolClientView;

    closed spec fn view(&self) -> ProtocolClientView {
        ProtocolClientView {
            time: self.time,
            state: self.state,
            client_salt: self.client_salt,
            server_salt: self.server_salt,
            xor_salt: self.xor_salt,
            proto_last_send: self.proto_last_send,
            out_buffer: self.out_buffer@.map_values(|p: AddressedPacket| p@),
            last_receive_time: self.last_receive_time,
            last_send_time: self.last_send_time,
            endpoint: self.packeteer@,
            server_addr: self.server_addr,
        }
    }
}

impl ProtocolClient {
    /// The endpoint is whole, and the salts that the state needs are known.
    pub closed spec fn wf(&self) -> bool {
        &&& self.packeteer.wf()
        &&& buffer_pool::usable(self.pool@)
        &&& self.config@ == ConfigView::default_settings()
        &&& self@.wf()
    }

    /// A client that is not connected.
    pub fn new(time: Time) -> (r: Self)
        ensures
            r.wf(),
            r@ == ProtocolClientView::fresh(time),
    {
        let r = ProtocolClient {
            time,
            state: ClientState::Disconnected(DisconnectReason::Normal),
            client_salt: None,
            server_salt: None,
            xor_salt: None,
            proto_last_send: 0,
            out_buffer: Vec::new(),
            last_receive_time: 0,
            last_send_time: 0,
            packeteer: Pickleback::default(),
            server_addr: PeerAddr::V4 { v4: 0x7F00_0001, port: 6000 },
            pool: BufPool::default(),
            config: PicklebackConfig::default(),
        };
        assert(r@ =~= ProtocolClientView::fresh(time));
        r
    }

    /// Where the client stands with its server.
    pub fn state(&self) -> (r: &ClientState)
        ensures
            *r == self@.state,
    {
        &self.state
    }

    /// The endpoint that messages are exchanged with, to be changed in place.
    pub fn packeteer_mut(&mut self) -> (r: &mut Pickleback)
        requires
            old(self).wf(),
        ensures
            r.wf(),
            r@ == old(self)@.endpoint,
            final(self)@ == (ProtocolClientView { endpoint: final(r)@, ..old(self)@ }),
            final(r).wf() ==> final(self).wf(),
    {
        &mut self.packeteer
    }

    /// The address of the server.
    pub fn server_addr(&self) -> (r: PeerAddr)
        ensures
            r == self@.server_addr,
    {
        self.server_addr
    }

    /// Advances time. This can potentially result in this connection timing out.
    pub fn update(&mut self, dt: Time)
        requires
            old(self).wf(),
        ensures
            final(self).wf(),
            final(self)@ == old(self)@.updated(dt),
    {
        self.time = time::advance(self.time, dt);
        self.packeteer.update(dt);
        let disconnected = match self.state {
            ClientState::Disconnected(_) => true,
            _ => false,
        };
        if !disconnected && time::elapsed(self.time, self.last_receive_time) > TIMEOUT as i128 {
            self.state_transition(ClientState::Disconnected(DisconnectReason::TimedOut));
        }
    }

    fn state_transition(&mut self, new_state: ClientState)
        requires
            old(self).packeteer.wf(),
            buffer_pool::usable(old(self).pool@),
            old(self).config@ == ConfigView::default_settings(),
            (ProtocolClientView { state: new_state, ..old(self)@ }).wf(),
        ensures
            final(self).wf(),
            final(self)@ == old(self)@.transitioned(new_state),
    {
        self.state = new_state;
        self.proto_last_send = 0;
        self.packeteer.set_xor_salt(self.xor_salt);
    }

    /// Cleanly disconnects from the server. This may give you packets to send: remember to drain
    /// them and do the actual send.
    pub fn disconnect(&mut self)
        requires
            old(self).wf(),
        ensures
            final(self).wf(),
            final(self)@ == old(self)@.disconnecting(),
    {
        // anything waiting to be sent is discarded
        self.out_buffer.clear();
        assert(self@.out_buffer =~= Seq::empty());
        match self.state {
            ClientState::Connected | ClientState::SendingChallengeResponse => {
                self.state_transition(ClientState::SelfInitiatedDisconnect);
            },
            _ => {
                // disconnecting in this state doesn't require sending packets
                self.state_transition(ClientState::Disconnected(DisconnectReason::Normal));
            },
        }
    }

    /// Initiates a connection, with a random salt.
    pub fn connect(&mut self)
        requires
            old(self).wf(),
        ensures
            final(self).wf(),
            final(self)@.client_salt matches Some(salt) && final(self)@ == old(self)@.connecting(
                salt,
            ),
    {
        let salt = entropy::random_u64();
        self.connect_with_salt(salt);
    }

    /// Initiates a connection, with a given salt.
    pub fn connect_with_salt(&mut self, salt: u64)
        requires
            old(self).wf(),
        ensures
            final(self).wf(),
            final(self)@ == old(self)@.connecting(salt),
    {
        self.server_salt = None;
        self.xor_salt = None;
        self.client_salt = Some(salt);
        self.state_transition(ClientState::SendingConnectionRequest);
    }

    /// Writes the packet, and puts it with those to be sent to the server.
    fn send(&mut self, packet: ProtocolPacket) -> (r: Result<(), PicklebackError>)
        requires
            old(self).wf(),
            packet.header().wf(),
            !(packet@.body is Messages),
        ensures
            final(self).wf(),
            final(self)@ == old(self)@.packet_sent(packet@).state,
            r == old(self)@.packet_sent(packet@).result,
    {
        let buffer = packets::write_packet(&mut self.pool, &self.config, packet)?;
        let mut copy: Vec<u8> = Vec::with_capacity(buffer.len());
        copy.extend_from_slice(buffer.as_slice());
        assert(copy@ =~= buffer@);
        self.pool.return_buffer(buffer);
        self.out_buffer.push(AddressedPacket { address: self.server_addr, packet: copy });
        self.last_send_time = self.time;
        assert(self@ =~= old(self)@.packet_sent(packet@).state);
        Ok(())
    }

    /// Tells the server several times that the connection is over.
    fn send_disconnects(&mut self, xor_salt: u64) -> (r: Result<(), PicklebackError>)
        requires
            old(self).wf(),
            old(self)@.xor_salt == Some(xor_salt),
        ensures
            final(self).wf(),
            final(self)@ == old(self)@.disconnects_sent(NUM_DISCONNECTS as nat).state,
            r == old(self)@.disconnects_sent(NUM_DISCONNECTS as nat).result,
    {
        let mut n: usize = 0;
        while n < NUM_DISCONNECTS
            invariant
                n <= NUM_DISCONNECTS,
                self.wf(),
                old(self)@.xor_salt == Some(xor_salt),
                self@ == old(self)@.disconnects_sent(n as nat).state,
                old(self)@.disconnects_sent(n as nat).result is Ok,
            decreases NUM_DISCONNECTS - n,
        {
            proof {
                lemma_disconnects_failed(
                    old(self)@,
                    (n + 1) as nat,
                    NUM_DISCONNECTS as nat,
                );
            }
            let header = self.packeteer.next_packet_header(PacketType::Disconnect)?;
            self.send(ProtocolPacket::Disconnect(DisconnectPacket { header, xor_salt }))?;
            n = n + 1;
        }
        Ok(())
    }

    /// Puts what the state calls for with the packets to be sent.
    fn compose(&mut self) -> (r: Result<(), PicklebackError>)
        requires
            old(self).wf(),
            old(self)@.endpoint.can_compose(),
        ensures
            final(self).wf(),
            final(self)@ == old(self)@.composed().state,
            r == old(self)@.composed().result,
    {
        match self.state {
            ClientState::SelfInitiatedDisconnect => {
                if let Some(xor_salt) = self.xor_salt {
                    self.send_disconnects(xor_salt)?;
                    proof {
                        lemma_disconnects_state(old(self)@, NUM_DISCONNECTS as nat);
                    }
                    self.client_salt = None;
                    self.server_salt = None;
                    self.xor_salt = None;
                }
            },
            ClientState::SendingConnectionRequest => {
                if time::elapsed(self.time, self.proto_last_send) > RESEND_INTERVAL as i128 {
                    self.proto_last_send = self.time;
                    let header = self.packeteer.next_packet_header(
                        PacketType::ConnectionRequest,
                    )?;
                    let client_salt = self.client_salt.unwrap();
                    self.send(
                        ProtocolPacket::ConnectionRequest(
                            ConnectionRequestPacket {
                                header,
                                client_salt,
                                protocol_version: PROTOCOL_VERSION,
                            },
                        ),
                    )?;
                }
            },
            ClientState::SendingChallengeResponse => {
                if time::elapsed(self.time, self.proto_last_send) > RESEND_INTERVAL as i128 {
                    self.proto_last_send = self.time;
                    let header = self.packeteer.next_packet_header(
                        PacketType::ConnectionChallengeResponse,
                    )?;
                    let xor_salt = self.xor_salt.unwrap();
                    self.send(
                        ProtocolPacket::ConnectionChallengeResponse(
                            ConnectionChallengeResponsePacket { header, xor_salt },
                        ),
                    )?;
                }
            },
            ClientState::Connected => {
                self.drain_endpoint()?;
                // send keepalive if nothing sent in a while
                if self.out_buffer.len() == 0 && time::elapsed(self.time, self.last_send_time)
                    >= RESEND_INTERVAL as i128 {
                    let header = self.packeteer.next_packet_header(PacketType::KeepAlive)?;
                    let xor_salt = self.xor_salt.unwrap();
                    self.send(
                        ProtocolPacket::KeepAlive(
                            KeepAlivePacket { header, xor_salt, client_index: 0 },
                        ),
                    )?;
                }
            },
            ClientState::Disconnected(_) => {},
        }
        Ok(())
    }

    /// Puts the packets of the endpoint with those to be sent.
    fn drain_endpoint(&mut self) -> (r: Result<(), PicklebackError>)
        requires
            old(self).wf(),
            old(self)@.endpoint.can_compose(),
        ensures
            final(self).wf(),
            final(self)@ == old(self)@.endpoint_drained().state,
            r == old(self)@.endpoint_drained().result,
    {
        match self.packeteer.collect_packets_to_send_inefficiently() {
            Ok(sent) => {
                packets::push_addressed(&mut self.out_buffer, self.server_addr, sent);
                Ok(())
            },
            Err(e) => {
                assert(packets::addressed(self.server_addr, Seq::empty()) =~= Seq::empty());
                assert(self@.out_buffer + Seq::<AddressedView>::empty() =~= self@.out_buffer);
                Err(e)
            },
        }
    }

    /// Takes out the packets to be sent. In case the client isn't fully connected, this could be
    /// resending challenge responses etc. If it is connected, there may be packets of messages.
    pub fn drain_packets_to_send(&mut self) -> (r: Result<Vec<AddressedPacket>, PicklebackError>)
        requires
            old(self).wf(),
            old(self)@.endpoint.can_compose(),
        ensures
            final(self).wf(),
            ({
                let o = old(self)@.composed();
                match r {
                    Ok(sent) => {
                        &&& o.result is Ok
                        &&& sent@.map_values(|p: AddressedPacket| p@) == o.state.out_buffer
                        &&& final(self)@ == (ProtocolClientView {
                            out_buffer: Seq::empty(),
                            ..o.state
                        })
                    },
                    Err(e) => o.result == Err::<(), _>(e) && final(self)@ == o.state,
                }
            }),
    {
        self.compose()?;
        let mut ret: Vec<AddressedPacket> = Vec::new();
        std::mem::swap(&mut ret, &mut self.out_buffer);
        assert(self@.out_buffer =~= Seq::empty());
        Ok(ret)
    }

    /// Processes a packet received from the server.
    pub fn receive(&mut self, packet: &[u8], source: PeerAddr) -> (r: Result<(), PicklebackError>)
        requires
            old(self).wf(),
            source == old(self)@.server_addr,
        ensures
            final(self).wf(),
            final(self)@ == old(self)@.received(packet@).state,
            r == old(self)@.received(packet@).result,
    {
        let mut cur = Cursor::new(packet);
        let packet = packets::read_packet(&mut cur)?;
        self.last_receive_time = self.time;
        match packet {
            ProtocolPacket::ConnectionChallenge(p) => {
                if self.state == ClientState::SendingConnectionRequest {
                    let client_salt = self.client_salt.unwrap();
                    if client_salt != p.client_salt {
                        return Err(PicklebackError::InvalidPacket);
                    }
                    self.server_salt = Some(p.server_salt);
                    self.xor_salt = Some(p.server_salt ^ client_salt);
                    self.state_transition(ClientState::SendingChallengeResponse);
                }
            },
            ProtocolPacket::ConnectionDenied(p) => {
                if self.state == ClientState::SendingConnectionRequest || self.state
                    == ClientState::SendingChallengeResponse {
                    self.server_salt = None;
                    self.xor_salt = None;
                    self.state_transition(
                        ClientState::Disconnected(
                            DisconnectReason::ServerDenied(p.reason.code()),
                        ),
                    );
                }
            },
            ProtocolPacket::KeepAlive(p) => {
                if self.xor_salt == Some(p.xor_salt) {
                    if self.state == ClientState::SendingChallengeResponse {
                        self.state_transition(ClientState::Connected);
                    }
                }
            },
            ProtocolPacket::Messages(p) => {
                if self.state == ClientState::Connected && self.xor_salt == Some(p.xor_salt) {
                    return self.packeteer.process_incoming_packet(&p.header, &mut cur);
                }
            },
            _ => {},
        }
        Ok(())
    }
}

/// Once telling the server has failed, it is not told any more.
proof fn lemma_disconnects_failed(c: ProtocolClientView, n: nat, m: nat)
    requires
        n <= m,
    ensures
        c.disconnects_sent(n).result is Err ==> c.disconnects_sent(m) == c.disconnects_sent(n),
    decreases m,
{
    if n < m {
        lemma_disconnects_failed(c, n, (m - 1) as nat);
    }
}

/// Telling the server leaves the state alone.
proof fn lemma_disconnects_state(c: ProtocolClientView, n: nat)
    ensures
        c.disconnects_sent(n).state.state == c.state,
    decreases n,
{
    if n > 0 {
        lemma_disconnects_state(c, (n - 1) as nat);
    }
}

} // verus!
