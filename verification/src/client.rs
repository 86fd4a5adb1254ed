//! The client end of a connection.

use crate::address::PeerAddr;
use crate::config::{ConfigView, PicklebackConfig};
use crate::cursor::Cursor;
use crate::dispatcher::DispatcherView;
use crate::endpoint::EndpointView;
use crate::entropy;
use crate::error::PicklebackError;
use crate::pickleback::{self, Pickleback};
use crate::protocol::packets::{
    self, AddressedPacket, AddressedView, ConnectionChallengeResponsePacket,
    ConnectionRequestPacket, DisconnectPacket, HeaderView, KeepAlivePacket, PacketBody, PacketType,
    PacketView, ProtocolPacket,
};
use crate::protocol::{DisconnectReason, PROTOCOL_VERSION};
use crate::received_message::ReceivedMessage;
use crate::time::{self, Time};
use crate::MessageId;
use vstd::prelude::*;

verus! {

/// How long a connection lasts without anything being received.
pub const TIMEOUT: Time = 5_000_000_000;

/// How long to wait before a packet of the handshake is sent again, or a keep alive is sent.
pub const RESEND_INTERVAL: Time = 100_000_000;

/// How many packets are sent to say that the connection is over. Some may be lost.
pub const NUM_DISCONNECTS: usize = 10;

/// Where a client stands with its server.
#[derive(Debug, Clone, Copy, PartialEq, Eq, Structural)]
pub enum ClientState {
    SendingConnectionRequest,
    SendingChallengeResponse,
    Connected,
    Disconnected(DisconnectReason),
    SelfInitiatedDisconnect,
}

/// The state of a client.
#[verifier::ext_equal]
pub struct ClientView {
    pub time: Time,
    pub state: ClientState,
    pub client_salt: Option<u64>,
    pub server_salt: Option<u64>,
    pub xor_salt: Option<u64>,
    /// When a packet of the handshake was last sent.
    pub proto_last_send: Time,
    pub last_receive_time: Time,
    pub last_send_time: Time,
    pub endpoint: EndpointView,
    pub server_addr: Option<PeerAddr>,
}

/// The packets that are to be sent, and what went wrong behind them.
pub struct CollectedPackets {
    pub packets: Vec<AddressedPacket>,
    pub error: Option<PicklebackError>,
}

impl CollectedPackets {
    /// The packets as they are sent.
    pub open spec fn sent(self) -> Seq<AddressedView> {
        self.packets@.map_values(|p: AddressedPacket| p@)
    }
}

impl ClientView {
    /// A client that is not connected.
    pub open spec fn fresh(time: Time, config: ConfigView) -> Self {
        ClientView {
            time,
            state: ClientState::Disconnected(DisconnectReason::Normal),
            client_salt: None,
            server_salt: None,
            xor_salt: None,
            proto_last_send: 0,
            last_receive_time: 0,
            last_send_time: 0,
            endpoint: pickleback::fresh_endpoint(config, 0),
            server_addr: None,
        }
    }

    /// The salts that a state needs are known.
    pub open spec fn wf(self) -> bool {
        &&& self.state is SendingConnectionRequest ==> self.client_salt is Some
        &&& self.state is SendingChallengeResponse ==> self.xor_salt is Some
        &&& self.state is Connected ==> self.xor_salt is Some
    }

    /// Without anything that is left of a connection.
    pub open spec fn reset(self) -> Self {
        ClientView {
            client_salt: None,
            server_salt: None,
            xor_salt: None,
            proto_last_send: 0,
            last_receive_time: 0,
            last_send_time: 0,
            endpoint: pickleback::fresh_endpoint(self.endpoint.config, 0),
            server_addr: None,
            ..self
        }
    }

    /// In another state.
    pub open spec fn transitioned(self, state: ClientState) -> Self {
        let next = ClientView {
            state,
            proto_last_send: 0,
            endpoint: EndpointView { xor_salt: self.xor_salt, ..self.endpoint },
            ..self
        };
        if state is Disconnected {
            next.reset()
        } else {
            next
        }
    }

    /// With the clock moved on. A client that has not received anything for too long is
    /// disconnected.
    pub open spec fn updated(self, dt: Time) -> Self {
        let next = ClientView {
            time: time::advanced(self.time, dt),
            endpoint: self.endpoint.updated(dt),
            ..self
        };
        if !(self.state is Disconnected) && next.time - self.last_receive_time > TIMEOUT {
            next.transitioned(ClientState::Disconnected(DisconnectReason::TimedOut))
        } else {
            next
        }
    }

    /// On the way out. Where the server knows of the client, it has to be told.
    pub open spec fn disconnecting(self) -> Self {
        if self.state is Connected || self.state is SendingChallengeResponse {
            self.transitioned(ClientState::SelfInitiatedDisconnect)
        } else {
            self.transitioned(ClientState::Disconnected(DisconnectReason::Normal))
        }
    }

    /// On the way in, with `salt` made up for this connection. The time that a timeout is counted
    /// from, which is when anything was last received or else zero, stays as it is.
    pub open spec fn connecting(self, server: PeerAddr, salt: u64) -> Self {
        (ClientView {
            server_addr: Some(server),
            server_salt: None,
            xor_salt: None,
            client_salt: Some(salt),
            ..self
        }).transitioned(ClientState::SendingConnectionRequest)
    }

    /// After a packet with the next header was written and sent, and whether that worked.
    pub open spec fn packet_tried(self, body: PacketBody) -> (Self, bool) {
        let o = self.endpoint.next_sent(body);
        if o.result is Ok {
            (ClientView { endpoint: o.state, last_send_time: self.time, ..self }, true)
        } else {
            (ClientView { endpoint: o.state, ..self }, false)
        }
    }

    /// After a packet of the handshake was sent. If that worked, it is not sent again for a while.
    pub open spec fn handshake_tried(self, body: PacketBody) -> Self {
        let (next, ok) = self.packet_tried(body);
        if ok {
            ClientView { proto_last_send: self.time, ..next }
        } else {
            next
        }
    }

    /// After the server was told `n` times that the connection is over.
    pub open spec fn disconnects_tried(self, n: nat) -> Self
        decreases n,
    {
        if n == 0 {
            self
        } else {
            self.disconnects_tried((n - 1) as nat).packet_tried(
                PacketBody::Disconnect { xor_salt: self.xor_salt->0 },
            ).0
        }
    }

    /// Whether a packet of the handshake is to be sent.
    pub open spec fn handshake_due(self) -> bool {
        self.time - self.proto_last_send > RESEND_INTERVAL
    }

    /// After what the state calls for was sent.
    pub open spec fn handshake_sent(self) -> Self {
        match self.state {
            ClientState::SendingConnectionRequest if self.handshake_due() => self.handshake_tried(
                PacketBody::ConnectionRequest {
                    client_salt: self.client_salt->0,
                    protocol_version: PROTOCOL_VERSION,
                },
            ),
            ClientState::SendingChallengeResponse if self.handshake_due() => self.handshake_tried(
                PacketBody::ConnectionChallengeResponse { xor_salt: self.xor_salt->0 },
            ),
            _ => self,
        }
    }

    /// After the packets to be sent were collected: the state then, the packets, and what went
    /// wrong. A connected client that has nothing to send sends a keep alive from time to time.
    pub open spec fn collected(self) -> (Self, Seq<AddressedView>, Option<PicklebackError>) {
        match self.server_addr {
            None => (self, Seq::empty(), None),
            Some(server) => if self.state is SelfInitiatedDisconnect && self.xor_salt is Some {
                let told = self.disconnects_tried(NUM_DISCONNECTS as nat);
                (
                    told.transitioned(ClientState::Disconnected(DisconnectReason::Normal)),
                    packets::addressed(server, told.endpoint.outbox),
                    None,
                )
            } else {
                let ready = self.handshake_sent();
                let (endpoint, sent, error) = ready.endpoint.drained();
                let next = ClientView { endpoint, ..ready };
                if sent.len() == 0 && error is None && self.state is Connected && self.time
                    - self.last_send_time >= RESEND_INTERVAL {
                    let kept = next.packet_tried(
                        PacketBody::KeepAlive { xor_salt: self.xor_salt->0, client_index: 0 },
                    ).0;
                    let (endpoint, sent, error) = kept.endpoint.drained();
                    (ClientView { endpoint, ..kept }, packets::addressed(server, sent), error)
                } else {
                    (next, packets::addressed(server, sent), error)
                }
            },
        }
    }

    /// After the endpoint took a packet.
    pub open spec fn processed(self, header: HeaderView, rest: Seq<u8>) -> (Self, Result<
        (),
        PicklebackError,
    >) {
        let o = self.endpoint.packet_received(header, rest);
        (ClientView { endpoint: o.state, ..self }, o.result)
    }

    /// After the endpoint took a packet that, if nothing is wrong with it, leads to another state.
    pub open spec fn processed_to(
        self,
        header: HeaderView,
        rest: Seq<u8>,
        state: ClientState,
    ) -> (Self, Result<(), PicklebackError>) {
        let (next, result) = self.processed(header, rest);
        if result is Ok {
            (next.transitioned(state), result)
        } else {
            (next, result)
        }
    }

    /// After packet `p` was received, with `rest` behind what was read of it.
    pub open spec fn packet_received(self, p: PacketView, rest: Seq<u8>) -> (Self, Result<
        (),
        PicklebackError,
    >) {
        match p.body {
            PacketBody::ConnectionChallenge { client_salt, server_salt }
                if self.state is SendingConnectionRequest => if self.client_salt != Some(
                client_salt,
            ) {
                (self, Err(PicklebackError::InvalidPacket))
            } else {
                (ClientView {
                    server_salt: Some(server_salt),
                    xor_salt: Some(server_salt ^ client_salt),
                    ..self
                }).processed_to(p.header, rest, ClientState::SendingChallengeResponse)
            },
            PacketBody::ConnectionDenied { reason } if self.state is SendingConnectionRequest
                || self.state is SendingChallengeResponse => (
                (ClientView { server_salt: None, xor_salt: None, ..self }).transitioned(
                    ClientState::Disconnected(reason),
                ),
                Ok(()),
            ),
            PacketBody::KeepAlive { xor_salt, client_index } if self.xor_salt == Some(xor_salt)
                && self.state is Connected => self.processed(p.header, rest),
            PacketBody::KeepAlive { xor_salt, client_index } if self.xor_salt == Some(xor_salt)
                && self.state is SendingChallengeResponse => self.processed_to(
                p.header,
                rest,
                ClientState::Connected,
            ),
            PacketBody::Messages { xor_salt } if self.xor_salt == Some(xor_salt)
                && self.state is Connected => self.processed(p.header, rest),
            _ => (self, Ok(())),
        }
    }

    /// After `bytes` were received from `source`. A client that knows of no server ignores
    /// everything, and one that does takes packets from nowhere else.
    pub open spec fn received(self, bytes: Seq<u8>, source: PeerAddr) -> (Self, Result<
        (),
        PicklebackError,
    >) {
        match self.server_addr {
            None => (self, Ok(())),
            Some(server) => if server != source {
                (self, Err(PicklebackError::SocketAddrMismatch))
            } else {
                match packets::parse_packet(bytes) {
                    Err(e) => (self, Err(e)),
                    Ok((p, rest)) => (ClientView {
                        last_receive_time: self.time,
                        ..self
                    }).packet_received(p, rest),
                }
            },
        }
    }
}

/// The client end of a connection.
///
/// Connects to a `PicklebackServer` instance.
pub struct PicklebackClient {
    time: Time,
    state: ClientState,
    client_salt: Option<u64>,
    server_salt: Option<u64>,
    xor_salt: Option<u64>,
    proto_last_send: Time,
    last_receive_time: Time,
    last_send_time: Time,
    pickleback: Pickleback,
    server_addr: Option<PeerAddr>,
}

impl View for PicklebackClient {
    type V = ClientView;

    closed spec fn view(&self) -> ClientView {
        ClientView {
            time: self.time,
            state: self.state,
            client_salt: self.client_salt,
            server_salt: self.server_salt,
            xor_salt: self.xor_salt,
            proto_last_send: self.proto_last_send,
            last_receive_time: self.last_receive_time,
            last_send_time: self.last_send_time,
            endpoint: self.pickleback@,
            server_addr: self.server_addr,
        }
    }
}

impl PicklebackClient {
    /// The endpoint is whole, and the salts that the state needs are known.
    pub closed spec fn wf(&self) -> bool {
        self.pickleback.wf() && self@.wf()
    }

    /// What a client that is whole can be relied on for.
    pub proof fn lemma_wf(&self)
        requires
            self.wf(),
        ensures
            self@.wf(),
            self@.endpoint.wf(),
            self@.endpoint.config.valid(),
    {
        self.pickleback.lemma_wf();
    }

    /// A client that is not connected.
    pub fn new(time: Time, config: &PicklebackConfig) -> (r: Self)
        requires
            config@.valid(),
        ensures
            r.wf(),
            r@ == ClientView::fresh(time, config@),
    {
        PicklebackClient {
            time,
            state: ClientState::Disconnected(DisconnectReason::Normal),
            client_salt: None,
            server_salt: None,
            xor_salt: None,
            proto_last_send: 0,
            last_receive_time: 0,
            last_send_time: 0,
            pickleback: Pickleback::new(config.clone(), 0),
            server_addr: None,
        }
    }

    /// Where the client stands with its server.
    pub fn state(&self) -> (r: &ClientState)
        ensures
            *r == self@.state,
    {
        &self.state
    }

    /// The current time, as advanced by calling `update()`.
    pub fn time(&self) -> (r: Time)
        ensures
            r == self@.time,
    {
        self.time
    }

    /// The endpoint that messages are exchanged with.
    pub fn pickleback(&self) -> (r: &Pickleback)
        requires
            self.wf(),
        ensures
            r.wf(),
            r@ == self@.endpoint,
    {
        &self.pickleback
    }

    /// The endpoint that messages are exchanged with, to be changed in place.
    pub fn pickleback_mut(&mut self) -> (r: &mut Pickleback)
        requires
            old(self).wf(),
        ensures
            r.wf(),
            r@ == old(self)@.endpoint,
            final(self)@ == (ClientView { endpoint: final(r)@, ..old(self)@ }),
            final(r).wf() ==> final(self).wf(),
    {
        &mut self.pickleback
    }

    /// Advances time. This can potentially result in this connection timing out.
    pub fn update(&mut self, dt: Time)
        requires
            old(self).wf(),
        ensures
            final(self).wf(),
            final(self)@ == old(self)@.updated(dt),
    {
        self.time = time::advance(self.time, dt);
        self.pickleback.update(dt);
        let disconnected = match self.state {
            ClientState::Disconnected(_) => true,
            _ => false,
        };
        if !disconnected && time::elapsed(self.time, self.last_receive_time) > TIMEOUT as i128 {
            self.state_transition(ClientState::Disconnected(DisconnectReason::TimedOut));
        }
    }

    fn state_transition(&mut self, new_state: ClientState)
        requires
            old(self).pickleback.wf(),
            (ClientView { state: new_state, ..old(self)@ }).wf(),
        ensures
            final(self).wf(),
            final(self)@ == old(self)@.transitioned(new_state),
    {
        self.state = new_state;
        self.proto_last_send = 0;
        self.pickleback.set_xor_salt(self.xor_salt);
        match new_state {
            ClientState::Disconnected(_) => {
                self.reset();
            },
            _ => {},
        }
    }

    fn reset(&mut self)
        requires
            old(self).pickleback.wf(),
            old(self)@.state is Disconnected,
        ensures
            final(self).wf(),
            final(self)@ == old(self)@.reset(),
    {
        self.client_salt = None;
        self.server_salt = None;
        self.xor_salt = None;
        self.proto_last_send = 0;
        self.last_receive_time = 0;
        self.last_send_time = 0;
        self.server_addr = None;
        proof {
            self.pickleback.lemma_wf();
        }
        let config = self.pickleback.config().clone();
        self.pickleback = Pickleback::new(config, 0);
    }

    /// Cleanly disconnects from the server. This may give you packets to send: remember to collect
    /// them and do the actual send.
    pub fn disconnect(&mut self)
        requires
            old(self).wf(),
        ensures
            final(self).wf(),
            final(self)@ == old(self)@.disconnecting(),
    {
        match self.state {
            ClientState::Connected | ClientState::SendingChallengeResponse => {
                self.state_transition(ClientState::SelfInitiatedDisconnect);
            },
            _ => {
                // disconnecting in this state doesn't require sending packets
                self.state_transition(ClientState::Disconnected(DisconnectReason::Normal));
            },
        }
    }

    /// Initiates a connection to `server`, with a random salt.
    pub fn connect(&mut self, server: PeerAddr)
        requires
            old(self).wf(),
        ensures
            final(self).wf(),
            final(self)@.client_salt matches Some(salt) && final(self)@ == old(self)@.connecting(
                server,
                salt,
            ),
    {
        let salt = entropy::random_u64();
        self.connect_with_salt(server, salt);
    }

    /// Initiates a connection to `server`, with a given salt.
    pub fn connect_with_salt(&mut self, server: PeerAddr, salt: u64)
        requires
            old(self).wf(),
        ensures
            final(self).wf(),
            final(self)@ == old(self)@.connecting(server, salt),
    {
        self.server_addr = Some(server);
        self.server_salt = None;
        self.xor_salt = None;
        self.client_salt = Some(salt);
        self.state_transition(ClientState::SendingConnectionRequest);
    }

    /// Writes a packet and has it sent.
    fn send(&mut self, packet: ProtocolPacket) -> (r: Result<(), PicklebackError>)
        requires
            old(self).wf(),
            packet.header().wf(),
            !(packet@.body is Messages),
        ensures
            final(self).wf(),
            ({
                let o = old(self)@.endpoint.protocol_sent(packet@);
                &&& r == o.result
                &&& final(self)@ == (ClientView {
                    endpoint: o.state,
                    last_send_time: if r is Ok {
                        old(self)@.time
                    } else {
                        old(self)@.last_send_time
                    },
                    ..old(self)@
                })
            }),
    {
        self.pickleback.send_packet(packet)?;
        self.last_send_time = self.time;
        Ok(())
    }

    /// Tells the server that the connection is over.
    fn send_disconnect(&mut self, xor_salt: u64)
        requires
            old(self).wf(),
        ensures
            final(self).wf(),
            final(self)@ == old(self)@.packet_tried(PacketBody::Disconnect { xor_salt }).0,
    {
        if let Ok(header) = self.pickleback.next_packet_header(PacketType::Disconnect) {
            let packet = ProtocolPacket::Disconnect(DisconnectPacket { header, xor_salt });
            // disconnecting, so ignore failures
            let _ = self.send(packet);
        }
    }

    /// Asks the server for a connection.
    fn send_connection_request(&mut self, client_salt: u64)
        requires
            old(self).wf(),
        ensures
            final(self).wf(),
            final(self)@ == old(self)@.handshake_tried(
                PacketBody::ConnectionRequest { client_salt, protocol_version: PROTOCOL_VERSION },
            ),
    {
        if let Ok(header) = self.pickleback.next_packet_header(PacketType::ConnectionRequest) {
            let packet = ProtocolPacket::ConnectionRequest(
                ConnectionRequestPacket {
                    header,
                    client_salt,
                    protocol_version: PROTOCOL_VERSION,
                },
            );
            if self.send(packet).is_ok() {
                self.proto_last_send = self.time;
            }
        }
    }

    /// Answers the challenge of the server.
    fn send_challenge_response(&mut self, xor_salt: u64)
        requires
            old(self).wf(),
        ensures
            final(self).wf(),
            final(self)@ == old(self)@.handshake_tried(
                PacketBody::ConnectionChallengeResponse { xor_salt },
            ),
    {
        if let Ok(header) = self.pickleback.next_packet_header(
            PacketType::ConnectionChallengeResponse,
        ) {
            let packet = ProtocolPacket::ConnectionChallengeResponse(
                ConnectionChallengeResponsePacket { header, xor_salt },
            );
            if self.send(packet).is_ok() {
                self.proto_last_send = self.time;
            }
        }
    }

    /// Sends a keep alive. This may not be possible due to backpressure, but then there's probably
    /// no hope for this connection anyway.
    fn send_keep_alive(&mut self, xor_salt: u64)
        requires
            old(self).wf(),
        ensures
            final(self).wf(),
            final(self)@ == old(self)@.packet_tried(
                PacketBody::KeepAlive { xor_salt, client_index: 0 },
            ).0,
    {
        if let Ok(header) = self.pickleback.next_packet_header(PacketType::KeepAlive) {
            let packet = ProtocolPacket::KeepAlive(
                KeepAlivePacket { header, xor_salt, client_index: 0 },
            );
            let _ = self.send(packet);
        }
    }

    /// Whether the packets to be sent can be collected: the salt that goes into packets of messages
    /// is known, or there are no messages to send.
    pub fn can_compose(&self) -> (r: bool)
        requires
            self.wf(),
        ensures
            r == self@.endpoint.can_compose(),
    {
        self.pickleback.can_compose()
    }

    /// Collects every packet that is ready to be sent.
    ///
    /// In case the client isn't fully connected, this could be resending challenge responses etc.
    /// If it is connected, there may be packets of messages, or else a keep alive.
    pub fn collect_packets_to_send(&mut self) -> (r: CollectedPackets)
        requires
            old(self).wf(),
            old(self)@.endpoint.can_compose(),
        ensures
            final(self).wf(),
            (final(self)@, r.sent(), r.error) == old(self)@.collected(),
    {
        let mut collected: Vec<AddressedPacket> = Vec::new();
        let ghost view = |p: AddressedPacket| p@;
        assert(collected@.map_values(view) =~= Seq::empty());
        let server_addr = match self.server_addr {
            Some(addr) => addr,
            None => {
                return CollectedPackets { packets: collected, error: None };
            },
        };
        let mut keepalive_needed = false;
        match self.state {
            ClientState::SelfInitiatedDisconnect => {
                if let Some(xor_salt) = self.xor_salt {
                    self.send_disconnects(xor_salt);
                    let sent = self.pickleback.collect_outbox();
                    self.state_transition(ClientState::Disconnected(DisconnectReason::Normal));
                    packets::push_addressed(&mut collected, server_addr, sent);
                    proof {
                        let told = old(self)@.disconnects_tried(NUM_DISCONNECTS as nat);
                        assert(self@ =~= told.transitioned(
                            ClientState::Disconnected(DisconnectReason::Normal),
                        ));
                        assert(collected@.map_values(view) =~= packets::addressed(
                            server_addr,
                            told.endpoint.outbox,
                        ));
                    }
                    return CollectedPackets { packets: collected, error: None };
                }
            },
            ClientState::SendingConnectionRequest => {
                if time::elapsed(self.time, self.proto_last_send) > RESEND_INTERVAL as i128 {
                    let client_salt = self.client_salt.unwrap();
                    self.send_connection_request(client_salt);
                }
            },
            ClientState::SendingChallengeResponse => {
                if time::elapsed(self.time, self.proto_last_send) > RESEND_INTERVAL as i128 {
                    let xor_salt = self.xor_salt.unwrap();
                    self.send_challenge_response(xor_salt);
                }
            },
            ClientState::Connected => {
                keepalive_needed = time::elapsed(self.time, self.last_send_time)
                    >= RESEND_INTERVAL as i128;
            },
            ClientState::Disconnected(_) => {},
        }
        assert(self@ == old(self)@.handshake_sent());
        let ghost ready = self@;
        proof {
            self.pickleback.lemma_wf();
            ready.endpoint.lemma_composed();
        }
        let sent = match self.pickleback.collect_packets_to_send_inefficiently() {
            Ok(sent) => sent,
            Err(e) => {
                assert(packets::addressed(server_addr, Seq::empty()) =~= Seq::empty());
                return CollectedPackets { packets: collected, error: Some(e) };
            },
        };
        let ghost sent_bytes = sent@.map_values(|v: Vec<u8>| v@);
        if sent.len() == 0 && keepalive_needed {
            assert(self@ =~= (ClientView { endpoint: ready.endpoint.drained().0, ..ready }));
            let xor_salt = self.xor_salt.unwrap();
            self.send_keep_alive(xor_salt);
            proof {
                self.pickleback.lemma_wf();
            }
            let ghost kept = self@;
            match self.pickleback.collect_packets_to_send_inefficiently() {
                Ok(sent) => {
                    packets::push_addressed(&mut collected, server_addr, sent);
                    assert(collected@.map_values(view) =~= packets::addressed(
                        server_addr,
                        kept.endpoint.drained().1,
                    ));
                },
                Err(e) => {
                    assert(packets::addressed(server_addr, Seq::empty()) =~= Seq::empty());
                    return CollectedPackets { packets: collected, error: Some(e) };
                },
            }
        } else {
            packets::push_addressed(&mut collected, server_addr, sent);
            assert(collected@.map_values(view) =~= packets::addressed(server_addr, sent_bytes));
        }
        CollectedPackets { packets: collected, error: None }
    }

    /// Tells the server several times that the connection is over.
    fn send_disconnects(&mut self, xor_salt: u64)
        requires
            old(self).wf(),
            old(self)@.xor_salt == Some(xor_salt),
        ensures
            final(self).wf(),
            final(self)@ == old(self)@.disconnects_tried(NUM_DISCONNECTS as nat),
    {
        let mut n: usize = 0;
        while n < NUM_DISCONNECTS
            invariant
                n <= NUM_DISCONNECTS,
                self.wf(),
                old(self)@.xor_salt == Some(xor_salt),
                self@ == old(self)@.disconnects_tried(n as nat),
            decreases NUM_DISCONNECTS - n,
        {
            self.send_disconnect(xor_salt);
            n = n + 1;
        }
    }

    /// Processes a received packet.
    ///
    /// # Errors
    /// * `SocketAddrMismatch` if the packet is from a source other than the server connected to.
    /// * `InvalidPacket` if the packet is malformed.
    pub fn receive(&mut self, packet: &[u8], source: PeerAddr) -> (r: Result<(), PicklebackError>)
        requires
            old(self).wf(),
        ensures
            final(self).wf(),
            (final(self)@, r) == old(self)@.received(packet@, source),
    {
        let server_addr = match self.server_addr {
            Some(addr) => addr,
            None => {
                return Ok(());
            },
        };
        if server_addr != source {
            return Err(PicklebackError::SocketAddrMismatch);
        }
        let mut cur = Cursor::new(packet);
        let packet = packets::read_packet(&mut cur)?;
        self.last_receive_time = self.time;
        let ghost start = self@;
        match packet {
            ProtocolPacket::ConnectionChallenge(p) => {
                if self.state == ClientState::SendingConnectionRequest {
                    let client_salt = self.client_salt.unwrap();
                    if client_salt != p.client_salt {
                        return Err(PicklebackError::InvalidPacket);
                    }
                    self.server_salt = Some(p.server_salt);
                    self.xor_salt = Some(p.server_salt ^ client_salt);
                    self.pickleback.process_incoming_packet(&p.header, &mut cur)?;
                    self.state_transition(ClientState::SendingChallengeResponse);
                }
            },
            ProtocolPacket::ConnectionDenied(p) => {
                if self.state == ClientState::SendingConnectionRequest || self.state
                    == ClientState::SendingChallengeResponse {
                    self.server_salt = None;
                    self.xor_salt = None;
                    self.state_transition(ClientState::Disconnected(p.reason));
                }
            },
            ProtocolPacket::KeepAlive(p) => {
                if self.state == ClientState::Connected || self.state
                    == ClientState::SendingChallengeResponse {
                    if self.xor_salt == Some(p.xor_salt) {
                        self.pickleback.process_incoming_packet(&p.header, &mut cur)?;
                        if self.state == ClientState::SendingChallengeResponse {
                            self.state_transition(ClientState::Connected);
                        }
                    }
                }
            },
            ProtocolPacket::Messages(p) => {
                if self.state == ClientState::Connected {
                    if self.xor_salt == Some(p.xor_salt) {
                        // this will consume the remaining cursor and parse out the messages
                        self.pickleback.process_incoming_packet(&p.header, &mut cur)?;
                    }
                }
            },
            _ => {},
        }
        Ok(())
    }

    /// Enqueues a message to be sent in the next available packet, via a channel.
    ///
    /// # Errors
    /// See `Pickleback::send_message`.
    pub fn send_message(&mut self, channel: u8, message_payload: &[u8]) -> (r: Result<
        MessageId,
        PicklebackError,
    >)
        requires
            old(self).wf(),
        ensures
            final(self).wf(),
            ({
                let (endpoint, result) = old(self)@.endpoint.message_sent(
                    channel,
                    message_payload@,
                );
                &&& r == result
                &&& final(self)@ == (ClientView { endpoint, ..old(self)@ })
            }),
    {
        self.pickleback.send_message(channel, message_payload)
    }

    /// Takes out the messages received on a channel.
    pub fn drain_received_messages(&mut self, channel: u8) -> (r: Vec<ReceivedMessage>)
        requires
            old(self).wf(),
        ensures
            final(self).wf(),
            forall|i: int| 0 <= i < r@.len() ==> (#[trigger] r@[i]).wf(),
            r@.map_values(|m: ReceivedMessage| m@)
                == old(self)@.endpoint.dispatcher.messages[channel],
            final(self)@ == (ClientView {
                endpoint: EndpointView {
                    dispatcher: DispatcherView {
                        messages: old(self)@.endpoint.dispatcher.messages.insert(
                            channel,
                            Seq::empty(),
                        ),
                        ..old(self)@.endpoint.dispatcher
                    },
                    ..old(self)@.endpoint
                },
                ..old(self)@
            }),
    {
        self.pickleback.drain_received_messages(channel)
    }

    /// Takes out the ids of the messages acked on a channel.
    pub fn drain_message_acks(&mut self, channel: u8) -> (r: Vec<MessageId>)
        requires
            old(self).wf(),
        ensures
            final(self).wf(),
            r@ == old(self)@.endpoint.dispatcher.acks[channel],
            final(self)@ == (ClientView {
                endpoint: EndpointView {
                    dispatcher: DispatcherView {
                        acks: old(self)@.endpoint.dispatcher.acks.insert(channel, Seq::empty()),
                        ..old(self)@.endpoint.dispatcher
                    },
                    ..old(self)@.endpoint
                },
                ..old(self)@
            }),
    {
        self.pickleback.drain_message_acks(channel)
    }
}

} // verus!
