use pickleback::address::LOCALHOST;
use pickleback::buffer_pool::BufPool;
use pickleback::client::{ClientState, PicklebackClient, NUM_DISCONNECTS};
use pickleback::config::PicklebackConfig;
use pickleback::cursor::Cursor;
use pickleback::error::PicklebackError;
use pickleback::prelude::PeerAddr;
use pickleback::protocol::client::{
    ClientState as LayerState, DisconnectReason as LayerReason, ProtocolClient,
};
use pickleback::protocol::packets::{
    read_packet, write_packet, AddressedPacket, ConnectionChallengeResponsePacket,
    ConnectionDeniedPacket, ConnectionRequestPacket, PacketType, ProtocolPacket,
    ProtocolPacketHeader,
};
use pickleback::protocol::server::ProtocolServer;
use pickleback::protocol::{DisconnectReason, PROTOCOL_VERSION};
use pickleback::server::PicklebackServer;
use pickleback::testing::{JitterPipeConfig, ProtocolTestHarness};
use pickleback::time::SECOND;
use pickleback::PacketId;

const ADDR: PeerAddr = PeerAddr::V4 { v4: LOCALHOST, port: 6000 };
const OTHER: PeerAddr = PeerAddr::V4 { v4: LOCALHOST, port: 6001 };

fn bytes_of(packet: ProtocolPacket) -> Vec<u8> {
    let mut pool = BufPool::empty();
    write_packet(&mut pool, &PicklebackConfig::default(), packet).unwrap().as_slice().to_vec()
}

fn parse(bytes: &[u8]) -> ProtocolPacket {
    read_packet(&mut Cursor::new(bytes)).unwrap()
}

fn header(packet_type: PacketType) -> ProtocolPacketHeader {
    ProtocolPacketHeader::new_no_acks(PacketId(1), packet_type).unwrap()
}

fn only(mut packets: Vec<AddressedPacket>) -> Vec<u8> {
    assert_eq!(packets.len(), 1);
    packets.pop().unwrap().packet
}

#[test]
fn salts_agree_after_the_handshake() {
    let config = PicklebackConfig::default();
    let mut server = PicklebackServer::new(0, &config);
    let mut client = PicklebackClient::new(0, &config);
    client.connect_with_salt(ADDR, 0xF0F0);
    assert_eq!(client.state(), &ClientState::SendingConnectionRequest);

    client.update(SECOND);
    let request = only(client.collect_packets_to_send().packets);
    // type, sequence number, two salts and the padding
    assert_eq!(request.len(), 1 + 2 + 8 + 8 + 500);
    match parse(&request) {
        ProtocolPacket::ConnectionRequest(p) => {
            assert_eq!(p.client_salt, 0xF0F0);
            assert_eq!(p.protocol_version, PROTOCOL_VERSION);
        }
        p => panic!("{p:?}"),
    }
    server.receive_with_salt(&request, ADDR, 0x0FF0).unwrap();

    server.update(SECOND);
    let challenge = only(server.collect_packets_to_send().packets);
    match parse(&challenge) {
        ProtocolPacket::ConnectionChallenge(p) => {
            assert_eq!(p.client_salt, 0xF0F0);
            assert_eq!(p.server_salt, 0x0FF0);
        }
        p => panic!("{p:?}"),
    }
    client.receive(&challenge, ADDR).unwrap();
    assert_eq!(client.state(), &ClientState::SendingChallengeResponse);

    client.update(SECOND / 2);
    let sent = client.collect_packets_to_send().packets;
    let response = sent[0].packet.clone();
    match parse(&response) {
        ProtocolPacket::ConnectionChallengeResponse(p) => assert_eq!(p.xor_salt, 0xFF00),
        p => panic!("{p:?}"),
    }
    // the challenge is acked too
    assert_eq!(sent.len(), 2);
    match parse(&sent[1].packet) {
        ProtocolPacket::Messages(p) => {
            assert_eq!(p.xor_salt, 0xFF00);
            assert_eq!(p.header.ack_id(), Some(PacketId(1)));
        }
        p => panic!("{p:?}"),
    }
    server.receive_with_salt(&response, ADDR, 1).unwrap();
    assert_eq!(server.connected_clients_mut().len(), 1);

    let keep_alive = only(server.collect_packets_to_send().packets);
    match parse(&keep_alive) {
        ProtocolPacket::KeepAlive(p) => assert_eq!(p.xor_salt, 0xFF00),
        p => panic!("{p:?}"),
    }
    client.receive(&keep_alive, ADDR).unwrap();
    assert_eq!(client.state(), &ClientState::Connected);
}

#[test]
fn asking_again_changes_nothing() {
    let config = PicklebackConfig::default();
    let mut server = PicklebackServer::new(0, &config);
    let request = bytes_of(ProtocolPacket::ConnectionRequest(ConnectionRequestPacket {
        header: header(PacketType::ConnectionRequest),
        client_salt: 7,
        protocol_version: PROTOCOL_VERSION,
    }));
    server.receive_with_salt(&request, ADDR, 1).unwrap();
    server.receive_with_salt(&request, ADDR, 2).unwrap();
    server.update(SECOND);
    let challenge = only(server.collect_packets_to_send().packets);
    match parse(&challenge) {
        ProtocolPacket::ConnectionChallenge(p) => assert_eq!(p.server_salt, 1),
        p => panic!("{p:?}"),
    }
}

#[test]
fn another_version_is_denied() {
    let config = PicklebackConfig::default();
    let mut server = PicklebackServer::new(0, &config);
    let request = bytes_of(ProtocolPacket::ConnectionRequest(ConnectionRequestPacket {
        header: header(PacketType::ConnectionRequest),
        client_salt: 7,
        protocol_version: PROTOCOL_VERSION + 1,
    }));
    server.receive(&request, ADDR).unwrap();
    let sent = server.collect_packets_to_send().packets;
    assert_eq!(sent[0].address, ADDR);
    let denial = only(sent);
    match parse(&denial) {
        ProtocolPacket::ConnectionDenied(p) => {
            assert_eq!(p.reason, DisconnectReason::ProtocolMismatch)
        }
        p => panic!("{p:?}"),
    }

    let mut client = PicklebackClient::new(0, &config);
    client.connect(ADDR);
    client.receive(&denial, ADDR).unwrap();
    assert_eq!(
        client.state(),
        &ClientState::Disconnected(DisconnectReason::ProtocolMismatch)
    );
}

#[test]
fn an_answer_out_of_nowhere_is_denied() {
    let config = PicklebackConfig::default();
    let mut server = PicklebackServer::new(0, &config);
    let response = bytes_of(ProtocolPacket::ConnectionChallengeResponse(
        ConnectionChallengeResponsePacket {
            header: header(PacketType::ConnectionChallengeResponse),
            xor_salt: 99,
        },
    ));
    server.receive(&response, ADDR).unwrap();
    assert!(server.connected_clients_mut().is_empty());
    match parse(&only(server.collect_packets_to_send().packets)) {
        ProtocolPacket::ConnectionDenied(p) => {
            assert_eq!(p.reason, DisconnectReason::HandshakeTimeout)
        }
        p => panic!("{p:?}"),
    }
}

#[test]
fn packets_from_elsewhere_are_refused() {
    let config = PicklebackConfig::default();
    let mut client = PicklebackClient::new(0, &config);
    let denial = bytes_of(ProtocolPacket::ConnectionDenied(ConnectionDeniedPacket {
        header: header(PacketType::ConnectionDenied),
        reason: DisconnectReason::ServerFull,
    }));
    // without a server there is nothing to take packets from
    assert_eq!(client.receive(&denial, OTHER), Ok(()));
    assert_eq!(client.state(), &ClientState::Disconnected(DisconnectReason::Normal));
    client.connect(ADDR);
    assert_eq!(client.receive(&denial, OTHER), Err(PicklebackError::SocketAddrMismatch));
    assert_eq!(client.state(), &ClientState::SendingConnectionRequest);
    assert_eq!(client.receive(&denial, ADDR), Ok(()));
    assert_eq!(client.state(), &ClientState::Disconnected(DisconnectReason::ServerFull));
}

fn connected_harness() -> ProtocolTestHarness {
    let mut harness = ProtocolTestHarness::new(JitterPipeConfig::disabled());
    for _ in 0..6 {
        harness.advance(SECOND / 10).unwrap();
    }
    assert_eq!(harness.client.state(), &ClientState::Connected);
    assert_eq!(harness.server.connected_clients_mut().len(), 1);
    harness
}

#[test]
fn disconnecting_tells_the_server() {
    let mut harness = connected_harness();
    harness.client.disconnect();
    assert_eq!(harness.client.state(), &ClientState::SelfInitiatedDisconnect);
    let sent = harness.client.collect_packets_to_send().packets;
    assert_eq!(sent.len(), NUM_DISCONNECTS);
    assert_eq!(harness.client.state(), &ClientState::Disconnected(DisconnectReason::Normal));
    harness.server.receive(&sent[9].packet, sent[9].address).unwrap();
    assert!(harness.server.connected_clients_mut().is_empty());
}

#[test]
fn silence_ends_a_connection() {
    let mut harness = connected_harness();
    harness.client.update(4 * SECOND);
    assert_eq!(harness.client.state(), &ClientState::Connected);
    harness.client.update(2 * SECOND);
    assert_eq!(harness.client.state(), &ClientState::Disconnected(DisconnectReason::TimedOut));
    harness.server.update(4 * SECOND);
    assert_eq!(harness.server.connected_clients_mut().len(), 1);
    harness.server.update(2 * SECOND);
    assert!(harness.server.connected_clients_mut().is_empty());
}

#[test]
fn every_packet_is_counted_once_as_sent() {
    let mut harness = ProtocolTestHarness::new(JitterPipeConfig::disabled());
    // the request goes out once the clock has moved on far enough
    let stats = harness.advance(SECOND).unwrap();
    assert_eq!((stats.server_sent, stats.client_received), (1, 0));
    assert_eq!((stats.client_sent, stats.server_received), (0, 1));
    // challenge, answer, and a packet for the acks
    let stats = harness.advance(SECOND).unwrap();
    assert_eq!((stats.server_sent, stats.client_received), (4, 1));
    assert_eq!(stats.server_received, 3);
}

#[test]
fn lost_packets_are_sent_again() {
    let mut harness = ProtocolTestHarness::new(JitterPipeConfig::disabled());
    harness.advance(SECOND).unwrap();
    // the challenge is lost
    harness.advance_with_server_outbound_drops(SECOND, vec![0]).unwrap();
    assert_eq!(harness.client.state(), &ClientState::SendingConnectionRequest);
    for _ in 0..3 {
        harness.advance(SECOND / 5).unwrap();
    }
    assert_eq!(harness.client.state(), &ClientState::Connected);
}

#[test]
fn handshake_without_tracking() {
    let mut server = ProtocolServer::new(0, BufPool::empty());
    let mut client = ProtocolClient::new(0);
    client.connect_with_salt(5);
    assert_eq!(client.server_addr(), ADDR);
    assert_eq!(client.state(), &LayerState::SendingConnectionRequest);
    client.update(SECOND);
    for p in client.drain_packets_to_send().unwrap() {
        assert_eq!(p.address, ADDR);
        server.receive_with_salt(&p.packet, OTHER, 6).unwrap();
    }
    server.update(SECOND).unwrap();
    let sent = server.drain_packets_to_send();
    assert_eq!(sent.len(), 1);
    assert_eq!(sent[0].address, OTHER);
    client.receive(&sent[0].packet, ADDR).unwrap();
    assert_eq!(client.state(), &LayerState::SendingChallengeResponse);
    client.update(SECOND);
    for p in client.drain_packets_to_send().unwrap() {
        server.receive(&p.packet, OTHER).unwrap();
    }
    // nobody is told twice
    server.update(SECOND).unwrap();
    assert!(server.drain_packets_to_send().is_empty());
}

#[test]
fn untracked_server_denies_another_version() {
    let mut server = ProtocolServer::new(0, BufPool::full_packets_only());
    let request = bytes_of(ProtocolPacket::ConnectionRequest(ConnectionRequestPacket {
        header: header(PacketType::ConnectionRequest),
        client_salt: 7,
        protocol_version: 0,
    }));
    server.receive(&request, ADDR).unwrap();
    let denial = only(server.drain_packets_to_send());
    match parse(&denial) {
        ProtocolPacket::ConnectionDenied(p) => assert_eq!(p.reason, DisconnectReason::Normal),
        p => panic!("{p:?}"),
    }
    let mut client = ProtocolClient::new(0);
    client.connect();
    client.receive(&denial, ADDR).unwrap();
    assert_eq!(client.state(), &LayerState::Disconnected(LayerReason::ServerDenied(0)));
}

#[test]
fn a_timeout_is_counted_from_zero_until_something_is_received() {
    let config = PicklebackConfig::default();
    let mut client = PicklebackClient::new(SECOND, &config);
    client.connect_with_salt(ADDR, 1);
    client.update(4 * SECOND);
    assert_eq!(client.state(), &ClientState::SendingConnectionRequest);
    client.update(SECOND / 1000);
    assert_eq!(client.state(), &ClientState::Disconnected(DisconnectReason::TimedOut));

    let mut client = PicklebackClient::new(10 * SECOND, &config);
    client.connect_with_salt(ADDR, 1);
    assert_eq!(client.state(), &ClientState::SendingConnectionRequest);
    assert_eq!(client.collect_packets_to_send().packets.len(), 1);
    client.update(SECOND / 1000);
    assert_eq!(client.state(), &ClientState::Disconnected(DisconnectReason::TimedOut));
}

#[test]
fn keep_alives_are_sent_when_nothing_else_was() {
    let config = PicklebackConfig::default();
    let mut server = PicklebackServer::new(0, &config);
    let request = bytes_of(ProtocolPacket::ConnectionRequest(ConnectionRequestPacket {
        header: header(PacketType::ConnectionRequest),
        client_salt: 7,
        protocol_version: PROTOCOL_VERSION,
    }));
    server.receive_with_salt(&request, ADDR, 1).unwrap();
    let response = bytes_of(ProtocolPacket::ConnectionChallengeResponse(
        ConnectionChallengeResponsePacket {
            header: header(PacketType::ConnectionChallengeResponse),
            xor_salt: 6,
        },
    ));
    server.receive_with_salt(&response, ADDR, 1).unwrap();
    assert_eq!(server.collect_packets_to_send().packets.len(), 1);
    // one for every update until the client was heard of
    for _ in 0..3 {
        server.update(SECOND / 100);
        assert_eq!(server.collect_packets_to_send().packets.len(), 1);
    }
    server.connected_clients_mut()[0].confirmed = true;
    let mut sent = 0;
    for _ in 0..100 {
        server.update(SECOND / 100);
        sent += server.collect_packets_to_send().packets.len();
    }
    assert_eq!(sent, 9);
}
