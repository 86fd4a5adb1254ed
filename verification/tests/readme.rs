use pickleback::address::LOCALHOST;
use pickleback::prelude::{
    ClientState, PeerAddr, PicklebackClient, PicklebackConfig, PicklebackServer,
};
use pickleback::time::SECOND;

fn transmit_packets(server: &mut PicklebackServer, client: &mut PicklebackClient) {
    // Server --> Client
    server.update(SECOND / 10);
    for p in server.collect_packets_to_send().packets {
        let _ = client.receive(p.packet.as_slice(), p.address);
    }
    // Client --> Server
    client.update(SECOND / 10);
    for p in client.collect_packets_to_send().packets {
        let _ = server.receive(p.packet.as_slice(), p.address);
    }
}

#[test]
fn connect_and_exchange_a_message() {
    let config = PicklebackConfig::default();

    let mut server = PicklebackServer::new(0, &config);
    let mut client = PicklebackClient::new(0, &config);
    client.connect(PeerAddr::V4 { v4: LOCALHOST, port: 0 });

    // client sends ConnectionRequest
    transmit_packets(&mut server, &mut client);
    // server responds with ConnectionChallenge
    transmit_packets(&mut server, &mut client);
    // client responds with ConnectionChallengeResponse
    transmit_packets(&mut server, &mut client);
    // server sends a keep-alive, denoting fully connected
    transmit_packets(&mut server, &mut client);

    assert_eq!(client.state(), &ClientState::Connected);

    let channel: u8 = 0;

    let msg_id = server.connected_clients_mut()[0].pickleback.send_message(channel, b"hello").unwrap();
    // server sends a packet containing a single message
    transmit_packets(&mut server, &mut client);

    // client will have received a message:
    let received = client.drain_received_messages(channel);
    assert_eq!(received.len(), 1);
    assert_eq!(b"hello".to_vec(), received[0].payload_to_owned());
    assert_eq!(received[0].payload_len(), 5);
    assert_eq!(received[0].id(), msg_id);

    // if the client doesn't have a message to send, it will still send a packet for the acks
    transmit_packets(&mut server, &mut client);

    // now the client has sent packets to the server, the server will have received an ack
    assert_eq!(
        vec![msg_id],
        server.connected_clients_mut()[0].pickleback.drain_message_acks(channel)
    );
    // and only once
    transmit_packets(&mut server, &mut client);
    assert!(server.connected_clients_mut()[0].pickleback.drain_message_acks(channel).is_empty());
}

#[test]
fn packets_go_both_ways_without_messages() {
    let config = PicklebackConfig::default();
    let mut server = PicklebackServer::new(0, &config);
    let mut client = PicklebackClient::new(0, &config);
    client.connect(PeerAddr::V4 { v4: LOCALHOST, port: 0 });
    for _ in 0..10 {
        transmit_packets(&mut server, &mut client);
    }
    assert_eq!(client.state(), &ClientState::Connected);
    // a regular exchange of packets in both directions, at least ten times a second
    for _ in 0..10 {
        server.update(SECOND / 10 + 1);
        let sent = server.collect_packets_to_send().packets;
        assert!(!sent.is_empty());
        for p in sent {
            let _ = client.receive(p.packet.as_slice(), p.address);
        }
        client.update(SECOND / 10 + 1);
        let sent = client.collect_packets_to_send().packets;
        assert!(!sent.is_empty());
        for p in sent {
            let _ = server.receive(p.packet.as_slice(), p.address);
        }
    }
}
