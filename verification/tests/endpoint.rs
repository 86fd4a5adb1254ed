use pickleback::buffer_pool::BufPool;
use pickleback::cursor::{Cursor, WriteLimiter};
use pickleback::jitter_pipe::JitterPipeConfig;
use pickleback::prelude::{Backpressure, Pickleback, PicklebackError};
use pickleback::protocol::ack_header::MAX_UNACKED_PACKETS;
use pickleback::protocol::message::Fragmented;
use pickleback::protocol::packets::{
    read_packet, MessagesPacket, PacketType, ProtocolPacket, ProtocolPacketHeader,
};
use pickleback::test_utils::{random_payload, MessageTestHarness};
use pickleback::time::{Time, SECOND};
use pickleback::{MessageId, PacketId};

const MILLISECOND: Time = SECOND / 1000;

fn two_endpoints() -> (Pickleback, Pickleback) {
    let mut server = Pickleback::default();
    let mut client = Pickleback::default();
    client.set_xor_salt(Some(0));
    server.set_xor_salt(Some(0));
    (server, client)
}

fn receive(endpoint: &mut Pickleback, packet: &[u8]) -> Result<(), PicklebackError> {
    let mut cur = Cursor::new(packet);
    let ProtocolPacket::Messages(MessagesPacket { header, .. }) = read_packet(&mut cur).unwrap()
    else {
        panic!("err");
    };
    endpoint.process_incoming_packet(&header, &mut cur)
}

#[test]
fn drop_duplicate_packets() {
    let (mut server, mut client) = two_endpoints();
    let payload = b"hello";
    let _msg_id = server.send_message(0, payload);

    let to_send = server.collect_packets_to_send_inefficiently().unwrap();
    assert_eq!(to_send.len(), 1);

    println!("Sending first copy of packet");
    assert!(receive(&mut client, to_send[0].as_slice()).is_ok());

    {
        let received_messages = client.drain_received_messages(0);
        let rec = &received_messages[0];
        assert_eq!(rec.channel(), 0);
        assert_eq!(rec.payload_to_owned().as_slice(), payload.as_ref());
    }
    // send dupe
    println!("Sending second (dupe) copy of packet");
    match receive(&mut client, to_send[0].as_slice()) {
        Err(PicklebackError::DuplicatePacket) => {}
        e => {
            panic!("Should be dupe packet error, got: {:?}", e);
        }
    }
}

#[test]
fn many_packets_in_flight() {
    let (mut server, mut client) = two_endpoints();
    let msg = &[0x42_u8; 1024];
    let mut sent_ids = Vec::new();
    // sending this many full-packet-sized messages is the max we can send before acks arrive
    for _ in 0..MAX_UNACKED_PACKETS {
        sent_ids.push(server.send_message(0, msg).unwrap());
    }
    // update server so it sends packets.
    // this will make server realise it has MAX_UNACKED_PACKETS in flight, and shouldn't be able
    // to send anything else until it sees some acks.
    server.update(SECOND);
    println!("Server sending to client..");
    for packet in server.collect_packets_to_send_inefficiently().unwrap() {
        receive(&mut client, packet.as_slice()).unwrap();
    }
    println!("sent_unacked is now: {}", server.sent_unacked_packets());
    println!("Send attempt for MAX_UNACKED_PACKETS+1");
    match server.send_message(0, msg) {
        Err(PicklebackError::Backpressure(Backpressure::TooManyPending)) => {}
        other => panic!("Expecting backpressure, got {other:?}"),
    }

    client.update(SECOND);
    // exchange packets
    println!("Client sending to server.. sent_unacked is {}", client.sent_unacked_packets());
    for packet in client.collect_packets_to_send_inefficiently().unwrap() {
        receive(&mut server, packet.as_slice()).unwrap();
    }

    assert_eq!(sent_ids.len(), client.drain_received_messages(0).len());
    assert_eq!(sent_ids.len(), server.drain_message_acks(0).len());
}

#[test]
fn endpoint_acks() {
    let test_data = &[0x41; 24]; // "AAA..."

    let (mut server, mut client) = two_endpoints();

    let delta_time = 10 * MILLISECOND;
    let mut server_sent = Vec::new();
    let mut client_sent = Vec::new();

    for _ in 0..200 {
        // Send test packets
        let handle1 = server.send_message(0, test_data);
        let handle2 = client.send_message(0, test_data);

        server_sent.push(handle1);
        client_sent.push(handle2);

        // forward packets to their endpoints
        for packet in server.collect_packets_to_send_inefficiently().unwrap() {
            receive(&mut client, packet.as_slice()).unwrap();
            assert_eq!(test_data, client.drain_received_messages(0)[0].payload_to_owned().as_slice());
        }
        assert!(!server.has_packets_to_send());
        for packet in client.collect_packets_to_send_inefficiently().unwrap() {
            receive(&mut server, packet.as_slice()).unwrap();
            assert_eq!(test_data, server.drain_received_messages(0)[0].payload_to_owned().as_slice());
        }
        assert!(!client.has_packets_to_send());

        server.update(delta_time);
        client.update(delta_time);
    }
}

#[test]
fn endpoint_packet_header() {
    let write_id = PacketId(10000);
    let acks = [(100, true)];

    let mut writer = WriteLimiter::new(Vec::new(), 1500);
    let write_packet = ProtocolPacketHeader::new(write_id, &acks, 1, PacketType::Messages).unwrap();
    write_packet.write(&mut writer).unwrap();

    let buffer = writer.into_inner();
    let mut reader = Cursor::new(buffer.as_ref());
    let read_packet = ProtocolPacketHeader::parse(&mut reader).unwrap();

    assert_eq!(write_packet.id(), read_packet.id());
    assert_eq!(write_packet.ack_id(), read_packet.ack_id());
    assert_eq!(write_packet.acks().unwrap(), read_packet.acks().unwrap());
}

#[test]
fn small_unfrag_messages() {
    let channel = 0;
    let mut harness = MessageTestHarness::new(JitterPipeConfig::disabled());

    let msg1 = b"Hello";
    let msg2 = b"world";
    let msg3 = b"!";
    let msg4 = b"";
    let id1 = harness.server.send_message(channel, msg1).unwrap();
    let id2 = harness.server.send_message(channel, msg2).unwrap();
    let id3 = harness.server.send_message(channel, msg3).unwrap();
    let id4 = harness.server.send_message(channel, msg4).unwrap();

    harness.advance(100 * MILLISECOND).unwrap();

    let received_messages = harness.client.drain_received_messages(channel);
    assert_eq!(received_messages[0].payload_to_owned().as_slice(), msg1);
    assert_eq!(received_messages[1].payload_to_owned().as_slice(), msg2);
    assert_eq!(received_messages[2].payload_to_owned().as_slice(), msg3);
    assert_eq!(received_messages[3].payload_to_owned().as_slice(), msg4);

    assert_eq!(vec![id1, id2, id3, id4], harness.server.drain_message_acks(channel));
}

#[test]
fn frag_message() {
    let channel = 0;
    let mut harness = MessageTestHarness::new(JitterPipeConfig::disabled());

    let mut msg = Vec::new();
    msg.extend_from_slice(&[65; 1024]);
    msg.extend_from_slice(&[66; 1024]);
    msg.extend_from_slice(&[67; 100]);

    let msg_id = harness.server.send_message(channel, msg.as_ref()).unwrap();

    harness.advance(100 * MILLISECOND).unwrap();

    let received_messages = harness.client.drain_received_messages(channel);
    assert_eq!(received_messages.len(), 1);
    assert_eq!(received_messages[0].payload_to_owned().as_slice(), msg);

    // client should have sent acks back to server
    assert_eq!(vec![msg_id], harness.server.drain_message_acks(channel));
}

#[test]
fn reject_duplicate_messages() {
    let mut pool = BufPool::empty();
    let channel = 0;
    let mut harness = MessageTestHarness::new(JitterPipeConfig::disabled());
    let payload = b"hello";
    harness.server.channels_mut().get_mut(channel).unwrap().enqueue_message(
        &mut pool,
        MessageId(123),
        payload,
        Fragmented::No,
    );
    harness.server.channels_mut().get_mut(channel).unwrap().enqueue_message(
        &mut pool,
        MessageId(123),
        payload,
        Fragmented::No,
    );
    harness.advance(SECOND).unwrap();
    assert_eq!(harness.client.drain_received_messages(channel).len(), 1);
}

// test what happens in a reliable channel when one of the fragments isn't delivered.
// should resend after a suitable amount of time.
#[test]
fn retransmission() {
    let channel = 1;
    let mut harness = MessageTestHarness::new(JitterPipeConfig::disabled());
    // big enough to require 2 packets
    let payload = random_payload(1800);
    let id = harness.server.send_message(channel, payload.as_ref()).unwrap();
    // drop second packet (index 1), which will be the second of the two fragments.
    harness.advance_with_server_outbound_drops(50 * MILLISECOND, vec![1]).unwrap();
    assert!(harness.drain_client_messages(channel).is_empty());
    assert!(harness.collect_server_acks(channel).is_empty());
    // retransmit not ready yet
    harness.advance(10 * MILLISECOND).unwrap();
    assert!(harness.drain_client_messages(channel).is_empty());
    assert!(harness.collect_server_acks(channel).is_empty());
    // should retransmit
    harness.advance(90 * MILLISECOND + MILLISECOND / 100).unwrap(); // retransmit time of 0.1 reached
    assert_eq!(harness.drain_client_messages(channel).len(), 1);
    assert_eq!(vec![id], harness.collect_server_acks(channel));
    // ensure server finished sending:
    harness.advance(SECOND).unwrap();
    // this is testing that the server is only transmitting one small "empty" packet (just headers)
    let to_send = harness.server.collect_packets_to_send_inefficiently().unwrap();
    assert_eq!(1, to_send.len());
    // both our fragments are def bigger than 50:
    assert!(to_send[0].len() < 50);
}
