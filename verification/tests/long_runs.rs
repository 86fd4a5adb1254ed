use pickleback::buffer_pool::{BufPool, PoolConfig};
use pickleback::channel::ReliableChannel;
use pickleback::config::PicklebackConfig;
use pickleback::cursor::Cursor;
use pickleback::error::PicklebackError;
use pickleback::pickleback::Pickleback;
use pickleback::protocol::message::{Fragmented, Message};
use pickleback::protocol::packets::{read_packet, KeepAlivePacket, PacketType, ProtocolPacket};
use pickleback::time::SECOND;
use pickleback::MessageId;

fn endpoint_with(config: PicklebackConfig) -> Pickleback {
    let mut e = Pickleback::new(config, SECOND);
    e.set_xor_salt(Some(0));
    e
}

fn endpoint() -> Pickleback {
    endpoint_with(PicklebackConfig::default())
}

fn receive(e: &mut Pickleback, packet: &[u8]) -> Result<(), PicklebackError> {
    let mut cur = Cursor::new(packet);
    match read_packet(&mut cur).unwrap() {
        ProtocolPacket::Messages(p) => e.process_incoming_packet(&p.header, &mut cur),
        ProtocolPacket::KeepAlive(p) => e.process_incoming_packet(&p.header, &mut cur),
        p => panic!("{p:?}"),
    }
}

fn send_keep_alive(e: &mut Pickleback) -> Vec<u8> {
    let header = e.next_packet_header(PacketType::KeepAlive).unwrap();
    let packet = KeepAlivePacket { header, xor_salt: 0, client_index: 0 };
    e.send_packet(ProtocolPacket::KeepAlive(packet)).unwrap();
    e.collect_outbox().pop().unwrap()
}

fn exchange(a: &mut Pickleback, b: &mut Pickleback) {
    for p in a.collect_packets_to_send_inefficiently().unwrap() {
        receive(b, &p).unwrap();
    }
}

#[test]
fn large_messages_are_tracked_after_any_number_of_small_ones() {
    for n in [0u32, 7768, 8000, 33000, 65530, 70000] {
        let mut e = endpoint();
        for i in 0..n {
            assert_eq!(e.send_message(0, b"a"), Ok(MessageId(i as u16)));
        }
        assert_eq!(e.send_message(0, &[1; 2000]), Ok(MessageId(n as u16)));
        assert_eq!(e.send_message(0, b"a"), Ok(MessageId((n as u16).wrapping_add(2))));
    }
}

#[test]
fn large_messages_are_tracked_whatever_the_size_of_the_map() {
    for sent_frag_map_size in [1, 2, 100, 32767, 32768, 40000, 65536, 100000] {
        let config = PicklebackConfig { sent_frag_map_size, ..PicklebackConfig::default() };
        assert!(config.is_valid());
        let mut server = endpoint_with(config);
        let mut client = endpoint();
        for _ in 0..20 {
            let small = server.send_message(1, b"small").unwrap();
            let large = server.send_message(1, &[3; 2500]).unwrap();
            assert_eq!(large.0, small.0.wrapping_add(1));
            exchange(&mut server, &mut client);
            exchange(&mut client, &mut server);
            let got = client.drain_received_messages(1);
            assert_eq!(got.len(), 2);
            assert_eq!(got[1].payload_to_owned(), vec![3; 2500]);
            assert_eq!(server.drain_message_acks(1), vec![small, large]);
        }
    }
}

#[test]
fn a_large_message_is_acked_after_many_small_ones() {
    let mut server = endpoint();
    let mut client = endpoint();
    for round in 0..400 {
        for _ in 0..100 {
            server.send_message(0, b"tiny").unwrap();
        }
        exchange(&mut server, &mut client);
        exchange(&mut client, &mut server);
        assert_eq!(server.drain_message_acks(0).len(), 100, "{round}");
        let got = client.drain_received_messages(0);
        assert_eq!(got.len(), 100);
        client.return_messages(got);
    }
    let id = server.send_message(1, &[5; 5000]).unwrap();
    assert_eq!(id, MessageId(40000));
    exchange(&mut server, &mut client);
    exchange(&mut client, &mut server);
    assert_eq!(client.drain_received_messages(1).len(), 1);
    assert_eq!(server.drain_message_acks(1), vec![id]);
}

#[test]
fn fragments_may_be_acked_by_different_packets() {
    let mut server = endpoint();
    let mut client = endpoint();
    let id = server.send_message(1, &[7; 3000]).unwrap();
    let packets = server.collect_packets_to_send_inefficiently().unwrap();
    assert_eq!(packets.len(), 3);
    for (i, p) in packets.iter().enumerate().rev() {
        assert!(server.drain_message_acks(1).is_empty(), "{i}");
        receive(&mut client, p).unwrap();
        exchange(&mut client, &mut server);
    }
    assert_eq!(server.stats().packets_acked, 3);
    assert_eq!(server.drain_message_acks(1), vec![id]);
    assert_eq!(client.drain_received_messages(1).len(), 1);
}

#[test]
fn the_same_acks_again_change_nothing() {
    let mut server = endpoint();
    let mut client = endpoint();
    for _ in 0..5 {
        server.send_message(0, &[0; 1000]).unwrap();
    }
    let packets = server.collect_packets_to_send_inefficiently().unwrap();
    assert_eq!(packets.len(), 5);
    for i in [0, 1, 3] {
        receive(&mut client, &packets[i]).unwrap();
    }
    let first = send_keep_alive(&mut client);
    let second = send_keep_alive(&mut client);
    receive(&mut server, &first).unwrap();
    assert_eq!(server.stats().packets_acked, 3);
    assert_eq!(server.sent_unacked_packets(), 1);
    assert_eq!(server.drain_message_acks(0), vec![MessageId(3), MessageId(1), MessageId(0)]);
    // the second keep alive carries the same acks
    receive(&mut server, &second).unwrap();
    assert_eq!(server.stats().packets_acked, 3);
    assert_eq!(server.sent_unacked_packets(), 1);
    assert!(server.drain_message_acks(0).is_empty());
    match read_packet(&mut Cursor::new(&first)).unwrap() {
        ProtocolPacket::KeepAlive(p) => server.process_packet_acks_and_rtt(&p.header),
        p => panic!("{p:?}"),
    }
    assert_eq!(server.stats().packets_acked, 3);
    assert_eq!(server.sent_unacked_packets(), 1);
    assert!(server.drain_message_acks(0).is_empty());
}

#[test]
fn messages_can_be_sent_after_any_number_of_keep_alives() {
    let mut server = endpoint();
    let mut client = endpoint();
    for _ in 0..33000 {
        let p = send_keep_alive(&mut server);
        receive(&mut client, &p).unwrap();
        let p = send_keep_alive(&mut client);
        receive(&mut server, &p).unwrap();
    }
    let id = server.send_message(1, b"hello").unwrap();
    exchange(&mut server, &mut client);
    assert_eq!(client.drain_received_messages(1).len(), 1);
    exchange(&mut client, &mut server);
    assert_eq!(server.drain_message_acks(1), vec![id]);
}

#[test]
fn a_quiet_channel_takes_new_messages() {
    let mut pool = BufPool::empty();
    let mut message = |id| {
        Message::new_outbound(&mut pool, MessageId(id), 1, b"x", Fragmented::No)
    };
    let mut channel = ReliableChannel::new(1, 0);
    assert!(channel.accepts_message(&message(1)));
    // the other channels have used up the ids in between
    assert!(channel.accepts_message(&message(23000)));
    assert!(!channel.accepts_message(&message(23000)));
    assert!(channel.accepts_message(&message(55000)));
    assert!(channel.accepts_message(&message(54999)));
    assert!(!channel.accepts_message(&message(54999)));
    assert!(!channel.accepts_message(&message(44000)));
    // the first message may have any id
    for id in [0, 1, 32767, 32768, 40000, 65535] {
        let mut channel = ReliableChannel::new(1, 0);
        assert!(channel.accepts_message(&message(id)));
        assert!(!channel.accepts_message(&message(id)));
        assert!(channel.accepts_message(&message(id.wrapping_sub(1))));
        assert!(channel.accepts_message(&message(id.wrapping_add(1))));
    }
}

#[test]
fn unacked_packets_that_are_not_empty() {
    let mut server = endpoint();
    let mut client = endpoint();
    assert_eq!(client.received_unacked_non_empty_packets(), 0);
    let p = send_keep_alive(&mut server);
    receive(&mut client, &p).unwrap();
    assert_eq!(client.received_unacked_packets(), 1);
    assert_eq!(client.received_unacked_non_empty_packets(), 0);
    server.send_message(0, b"hello").unwrap();
    exchange(&mut server, &mut client);
    assert_eq!(client.received_unacked_packets(), 2);
    assert_eq!(client.received_unacked_non_empty_packets(), 1);
    let p = send_keep_alive(&mut client);
    receive(&mut server, &p).unwrap();
    // a packet of no messages, which acks the keep alive
    exchange(&mut server, &mut client);
    assert_eq!(client.received_unacked_packets(), 1);
    assert_eq!(client.received_unacked_non_empty_packets(), 0);
}

#[test]
fn returned_buffers_are_as_large_as_new_ones() {
    let config = |buffer_capacity| PoolConfig { starting_size: 0, max_size: 10, buffer_capacity };
    let mut pool = BufPool::new(vec![config(1000), config(100)]);
    let small = pool.get_buffer(50);
    let mut large = pool.get_buffer(500);
    assert!(small.v.capacity() >= 100 && large.v.capacity() >= 1000);
    // too large for the pool of lesser capacity, too small for the other one
    large.v = Vec::with_capacity(200);
    pool.return_buffer(large);
    assert!(pool.get_buffer(1000).v.capacity() >= 1000);
}
