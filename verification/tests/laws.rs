use pickleback::channel::ReliableChannel;
use pickleback::buffer_pool::BufPool;
use pickleback::cursor::Cursor;
use pickleback::dispatcher::{MessageHandle, SentFragMap};
use pickleback::error::PicklebackError;
use pickleback::message_reassembler::MessageReassembler;
use pickleback::pickleback::Pickleback;
use pickleback::protocol::ack_header::MAX_UNACKED_PACKETS;
use pickleback::protocol::message::{Fragment, Fragmented, Message};
use pickleback::protocol::packets::{read_packet, PacketType, ProtocolPacket};
use pickleback::sequence_buffer::SequenceBuffer;
use pickleback::test_utils::payload_size;
use pickleback::testing::{random_payload, JitterPipeConfig, MessageTestHarness};
use pickleback::time::SECOND;
use pickleback::{MessageId, PacketId};

fn endpoint() -> Pickleback {
    let mut e = Pickleback::default();
    e.set_xor_salt(Some(0));
    e
}

fn receive(e: &mut Pickleback, packet: &[u8]) -> Result<(), PicklebackError> {
    let mut cur = Cursor::new(packet);
    match read_packet(&mut cur).unwrap() {
        ProtocolPacket::Messages(m) => e.process_incoming_packet(&m.header, &mut cur),
        p => panic!("{p:?}"),
    }
}

#[test]
fn fragments_in_any_order_make_the_payload() {
    let mut pool = BufPool::empty();
    let payload = random_payload(3 * 1024 + 10);
    let orders = [[0, 1, 2, 3], [3, 2, 1, 0], [2, 0, 3, 1], [1, 3, 0, 2]];
    for order in orders {
        let mut assembler = MessageReassembler::new();
        for (n, i) in order.into_iter().enumerate() {
            let end = payload.len().min(1024 * (i as usize + 1));
            let fragment = Fragment { index: i, num_fragments: 4, parent_id: MessageId(65534) };
            let sent = Message::new_outbound(
                &mut pool,
                MessageId(65534u16.wrapping_add(i)),
                1,
                &payload[1024 * i as usize..end],
                Fragmented::Yes(fragment),
            );
            let read = Message::parse(&mut pool, &mut Cursor::new(sent.as_slice())).unwrap();
            assert_eq!(read.fragment(), Some(&fragment));
            match assembler.add_fragment(read) {
                None => assert!(n < 3),
                Some(whole) => {
                    assert_eq!(n, 3);
                    assert_eq!(whole.id(), MessageId(65534));
                    assert_eq!(whole.channel(), 1);
                    assert_eq!(whole.part_count(), 4);
                    assert_eq!(whole.part(3).len(), 10);
                    assert_eq!(whole.payload_len(), payload.len());
                    assert_eq!(whole.payload_to_owned(), payload);
                }
            }
        }
    }
}

#[test]
fn fragments_are_acked_in_any_order_and_once() {
    let ids: Vec<MessageId> = (10..13).map(MessageId).collect();
    for order in [[10, 11, 12], [12, 10, 11], [11, 12, 10]] {
        let mut map = SentFragMap::with_capacity(100);
        map.insert_fragmented_message(MessageId(10), ids.clone()).unwrap();
        assert!(!map.ack_fragment_message(MessageId(10), MessageId(order[0])));
        // again makes no difference
        assert!(!map.ack_fragment_message(MessageId(10), MessageId(order[0])));
        assert!(!map.ack_fragment_message(MessageId(10), MessageId(order[1])));
        assert!(map.ack_fragment_message(MessageId(10), MessageId(order[2])));
        assert!(!map.ack_fragment_message(MessageId(10), MessageId(order[2])));
        assert!(!map.ack_fragment_message(MessageId(11), MessageId(11)));
    }
}

#[test]
fn messages_share_packets() {
    let mut e = endpoint();
    for _ in 0..100 {
        e.send_message(0, b"tiny").unwrap();
    }
    let packets = e.collect_packets_to_send_inefficiently().unwrap();
    assert_eq!(packets.len(), 1);
    // type, sequence number, salt, and eight bytes for each message
    assert_eq!(packets[0].len(), 1 + 2 + 8 + 100 * 8);
    assert_eq!(e.stats().messages_sent, 100);
    let mut other = endpoint();
    receive(&mut other, &packets[0]).unwrap();
    let got = other.drain_received_messages(0);
    assert_eq!(got.len(), 100);
    for (i, m) in got.iter().enumerate() {
        assert_eq!(m.id(), MessageId(i as u16));
        assert_eq!(m.payload_to_owned(), b"tiny");
    }
    assert_eq!(other.stats().messages_received, 100);
}

#[test]
fn ids_are_consecutive() {
    let mut e = endpoint();
    assert_eq!(e.send_message(0, b"a"), Ok(MessageId(0)));
    assert_eq!(e.send_message(1, &[0; 1024]), Ok(MessageId(1)));
    assert_eq!(e.send_message(0, &[0; 1025]), Ok(MessageId(2)));
    assert_eq!(e.send_message(0, b"a"), Ok(MessageId(4)));
}

#[test]
fn no_more_than_may_be_unacked() {
    let mut e = endpoint();
    for _ in 0..1000 {
        e.send_message(1, &[1; 1024]).unwrap();
    }
    let packets = e.collect_packets_to_send_inefficiently().unwrap();
    assert_eq!(packets.len(), MAX_UNACKED_PACKETS as usize);
    assert_eq!(e.sent_unacked_packets(), MAX_UNACKED_PACKETS);
    assert!(matches!(e.send_message(1, b"a"), Err(PicklebackError::Backpressure(_))));
    assert!(e.collect_packets_to_send_inefficiently().unwrap().is_empty());
    assert!(matches!(
        e.next_packet_header(PacketType::KeepAlive),
        Ok(h) if h.id() == PacketId(MAX_UNACKED_PACKETS + 1)
    ));
}

#[test]
fn acked_messages_are_not_sent_again() {
    let mut server = endpoint();
    let mut client = endpoint();
    let id = server.send_message(1, b"important").unwrap();
    let first = server.collect_packets_to_send_inefficiently().unwrap();
    assert_eq!(first.len(), 1);
    // nothing until the resend time has passed
    server.update(SECOND / 20);
    assert!(server.collect_packets_to_send_inefficiently().unwrap().is_empty());
    server.update(SECOND / 20);
    let second = server.collect_packets_to_send_inefficiently().unwrap();
    assert_eq!(second.len(), 1);
    // both arrive, but the message is delivered once
    receive(&mut client, &first[0]).unwrap();
    receive(&mut client, &second[0]).unwrap();
    assert_eq!(client.drain_received_messages(1).len(), 1);
    for p in client.collect_packets_to_send_inefficiently().unwrap() {
        receive(&mut server, &p).unwrap();
    }
    assert_eq!(server.drain_message_acks(1), vec![id, id]);
    assert_eq!(server.take_rtt_samples(), vec![(SECOND / 20) as i128 * 0, (SECOND / 10) as i128]);
    server.update(SECOND);
    assert!(!server.channels_mut().any_with_messages_to_send());
}

#[test]
fn an_ack_is_for_one_message_only() {
    let mut pool = BufPool::empty();
    let mut channel = ReliableChannel::new(1, 0);
    channel.enqueue_message(&mut pool, MessageId(1), b"one", Fragmented::No);
    channel.enqueue_message(&mut pool, MessageId(2), b"two", Fragmented::No);
    let fragment = Fragment { index: 0, num_fragments: 1, parent_id: MessageId(3) };
    channel.enqueue_message(&mut pool, MessageId(3), b"three", Fragmented::Yes(fragment));
    let h = |id: u16, frag_index| MessageHandle { id: MessageId(id), frag_index, channel: 1 };
    assert_eq!(channel.message_ack_received(&h(2, None)).len(), 1);
    assert_eq!(channel.message_ack_received(&h(2, None)).len(), 0);
    assert_eq!(channel.message_ack_received(&h(3, Some(0))).len(), 1);
    let left = channel.get_message_to_write_to_a_packet(1000).unwrap();
    assert_eq!(left.id(), MessageId(1));
    assert!(!channel.any_ready_to_send());
}

#[test]
fn an_ack_takes_what_went_out_in_the_packet() {
    let mut server = endpoint();
    let mut client = endpoint();
    let one = server.send_message(1, b"one").unwrap();
    let two = server.send_message(1, b"two").unwrap();
    let first = server.collect_packets_to_send_inefficiently().unwrap();
    assert_eq!(first.len(), 1);
    server.send_message(1, b"three").unwrap();
    // this one is lost
    assert_eq!(server.collect_packets_to_send_inefficiently().unwrap().len(), 1);
    receive(&mut client, &first[0]).unwrap();
    for p in client.collect_packets_to_send_inefficiently().unwrap() {
        receive(&mut server, &p).unwrap();
    }
    assert_eq!(server.drain_message_acks(1), vec![one, two]);
    server.update(SECOND);
    for p in server.collect_packets_to_send_inefficiently().unwrap() {
        receive(&mut client, &p).unwrap();
    }
    let got: Vec<Vec<u8>> =
        client.drain_received_messages(1).iter().map(|m| m.payload_to_owned()).collect();
    assert_eq!(got, vec![b"one".to_vec(), b"two".to_vec(), b"three".to_vec()]);
    assert_eq!(client.stats().messages_received, 3);
}

#[test]
fn unreliable_messages_are_acked_too() {
    let mut harness = MessageTestHarness::new(JitterPipeConfig::disabled());
    let id = harness.client.send_message(0, b"hello").unwrap();
    // to the server, and back
    harness.advance(SECOND / 10).unwrap();
    assert_eq!(harness.drain_server_messages(0).len(), 1);
    assert!(harness.collect_client_acks(0).is_empty());
    let stats = harness.advance(SECOND / 10).unwrap();
    assert_eq!(harness.collect_client_acks(0), vec![id]);
    assert_eq!(stats.client_sent, 2);
    assert_eq!(stats.server_received, 2);
    assert_eq!(stats.server_sent, 1);
    assert_eq!(stats.client_received, 1);
}

#[test]
fn loss_is_counted_by_what_was_not_acked() {
    let mut harness = MessageTestHarness::new(JitterPipeConfig::disabled());
    for i in 0..20 {
        harness.server.send_message(0, b"hello").unwrap();
        let lost = if i % 4 == 0 { vec![0] } else { vec![] };
        harness.advance_with_server_outbound_drops(SECOND / 10, lost).unwrap();
    }
    let now = harness.server.time();
    assert_eq!(harness.server.packet_loss_counts(now), (15, 20));
    // those sent too recently do not count
    assert_eq!(harness.server.packet_loss_counts(now - SECOND), (7, 10));
    assert!(!harness.server.take_packet_loss_due());
}

#[test]
fn recent_numbers_win() {
    assert!(SequenceBuffer::<u8>::sequence_greater_than(1, 0));
    assert!(SequenceBuffer::<u8>::sequence_greater_than(0, 65535));
    assert!(!SequenceBuffer::<u8>::sequence_greater_than(65535, 0));
    assert!(SequenceBuffer::<u8>::sequence_less_than(65000, 100));
    assert!(SequenceBuffer::<u8>::sequence_greater_than(0x8000, 0));
    assert!(!SequenceBuffer::<u8>::sequence_greater_than(0, 0x8000));
    let mut buffer: SequenceBuffer<u16> = SequenceBuffer::with_capacity(8);
    for i in 0..10u16 {
        buffer.insert(65530u16.wrapping_add(i), i).unwrap();
    }
    assert_eq!(buffer.sequence(), 3);
    assert_eq!(buffer.get(65530), None);
    assert_eq!(buffer.get(65532), Some(&2));
    assert_eq!(buffer.remove(65535), Some(5));
    assert!(!buffer.contains(65535));
    assert!(buffer.check_newer_than_current(4));
    assert!(!buffer.check_newer_than_current(3));
    // a gap is cleared out
    buffer.insert(6, 6).unwrap();
    assert!(!buffer.contains(65532));
    assert!(buffer.contains(3));
}

#[test]
fn payload_sizes() {
    assert_eq!(payload_size(0, 1), 1);
    assert_eq!(payload_size(1022, 1), 1023);
    assert_eq!(payload_size(1023, 1), 1);
    assert_eq!(payload_size(u64::MAX, 10), 1 + (u64::MAX % 10239) as u32);
    assert_eq!(random_payload(100).len(), 100);
    assert_ne!(random_payload(100), random_payload(100));
}
