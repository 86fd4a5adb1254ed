use bytes::Bytes;
use pickleback::buffer_pool::BufPool;
use pickleback::config::PicklebackConfig;
use pickleback::cursor::{Cursor, WriteLimiter};
use pickleback::error::{IoError, PicklebackError};
use pickleback::pickleback::Pickleback;
use pickleback::protocol::ack_header::{AckHeader, MAX_UNACKED_PACKETS};
use pickleback::protocol::message::Message;
use pickleback::protocol::packets::{
    read_packet, KeepAlivePacket, PacketType, ProtocolPacket, ProtocolPacketHeader,
};
use pickleback::protocol::DisconnectReason;
use pickleback::reliable::error::ReliableError;
use pickleback::reliable::{Endpoint, EndpointConfig};
use pickleback::sequence_buffer::SequenceBuffer;
use pickleback::time::SECOND;
use pickleback::PacketId;

#[test]
fn input_that_ends_too_soon() {
    let e = read_packet(&mut Cursor::new(&[])).unwrap_err();
    assert_eq!(e, PicklebackError::Io(IoError::UnexpectedEof));
    assert_eq!(e.source(), Some(IoError::UnexpectedEof));
    assert_eq!(PicklebackError::from(IoError::UnexpectedEof), e);
    assert_eq!(PicklebackError::StalePacket.source(), None);
    let mut cur = Cursor::new(&[1]);
    assert_eq!(cur.read_u16(), Err(PicklebackError::Io(IoError::UnexpectedEof)));
}

#[test]
fn output_that_is_full() {
    let mut writer = WriteLimiter::new(Vec::new(), 3);
    assert_eq!(writer.remaining(), 3);
    assert_eq!(writer.write(b"ab"), 2);
    assert_eq!(writer.remaining(), 1);
    assert_eq!(writer.write_u16(0x0102), Err(PicklebackError::Io(IoError::WriteZero)));
    assert_eq!(writer.remaining(), 0);
    assert_eq!(writer.write(b"x"), 0);
    assert_eq!(writer.into_inner(), b"ab\x01");
}

#[test]
fn packets_that_do_not_fit() {
    let mut config = PicklebackConfig::default();
    config.max_packet_size = 10;
    let mut endpoint = Pickleback::new(config, 0);
    endpoint.set_xor_salt(Some(0));
    endpoint.send_message(0, b"hello").unwrap();
    assert_eq!(
        endpoint.collect_packets_to_send_inefficiently(),
        Err(PicklebackError::Io(IoError::WriteZero))
    );
}

#[test]
fn sequence_too_old() {
    let mut buffer: SequenceBuffer<u8> = SequenceBuffer::with_capacity(10);
    buffer.insert(100, 1).unwrap();
    assert_eq!(buffer.insert(89, 2).unwrap_err(), PicklebackError::SequenceTooOld);
    assert!(buffer.insert(90, 2).is_ok());
    assert!(buffer.insert(91, 3).is_ok());
    assert!(!buffer.check_sequence(90));
    assert!(buffer.check_sequence(91));
}

#[test]
fn unknown_packet_type() {
    assert_eq!(
        read_packet(&mut Cursor::new(&[0x7f, 0, 0])).unwrap_err(),
        PicklebackError::InvalidPacket
    );
    assert_eq!(PacketType::try_from(0), Err(PicklebackError::InvalidPacket));
    assert_eq!(DisconnectReason::try_from(5), Err(PicklebackError::InvalidPacket));
    assert_eq!(DisconnectReason::try_from(4), Ok(DisconnectReason::ServerFull));
}

#[test]
fn padding_that_is_too_short() {
    let mut bytes = vec![PacketType::ConnectionRequest.code(), 0, 1];
    bytes.extend_from_slice(&[0; 16 + 499]);
    assert_eq!(read_packet(&mut Cursor::new(&bytes)).unwrap_err(), PicklebackError::InvalidPacket);
    bytes.push(0);
    assert!(read_packet(&mut Cursor::new(&bytes)).is_ok());
}

#[test]
fn messages_that_are_not_whole() {
    let mut pool = BufPool::empty();
    // a small message of five bytes, of which four are there
    let short = [0, 0, 1, 5, b'h', b'e', b'l', b'l'];
    assert_eq!(
        Message::parse(&mut pool, &mut Cursor::new(&short)).unwrap_err(),
        PicklebackError::InvalidMessage
    );
    // fragment 0 of none
    let nothing = [1, 0, 1, 0, 0];
    assert_eq!(
        Message::parse(&mut pool, &mut Cursor::new(&nothing)).unwrap_err(),
        PicklebackError::InvalidMessage
    );
}

#[test]
fn stale_packets_only_count() {
    let mut endpoint = Pickleback::default();
    let empty: [u8; 0] = [];
    let h = ProtocolPacketHeader::new_no_acks(PacketId(1000), PacketType::KeepAlive).unwrap();
    endpoint.process_incoming_packet(&h, &mut Cursor::new(&empty)).unwrap();
    let h = ProtocolPacketHeader::new_no_acks(PacketId(400), PacketType::KeepAlive).unwrap();
    assert_eq!(
        endpoint.process_incoming_packet(&h, &mut Cursor::new(&empty)),
        Err(PicklebackError::StalePacket)
    );
    assert_eq!(endpoint.stats().packets_received, 2);
    assert_eq!(endpoint.stats().packets_stale, 1);
    let h = ProtocolPacketHeader::new_no_acks(PacketId(1000), PacketType::KeepAlive).unwrap();
    assert_eq!(
        endpoint.process_incoming_packet(&h, &mut Cursor::new(&empty)),
        Err(PicklebackError::DuplicatePacket)
    );
    assert_eq!(endpoint.stats().packets_duplicate, 1);
}

#[test]
fn refused_messages() {
    let mut endpoint = Pickleback::default();
    let large = vec![0; 1024 * 1024 + 1];
    assert_eq!(endpoint.send_message(0, &large), Err(PicklebackError::PayloadTooBig));
    assert_eq!(endpoint.stats().message_sends, 0);
    assert_eq!(endpoint.send_message(2, b"hello"), Err(PicklebackError::NoSuchChannel));
    assert_eq!(endpoint.stats().message_sends, 1);
    assert!(endpoint.send_message(0, &large[1..]).is_ok());
}

#[test]
fn too_many_acks() {
    let acks: Vec<(u16, bool)> = (0..MAX_UNACKED_PACKETS + 1).map(|i| (1000 - i, true)).collect();
    assert!(AckHeader::from_ack_iter(MAX_UNACKED_PACKETS + 1, &acks).is_err());
    assert!(AckHeader::from_ack_iter(MAX_UNACKED_PACKETS, &acks).is_ok());
}

#[test]
fn settings_that_cannot_run() {
    let mut config = PicklebackConfig::default();
    assert!(config.is_valid());
    config.max_message_size += 1;
    assert!(!config.is_valid());
    config = PicklebackConfig::default();
    config.sent_packets_buffer_size = 0x1_0000;
    assert!(!config.is_valid());
    config = PicklebackConfig::default();
    config.buffer_pools_config = Some(Vec::new());
    assert!(!config.is_valid());
}

#[test]
fn packets_of_the_layer_below() {
    let mut one = Endpoint::new(EndpointConfig::default(), SECOND);
    assert_eq!(
        one.receive(Bytes::from_static(b"")).unwrap_err(),
        ReliableError::PacketTooSmall
    );
    assert_eq!(
        one.receive(Bytes::from_static(&[1; 20])).unwrap_err(),
        ReliableError::InvalidPacket
    );
    let mut two = Endpoint::new(EndpointConfig::default(), SECOND);
    for _ in 0..300 {
        one.send(Bytes::from_static(b"hello")).unwrap();
    }
    let packets = one.drain_packets_to_send();
    for p in packets[1..].iter() {
        two.receive(p.clone()).unwrap();
    }
    assert_eq!(two.receive(packets[0].clone()).unwrap_err(), ReliableError::StalePacket);
    assert_eq!(two.receive(packets[299].clone()).unwrap_err(), ReliableError::DuplicatePacket);
    assert_eq!(two.counters().packets_stale, 1);
    assert_eq!(two.counters().packets_duplicate, 1);
    // too large for a packet
    assert!(one.try_send(Bytes::from(vec![0; 1151])).is_none());
    assert!(!one.has_packets_to_send());
    assert!(one.try_send(Bytes::from(vec![0; 1150])).unwrap().is_ok());
    assert!(one.has_packets_to_send());
}

#[test]
fn packet_types_have_their_own_bodies() {
    let header = ProtocolPacketHeader::new_no_acks(PacketId(3), PacketType::KeepAlive).unwrap();
    let p = ProtocolPacket::KeepAlive(KeepAlivePacket { header, xor_salt: 1, client_index: 2 });
    assert_eq!(p.packet_type(), PacketType::KeepAlive);
}
