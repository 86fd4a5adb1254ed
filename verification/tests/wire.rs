use bytes::{Bytes, BytesMut};
use pickleback::buffer_pool::{BufPool, PoolConfig, PooledBuffer};
use pickleback::config::PicklebackConfig;
use pickleback::cursor::{Cursor, WriteLimiter};
use pickleback::packet;
use pickleback::protocol::ack_header::AckHeader;
use pickleback::protocol::message::{Fragment, Fragmented, Message};
use pickleback::protocol::packets::{
    read_packet, write_packet, DisconnectPacket, KeepAlivePacket, PacketType, ProtocolPacket,
    ProtocolPacketHeader,
};
use pickleback::reliable::headers::{HeaderParser, PacketHeader};
use pickleback::reliable::{Endpoint, EndpointConfig};
use pickleback::small_map::SmallMap;
use pickleback::time::SECOND;
use pickleback::{MessageId, PacketId};

#[test]
fn numbers_are_big_endian() {
    let mut writer = WriteLimiter::new(Vec::new(), 100);
    writer.write_u8(1).unwrap();
    writer.write_u16(0x0203).unwrap();
    writer.write_u32(0x04050607).unwrap();
    writer.write_u64(0x08090a0b0c0d0e0f).unwrap();
    let bytes = writer.into_inner();
    assert_eq!(bytes, (1..16).collect::<Vec<u8>>());
    let mut cur = Cursor::new(&bytes);
    assert_eq!(cur.read_u8(), Ok(1));
    assert_eq!(cur.read_u16(), Ok(0x0203));
    assert_eq!(cur.read_u32(), Ok(0x04050607));
    assert_eq!(cur.remaining(), 8);
    assert_eq!(cur.remaining_slice()[0], 8);
    assert_eq!(cur.read_u64(), Ok(0x08090a0b0c0d0e0f));
    assert!(cur.is_empty());
    assert_eq!(cur.position(), 15);
}

#[test]
fn bytes_of_messages() {
    let mut pool = BufPool::empty();
    let small = Message::new_outbound(&mut pool, MessageId(0x0102), 3, b"hi", Fragmented::No);
    assert_eq!(small.as_slice(), &[3 << 3, 1, 2, 2, b'h', b'i']);

    let large = Message::new_outbound(&mut pool, MessageId(1), 0, &[7; 300], Fragmented::No);
    assert_eq!(large.as_slice()[..5], [2, 0, 1, 1, 44]);
    assert_eq!(large.as_slice().len(), 305);

    let fragment = Fragment { index: 1, num_fragments: 2, parent_id: MessageId(8) };
    let last = Message::new_outbound(&mut pool, MessageId(9), 1, b"end", Fragmented::Yes(fragment));
    assert_eq!(last.as_slice(), &[1 << 3 | 1, 0, 9, 1, 2, 0, 3, b'e', b'n', b'd']);

    // the index takes two bytes where there are many fragments
    let fragment = Fragment { index: 299, num_fragments: 300, parent_id: MessageId(0) };
    let last = Message::new_outbound(&mut pool, MessageId(299), 0, b"x", Fragmented::Yes(fragment));
    assert_eq!(last.as_slice(), &[3, 1, 43, 1, 43, 1, 44, 0, 1, b'x']);
    let read = Message::parse(&mut pool, &mut Cursor::new(last.as_slice())).unwrap();
    assert_eq!(read.fragment(), Some(&fragment));
}

#[test]
fn bytes_of_acks() {
    let acks: Vec<(u16, bool)> =
        vec![(300, true), (299, false), (298, true), (297, false), (296, false), (295, false), (294, false),
             (293, true), (292, false), (291, false), (290, false), (289, false), (288, false), (287, true)];
    let header = AckHeader::from_ack_iter(14, &acks).unwrap();
    assert_eq!(header.ack_id(), PacketId(300));
    let mut writer = WriteLimiter::new(Vec::new(), 100);
    header.write(&mut writer).unwrap();
    let bytes = writer.into_inner();
    assert_eq!(bytes, [1, 44, 0b1000_0101, 0b0100_0001]);
    assert_eq!(header.size(), 4);
    let read = AckHeader::parse(&mut Cursor::new(&bytes)).unwrap();
    assert_eq!(read.into_acks(), acks);
}

#[test]
fn bytes_of_packets() {
    let mut pool = BufPool::full_packets_only();
    let config = PicklebackConfig::default();
    let header = ProtocolPacketHeader::new_no_acks(PacketId(0x0304), PacketType::KeepAlive).unwrap();
    let p = ProtocolPacket::KeepAlive(KeepAlivePacket { header, xor_salt: 5, client_index: 6 });
    let bytes = write_packet(&mut pool, &config, p).unwrap();
    assert_eq!(
        bytes.as_slice(),
        &[PacketType::KeepAlive.code(), 3, 4, 0, 0, 0, 0, 0, 0, 0, 5, 0, 0, 0, 6]
    );

    let header = ProtocolPacketHeader::new(
        PacketId(1),
        &[(9, true)],
        1,
        PacketType::Disconnect,
    )
    .unwrap();
    assert_eq!(header.size(), 6);
    let p = ProtocolPacket::Disconnect(DisconnectPacket { header, xor_salt: 1 });
    let bytes = write_packet(&mut pool, &config, p).unwrap();
    assert_eq!(
        bytes.as_slice(),
        &[PacketType::Disconnect.code() | 0x80, 0, 1, 0, 9, 1, 0, 0, 0, 0, 0, 0, 0, 1]
    );
    match read_packet(&mut Cursor::new(bytes.as_slice())).unwrap() {
        ProtocolPacket::Disconnect(p) => {
            assert_eq!(p.xor_salt, 1);
            assert_eq!(p.header.id(), PacketId(1));
            assert_eq!(p.header.ack_id(), Some(PacketId(9)));
            assert_eq!(p.header.acks().unwrap()[0], (9, true));
            assert_eq!(p.header.acks().unwrap()[1], (8, false));
        }
        p => panic!("{p:?}"),
    }
}

#[test]
fn bytes_of_typeless_headers() {
    let header = packet::PacketHeader::new_no_acks(PacketId(0x0102)).unwrap();
    let mut writer = WriteLimiter::new(Vec::new(), 100);
    header.write(&mut writer).unwrap();
    assert_eq!(writer.into_inner(), [0, 1, 2]);

    let header = packet::PacketHeader::new(PacketId(0x0102), &[(5, true)], 1).unwrap();
    let mut writer = WriteLimiter::new(Vec::new(), 100);
    header.write(&mut writer).unwrap();
    let bytes = writer.into_inner();
    assert_eq!(bytes, [2, 1, 2, 0, 5, 1]);
    assert_eq!(header.size(), bytes.len());
    let read = packet::PacketHeader::parse(&mut Cursor::new(&bytes)).unwrap();
    assert_eq!(read.id(), PacketId(0x0102));
    assert_eq!(read.ack_id(), Some(PacketId(5)));
    assert_eq!(read.acks(), header.acks());
}

#[test]
fn bytes_of_the_layer_below() {
    let mut buffer = BytesMut::new();
    // all ack bits but those of the lowest byte are set
    PacketHeader::new(0x0102, 0x0100, 0xFFFF_FF03).write(&mut buffer).unwrap();
    assert_eq!(buffer.as_ref(), &[0b10_0010, 2, 1, 2, 3]);
    let mut buffer = BytesMut::new();
    let header = PacketHeader::new(0x0302, 0x0101, 0x04030201);
    header.write(&mut buffer).unwrap();
    assert_eq!(buffer.as_ref(), &[0b01_1110, 2, 3, 1, 1, 1, 2, 3, 4]);
    assert_eq!(header.size(), 9);
    assert_eq!(PacketHeader::max_possible_size(), 9);
    let mut reader = buffer.freeze();
    assert_eq!(PacketHeader::parse(&mut reader).unwrap(), header);
    assert!(reader.is_empty());
}

#[test]
fn the_layer_below_adds_and_strips_headers() {
    let mut one = Endpoint::new(EndpointConfig::default(), SECOND);
    let mut two = Endpoint::new(EndpointConfig::default(), SECOND);
    let handle = one.send(Bytes::from_static(b"payload")).unwrap();
    assert_eq!(handle.0, 1);
    let packet = one.drain_packets_to_send().remove(0);
    assert_eq!(packet.as_ref(), b"\x3e\x01\x00\x01\x00\x00\x00\x00payload");
    let got = two.receive(packet).unwrap();
    assert_eq!(got.payload.as_ref(), b"payload");
    assert_eq!(got.handle, handle);
    assert!(got.acks.is_empty());
    // and the way back carries the ack
    two.send(Bytes::from_static(b"answer")).unwrap();
    let got = one.receive(two.drain_packets_to_send().remove(0)).unwrap();
    assert_eq!(got.acks, vec![handle]);
    assert!(one.sent_info(handle).unwrap().acked());
    assert_eq!(one.sent_info(handle).unwrap().size(), 7 + 28);
    assert_eq!(one.counters().packets_acked, 1);
    assert_eq!(one.take_rtt_samples(), vec![0]);
}

#[test]
fn small_maps() {
    let mut map: SmallMap<&str> = SmallMap::new();
    assert!(map.get(3).is_none());
    map.insert(3, "three");
    map.insert(200, "many");
    assert_eq!(map.get(3), Some(&"three"));
    map.insert(3, "drei");
    assert_eq!(map.get(3), Some(&"drei"));
    *map.get_mut(200).unwrap() = "viele";
    assert_eq!(map.get(200), Some(&"viele"));
    assert!(map.get(201).is_none());
}

#[test]
fn buffers_are_reused() {
    let configs = vec![
        PoolConfig { starting_size: 1, max_size: 2, buffer_capacity: 1000 },
        PoolConfig { starting_size: 1, max_size: 2, buffer_capacity: 100 },
    ];
    let mut pool = BufPool::new(configs);
    let first = pool.get_buffer(50);
    let id = first.id();
    assert!(first.as_slice().is_empty());
    let mut v = first.v;
    v.extend_from_slice(b"left over");
    pool.return_buffer(PooledBuffer::new(id, v));
    let again = pool.get_buffer(50);
    assert_eq!(again.id(), id);
    assert!(again.as_slice().is_empty());
    // the large ones are kept apart
    let large = pool.get_buffer(500);
    assert!(large.v.capacity() >= 1000);
    assert!(again.v.capacity() < 1000);
}
