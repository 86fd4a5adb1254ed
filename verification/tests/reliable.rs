use bytes::{Bytes, BytesMut};
use pickleback::reliable::error::ReliableError;
use pickleback::reliable::headers::{HeaderParser, PacketHeader};
use pickleback::reliable::{Endpoint, EndpointConfig, SentHandle};
use pickleback::time::SECOND;

#[test]
fn duplicates_dropped() {
    let mut server = Endpoint::new(EndpointConfig::default(), SECOND);
    let mut client = Endpoint::new(EndpointConfig::default(), SECOND);
    let payload = Bytes::from_static(b"hello");
    let SentHandle(seq) = server.send(payload.clone()).unwrap();

    let to_send = server.drain_packets_to_send();
    assert_eq!(to_send.len(), 1);

    println!("Sending first copy of packet");
    let rp = client.receive(to_send[0].clone()).unwrap();
    assert_eq!(rp.handle.0, seq);
    assert_eq!(rp.payload, payload);

    // send dupe
    println!("Sending second (dupe) copy of packet");
    match client.receive(to_send[0].clone()) {
        Err(ReliableError::DuplicatePacket) => {}
        e => {
            panic!("Should be dupe packet error, got: {:?}", e);
        }
    }
}

const TEST_ACKS_NUM_ITERATIONS: usize = 200;

#[test]
fn mod_acks() {
    let time = 100 * SECOND;
    let test_data = Bytes::copy_from_slice(&[0x41; 24]); // "AAA..."

    let mut one = Endpoint::new(EndpointConfig::default(), time);
    let mut two = Endpoint::new(EndpointConfig::default(), time);

    let delta_time = SECOND / 100;
    let mut one_sent = Vec::new();
    let mut two_sent = Vec::new();

    for _ in 0..TEST_ACKS_NUM_ITERATIONS {
        println!("tick..");
        // Send test packets
        let handle1 = one.send(test_data.clone()).unwrap();
        let handle2 = two.send(test_data.clone()).unwrap();

        one_sent.push(handle1);
        two_sent.push(handle2);

        // forward packets to their endpoints
        one.drain_packets_to_send().into_iter().for_each(|packet| {
            println!("Sending one -> two: {packet:?}");
            let rp = two.receive(packet).unwrap();
            println!("two received: {rp:?}");
            assert_eq!(test_data, rp.payload);
        });
        assert!(!one.has_packets_to_send());
        two.drain_packets_to_send().into_iter().for_each(|packet| {
            println!("Sending two -> one: {packet:?}");
            let rp = one.receive(packet).unwrap();
            println!("one received: {rp:?}");
            assert_eq!(test_data, rp.payload);
        });
        assert!(!two.has_packets_to_send());

        one.update(delta_time);
        two.update(delta_time);
    }
}

#[test]
fn mod_packet_header() {
    let write_sequence = 10000;
    let write_ack = 100;
    let write_ack_bits = 123;

    let mut buffer = BytesMut::new();

    let write_packet = PacketHeader::new(write_sequence, write_ack, write_ack_bits);
    write_packet.write(&mut buffer).unwrap();

    let mut reader = Bytes::copy_from_slice(buffer.as_ref());
    let read_packet = PacketHeader::parse(&mut reader).unwrap();

    assert_eq!(write_packet.sequence(), read_packet.sequence());
    assert_eq!(write_packet.ack(), read_packet.ack());
    assert_eq!(write_packet.ack_bits(), read_packet.ack_bits());
}
