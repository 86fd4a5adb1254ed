use pickleback::protocol::ack_header::{AckHeader, MAX_UNACKED_PACKETS};

fn mk_acks(len: u16) -> Vec<(u16, bool)> {
    let start = rand::random::<u16>();
    let mut v = vec![(start, true)];
    for i in 1..len {
        let id = start.wrapping_sub(i);
        let is_acked = rand::random::<bool>();
        v.push((id, is_acked));
    }
    v
}

#[test]
fn ack_header() {
    for i in 0..1000 {
        let len = i % MAX_UNACKED_PACKETS;
        // always send multiple of 7 acks, due to encoding format
        let len = ((len as f32 / 7.0).ceil() * 7.) as u16;
        let len = len.max(7);
        let acks = mk_acks(len);
        let header = AckHeader::from_ack_iter(acks.len() as u16, acks.as_slice()).unwrap();
        let decoded = header.into_acks();
        assert_eq!(decoded, acks, "ack mismatch, len was {len}");
    }
}
