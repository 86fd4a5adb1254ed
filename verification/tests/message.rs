use pickleback::buffer_pool::BufPool;
use pickleback::cursor::Cursor;
use pickleback::protocol::message::{Fragment, Fragmented, Message};
use pickleback::MessageId;

#[test]
fn message_serialization() {
    let mut pool = BufPool::empty();

    let payload1 = b"HELLO";
    let payload2 = b"FRAGMENTED";
    let payload3 = b"WORLD";
    let msg1 = Message::new_outbound(&mut pool, MessageId(1), 1, payload1, Fragmented::No);
    // the last fragment can be a small msg that rides along with other unfragmented messages:
    let fragment = Fragment { index: 0, num_fragments: 1, parent_id: MessageId(1) };
    let msg2 = Message::new_outbound(
        &mut pool,
        MessageId(3),
        5,
        payload2,
        Fragmented::Yes(fragment),
    );
    let msg3 = Message::new_outbound(&mut pool, MessageId(2), 16, payload3, Fragmented::No);

    let mut buffer = Vec::with_capacity(1500);
    buffer.extend_from_slice(msg1.as_slice());
    buffer.extend_from_slice(msg2.as_slice());
    buffer.extend_from_slice(msg3.as_slice());

    let incoming = Vec::from(buffer.as_slice());
    let mut cur = Cursor::new(incoming.as_ref());

    let recv_msg1 = Message::parse(&mut pool, &mut cur).unwrap();
    let recv_msg2 = Message::parse(&mut pool, &mut cur).unwrap();
    let recv_msg3 = Message::parse(&mut pool, &mut cur).unwrap();

    assert_eq!(cur.position(), incoming.len() as u64);

    assert_eq!(*recv_msg1.buffer(), payload1);
    assert_eq!(*recv_msg2.buffer(), payload2);
    assert_eq!(*recv_msg3.buffer(), payload3);

    assert_eq!(recv_msg3.id(), msg3.id());

    assert_eq!(recv_msg1.channel(), msg1.channel());
    assert_eq!(recv_msg2.channel(), msg2.channel());
    assert_eq!(recv_msg3.channel(), msg3.channel());

    assert!(recv_msg1.fragment().is_none());
    assert!(recv_msg2.fragment().is_some());
    assert_eq!(recv_msg2.fragment().unwrap().index, 0);
    assert_eq!(recv_msg2.fragment().unwrap().num_fragments, 1);
    assert!(recv_msg3.fragment().is_none());
}

#[test]
fn fragment_message_serialization() {
    let mut pool = BufPool::empty();

    // fragment messages (except the last) have a fixed size of 1024 bytes
    let payload = &[41; 1024];
    let fragment = Fragment { index: 0, num_fragments: 10, parent_id: MessageId(1) };
    let msg = Message::new_outbound(
        &mut pool,
        MessageId(0),
        0,
        payload,
        Fragmented::Yes(fragment),
    );

    let mut buffer = Vec::with_capacity(1500);
    buffer.extend_from_slice(msg.as_slice());

    let mut incoming = Cursor::new(buffer.as_ref());

    let recv_msg = Message::parse(&mut pool, &mut incoming).unwrap();

    assert_eq!(incoming.position(), buffer.len() as u64);

    assert_eq!(*recv_msg.buffer(), payload);
    assert!(recv_msg.fragment().is_some());
    assert_eq!(recv_msg.fragment().unwrap().index, 0);
    assert_eq!(recv_msg.fragment().unwrap().num_fragments, 10);
}
