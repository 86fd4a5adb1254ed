use pickleback::buffer_pool::BufPool;
use pickleback::channel::{ReliableChannel, UnreliableChannel};
use pickleback::dispatcher::MessageHandle;
use pickleback::protocol::message::Fragmented;
use pickleback::time::SECOND;
use pickleback::MessageId;

#[test]
fn unreliable_channel() {
    let mut pool = BufPool::empty();
    let mut channel = UnreliableChannel::new(0, SECOND);
    let payload = b"hello";
    channel.enqueue_message(&mut pool, MessageId(0), payload, Fragmented::No);
    assert!(channel.any_ready_to_send());
    assert!(channel.get_message_to_write_to_a_packet(999999).is_some());
    channel.update(SECOND);
    assert!(!channel.any_ready_to_send());
}

#[test]
fn reliable_channel() {
    let mut pool = BufPool::empty();
    let channel_id = 0;
    let mut channel = ReliableChannel::new(channel_id, SECOND);
    let payload = b"hello";
    let message_id = MessageId(123);
    channel.enqueue_message(&mut pool, message_id, payload, Fragmented::No);
    assert!(channel.any_ready_to_send());
    assert!(channel.get_message_to_write_to_a_packet(999999).is_some());
    // not empty, because non-acked
    assert!(!channel.any_ready_to_send());
    // advance enough time to trigger a resend
    channel.update(SECOND);
    assert!(channel.any_ready_to_send());
    assert!(channel.get_message_to_write_to_a_packet(999999).is_some());
    let handle = MessageHandle { id: message_id, frag_index: None, channel: channel_id };
    channel.message_ack_received(&handle);
    // advance enough time to trigger a resend
    channel.update(SECOND);
    // none available, the ack removed it
    assert!(!channel.any_ready_to_send());
}
