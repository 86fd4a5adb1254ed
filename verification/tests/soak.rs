use pickleback::prelude::{Backpressure, MessageId, PicklebackError};
use pickleback::testing::{random_payload_max_frags, JitterPipeConfig, MessageTestHarness};
use pickleback::time::SECOND;
use std::collections::HashMap;
use std::collections::HashSet;
use std::collections::VecDeque;

/// How many messages to send during soak tests:
const NUM_TEST_MSGS: usize = 100000;
/// If doing reliable sending over lossy pipe, how many extra ticks to mop up straggling acks:
const NUM_EXTRA_ITERATIONS: usize = 100;
/// Random payload size is selected to generate up to this many fragments:
const MAX_FRAGMENTS: u32 = 10;
/// How many payloads are drawn at random:
const NUM_PAYLOADS: usize = 2000;

/// Pre-generates payloads of varying sizes, many of which require fragmentation.
fn test_payloads() -> Vec<Vec<u8>> {
    (0..NUM_PAYLOADS).map(|_| random_payload_max_frags(MAX_FRAGMENTS)).collect()
}

/// The payload of message number `i`, which differs from those of the others.
fn test_msg(payloads: &[Vec<u8>], i: usize) -> Vec<u8> {
    let mut msg = payloads[i % payloads.len()].clone();
    for (byte, n) in msg.iter_mut().zip(i.to_le_bytes()) {
        *byte = n;
    }
    msg
}

#[test]
fn soak_message_transmission() {
    let channel = 0;
    let mut harness = MessageTestHarness::new(JitterPipeConfig::disabled());

    let payloads = test_payloads();
    let mut send_msgs_iter = (0..NUM_TEST_MSGS).map(|i| test_msg(&payloads, i));
    let mut in_flight_msgs = HashMap::<MessageId, Vec<u8>>::new();
    let mut sent_ids = VecDeque::new();

    'sending: loop {
        // Send up to num_to-  NB: check MAX_FRAGMENTS * this is under ack limit.
        let num_to_send = rand::random::<usize>() % 7;
        let mut num_sent = 0;

        for _ in 0..num_to_send {
            let Some(msg) = send_msgs_iter.next() else {
                if num_sent == 0 {
                    break 'sending;
                } else {
                    break;
                }
            };
            num_sent += 1;
            let msg_id = harness.server.send_message(channel, msg.as_ref()).unwrap();
            in_flight_msgs.insert(msg_id, msg);
            sent_ids.push_back(msg_id);
        }

        harness.advance(30 * SECOND / 1000).unwrap();

        let client_received_messages = harness.client.drain_received_messages(channel);

        // acks not guaranteed to be reported in same order they were sent - using hashset.
        let acks = harness.server.drain_message_acks(channel).into_iter().collect::<HashSet<_>>();

        assert_eq!(
            client_received_messages.len(),
            num_sent,
            "didn't receive all the messages sent this tick"
        );

        for recv_msg in client_received_messages.iter() {
            let rec = recv_msg.payload_to_owned();
            if let Some(expected) = in_flight_msgs.remove(&recv_msg.id()) {
                assert!(expected == rec, "payload doesn't match");
            } else {
                panic!("{:?} not found in sent msgs, payload: {rec:?}", recv_msg.id());
            }
            assert!(acks.contains(&sent_ids.pop_front().unwrap()), "ack mismatch");
        }
        harness.client.return_messages(client_received_messages);
    }
}

/// Whether two numbers are the same, but for a part of the larger one.
fn relative_eq(a: f32, b: f32, epsilon: f32) -> bool {
    let max = a.abs().max(b.abs());
    (a - b).abs() / max <= epsilon
}

#[test]
fn soak_reliable_message_transmission_with_terrible_network() {
    let channel = 1;
    let mut harness = MessageTestHarness::new(JitterPipeConfig::terrible());

    let payloads = test_payloads();
    let mut test_msgs = (0..NUM_TEST_MSGS).map(|i| test_msg(&payloads, i));
    let mut next_msg = test_msgs.next();

    let mut unacked_sent_msg_ids = Vec::new();

    let mut num_client_received_messages = 0;

    let mut i = 0;
    while i < NUM_TEST_MSGS + NUM_EXTRA_ITERATIONS {
        if let Some(msg) = &next_msg {
            match harness.server.send_message(channel, msg.as_ref()) {
                Ok(msg_id) => {
                    unacked_sent_msg_ids.push(msg_id);
                    next_msg = test_msgs.next();
                    i += 1;
                }
                Err(PicklebackError::Backpressure(Backpressure::TooManyPending)) => {}
                Err(e) => panic!("Unhandled send error {e:?}"),
            }
        } else {
            i += 1;
        }

        harness.advance(51 * SECOND / 1000).unwrap();

        let acked_ids = harness.collect_server_acks(channel);
        if !acked_ids.is_empty() {
            unacked_sent_msg_ids.retain(|id| !acked_ids.contains(id));
        }

        let received = harness.client.drain_received_messages(channel);
        num_client_received_messages += received.len();
        harness.client.return_messages(received);
    }

    assert_eq!(
        Vec::<MessageId>::new(),
        unacked_sent_msg_ids,
        "server is missing acks for these messages"
    );

    // with enough extra iterations, resends should have ensured everything was received.
    assert_eq!(num_client_received_messages, NUM_TEST_MSGS);

    // Testing the test harness here for good measure.
    //
    // Make sure observed loss/dupe/jittered roughly match values configured in JitterPipe
    let server_sp = harness.server.stats().packets_sent;
    let client_rp = harness.client.stats().packets_received;
    let observed_packet_loss = (server_sp - client_rp) as f32 / server_sp as f32;
    let configured_packet_loss =
        harness.server_jitter_pipe.config_mut().drop_chance as f32 / 1_000_000.0;
    println!("Observed packet loss: {observed_packet_loss} configured: {configured_packet_loss}");
    // ensure packetloss within some% of configured value during test
    assert!(relative_eq(observed_packet_loss, configured_packet_loss, 0.5));

    let observed_dupe = harness.client.stats().packets_duplicate as f32 / server_sp as f32;
    let configured_dupe =
        harness.server_jitter_pipe.config_mut().duplicate_chance as f32 / 1_000_000.0;
    println!("Observed duplicate rate: {observed_dupe} configured: {configured_dupe}");
    assert!(relative_eq(observed_dupe, configured_dupe, 0.5));

    println!("Server Stats: {:?}", harness.server.stats());
    println!("Client Stats: {:?}", harness.client.stats());
    println!("Test harness transmission stats: {:?}", harness.stats);
}
