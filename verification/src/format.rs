//! What stands where in packets and messages as they go over the network.

use crate::cursor;
use crate::delivery;
use crate::error::PicklebackError;
use crate::protocol::ack_header::{self, AckField};
use crate::protocol::message::{self, MessageView};
use crate::protocol::packets::{self, PacketBody, PacketView};
use crate::protocol::DisconnectReason;
use crate::wire;
use vstd::prelude::*;

verus! {

/// The number that two bytes of `s` spell, the first of them at `i`.
pub open spec fn number_at(s: Seq<u8>, i: int) -> int {
    s[i] * 256 + s[i + 1]
}

proof fn lemma_two_bytes(n: u16)
    ensures
        wire::be_bytes(n as nat, 2).len() == 2,
        number_at(wire::be_bytes(n as nat, 2), 0) == n,
{
    reveal_with_fuel(wire::be_bytes, 3);
    assert(wire::be_bytes(n as nat, 2) =~= seq![(n / 256) as u8, (n % 256) as u8]);
}

/// The number that says what kind of packet it is.
pub open spec fn kind_of(body: PacketBody) -> int {
    match body {
        PacketBody::ConnectionRequest { .. } => 1,
        PacketBody::ConnectionChallenge { .. } => 2,
        PacketBody::ConnectionChallengeResponse { .. } => 3,
        PacketBody::ConnectionDenied { .. } => 4,
        PacketBody::Messages { .. } => 5,
        PacketBody::Disconnect { .. } => 6,
        PacketBody::KeepAlive { .. } => 7,
    }
}

/// The bytes of a body: its numbers, one after the other, or the number of a reason.
pub open spec fn body_bytes(body: PacketBody) -> Seq<u8> {
    match body {
        PacketBody::ConnectionRequest { client_salt, protocol_version } => wire::be_bytes(
            client_salt as nat,
            8,
        ) + wire::be_bytes(protocol_version as nat, 8),
        PacketBody::ConnectionChallenge { client_salt, server_salt } => wire::be_bytes(
            client_salt as nat,
            8,
        ) + wire::be_bytes(server_salt as nat, 8),
        PacketBody::ConnectionChallengeResponse { xor_salt } => wire::be_bytes(xor_salt as nat, 8),
        PacketBody::ConnectionDenied { reason } => seq![
            match reason {
                DisconnectReason::Normal => 0u8,
                DisconnectReason::ProtocolMismatch => 1,
                DisconnectReason::HandshakeTimeout => 2,
                DisconnectReason::TimedOut => 3,
                DisconnectReason::ServerFull => 4,
            },
        ],
        PacketBody::Messages { xor_salt } => wire::be_bytes(xor_salt as nat, 8),
        PacketBody::Disconnect { xor_salt } => wire::be_bytes(xor_salt as nat, 8),
        PacketBody::KeepAlive { xor_salt, client_index } => wire::be_bytes(xor_salt as nat, 8)
            + wire::be_bytes(client_index as nat, 4),
    }
}

/// A packet starts with a byte that says of what kind it is and, in its highest bit, whether there
/// are acks. Its number follows in two bytes and, if there are acks, the number of the most recent
/// packet in two more, and the bytes that hold the bits. Then comes the body and, behind a request,
/// a challenge or an answer to one, 500 bytes of zeros.
pub proof fn lemma_packet_bytes(p: PacketView)
    requires
        p.wf(),
    ensures
        ({
            let s = p.encoded();
            let start: int = match p.header.ack {
                Some(ack) => 5 + ack.bytes.len() as int,
                None => 3,
            };
            let padded = 1 <= kind_of(p.body) <= 3;
            &&& s[0] % 128 == kind_of(p.body)
            &&& s[0] >= 128 <==> p.header.ack is Some
            &&& number_at(s, 1) == p.header.id.0
            &&& p.header.ack matches Some(ack) ==> number_at(s, 3) == ack.ack_id.0
                && s.subrange(5, 5 + ack.bytes.len() as int) == ack.bytes
            &&& s.subrange(start, start + body_bytes(p.body).len()) == body_bytes(p.body)
            &&& s.len() == start + body_bytes(p.body).len() + if padded {
                500int
            } else {
                0
            }
            &&& forall|i: int|
                start + body_bytes(p.body).len() <= i < s.len() ==> #[trigger] s[i] == 0
        }),
{
    broadcast use wire::lemma_be_bytes_len;

    let s = p.encoded();
    let body = body_bytes(p.body);
    lemma_two_bytes(p.header.id.0);
    assert(p.body.encoded() =~= body);
    let id = wire::be_bytes(p.header.id.0 as nat, 2);
    assert(s[1] == id[0] && s[2] == id[1]);
    match p.header.ack {
        Some(ack) => {
            lemma_two_bytes(ack.ack_id.0);
            let most = wire::be_bytes(ack.ack_id.0 as nat, 2);
            let start = 5 + ack.bytes.len() as int;
            assert(s[3] == most[0] && s[4] == most[1]);
            assert(s.subrange(5, start) =~= ack.bytes);
            assert(s.subrange(start, start + body.len()) =~= body);
        },
        None => {
            assert(s.subrange(3, 3 + body.len() as int) =~= body);
        },
    }
}

/// A packet with padding behind it is not read if there is more or less of that than there should
/// be.
pub proof fn lemma_padding_counts(p: PacketView, rest: Seq<u8>)
    requires
        p.wf(),
        1 <= kind_of(p.body) <= 3,
    ensures
        packets::parse_packet(p.header.encoded() + p.body.encoded() + rest) is Ok <==> rest.len()
            == 500,
{
    packets::lemma_parse_packet_header(p.header, p.body.encoded() + rest);
    assert(p.header.encoded() + p.body.encoded() + rest =~= p.header.encoded() + (p.body.encoded()
        + rest));
    lemma_padded_body(p.body, rest);
}

proof fn lemma_padded_body(body: PacketBody, rest: Seq<u8>)
    requires
        1 <= kind_of(body) <= 3,
    ensures
        packets::parse_body(body.encoded() + rest, body.packet_type()) is Ok <==> rest.len() == 500,
{
    match body {
        PacketBody::ConnectionRequest { client_salt: a, protocol_version: b } => {
            lemma_two_numbers(a, b, rest);
        },
        PacketBody::ConnectionChallenge { client_salt: a, server_salt: b } => {
            lemma_two_numbers(a, b, rest);
        },
        PacketBody::ConnectionChallengeResponse { xor_salt: a } => {
            wire::lemma_be_round_trip_fixed(0, 0, a);
            cursor::lemma_parse_uint(a as nat, 8, rest);
        },
        _ => {},
    }
}

proof fn lemma_two_numbers(a: u64, b: u64, rest: Seq<u8>)
    ensures
        packets::parse_pair(
            wire::be_bytes(a as nat, 8) + wire::be_bytes(b as nat, 8) + rest,
            8,
            8,
        ) == Ok::<_, PicklebackError>(((a as nat, b as nat), rest)),
{
    let (x, y) = (wire::be_bytes(a as nat, 8), wire::be_bytes(b as nat, 8));
    wire::lemma_be_round_trip_fixed(0, 0, a);
    wire::lemma_be_round_trip_fixed(0, 0, b);
    cursor::lemma_parse_uint(a as nat, 8, y + rest);
    cursor::lemma_parse_uint(b as nat, 8, rest);
    assert(x + y + rest =~= x + (y + rest));
}

/// What cannot be a packet is not read: anything of fewer than three bytes, or that starts with a
/// byte that stands for no kind of packet.
pub proof fn lemma_not_a_packet(s: Seq<u8>)
    requires
        s.len() < 3 || s[0] % 128 == 0 || s[0] % 128 > 7,
    ensures
        packets::parse_packet(s) is Err,
{
}

/// The bits of an ack byte, from the least significant up.
pub proof fn lemma_ack_bits(b: u8)
    ensures
        ack_header::bit(b, 0) == (b % 2 == 1),
        ack_header::bit(b, 1) == (b / 2 % 2 == 1),
        ack_header::bit(b, 2) == (b / 4 % 2 == 1),
        ack_header::bit(b, 3) == (b / 8 % 2 == 1),
        ack_header::bit(b, 4) == (b / 16 % 2 == 1),
        ack_header::bit(b, 5) == (b / 32 % 2 == 1),
        ack_header::bit(b, 6) == (b / 64 % 2 == 1),
        ack_header::bit(b, 7) == (b >= 128),
{
    assert(((b >> 0u8) & 1 == 1) == (b % 2 == 1) && ((b >> 1u8) & 1 == 1) == (b / 2 % 2 == 1) && ((b
        >> 2u8) & 1 == 1) == (b / 4 % 2 == 1) && ((b >> 3u8) & 1 == 1) == (b / 8 % 2 == 1) && ((b
        >> 4u8) & 1 == 1) == (b / 16 % 2 == 1) && ((b >> 5u8) & 1 == 1) == (b / 32 % 2 == 1) && ((b
        >> 6u8) & 1 == 1) == (b / 64 % 2 == 1) && ((b >> 7u8) & 1 == 1) == (b >= 128))
        by (bit_vector);
}

/// The entries of an ack header: seven for each byte up to the first whose highest bit is not set,
/// for the packets from the most recent one back.
pub proof fn lemma_ack_entries(f: AckField, n: nat)
    requires
        0 < n <= f.bytes.len(),
        forall|i: int| 0 <= i < n - 1 ==> (#[trigger] f.bytes[i]) >= 128,
        n < f.bytes.len() ==> f.bytes[n - 1] < 128,
    ensures
        f.entries().len() == 7 * n,
        forall|i: int|
            0 <= i < 7 * n ==> (#[trigger] f.entries()[i]).0 == (f.ack_id.0 - i) % 0x1_0000
                && f.entries()[i].1 == ack_header::bit(f.bytes[i / 7], i % 7),
{
    lemma_live(f, n, 0);
}

proof fn lemma_live(f: AckField, n: nat, from: int)
    requires
        0 <= from < n <= f.bytes.len(),
        forall|i: int| 0 <= i < n - 1 ==> (#[trigger] f.bytes[i]) >= 128,
        n < f.bytes.len() ==> f.bytes[n - 1] < 128,
    ensures
        f.live_bytes(from) == n - from,
    decreases n - from,
{
    lemma_ack_bits(f.bytes[from]);
    if from < n - 1 {
        assert(f.bytes[from] >= 128);
        lemma_live(f, n, from + 1);
    } else if n == f.bytes.len() {
        assert(f.live_bytes(from + 1) == 0);
    }
}

/// A message starts with a byte that says in its lowest bit whether it is a fragment, in the next
/// one whether numbers take two bytes rather than one, and in the highest five bits which channel it
/// is on. Its id follows in two bytes. A fragment then says which one it is, out of how many. The
/// length of the payload follows, unless it is a fragment that is not the last one, and then the
/// payload itself.
pub proof fn lemma_message_bytes(m: MessageView, channel: u8, payload: Seq<u8>)
    requires
        delivery::carries(m, channel, payload),
    ensures
        ({
            let s = m.bytes;
            let large = payload.len() > 255 || (m.fragment matches Some(f) && f.num_fragments > 255);
            let width: int = if large {
                2
            } else {
                1
            };
            &&& s[0] % 2 == 1 <==> m.fragment is Some
            &&& s[0] / 2 % 2 == 1 <==> large
            &&& s[0] / 8 == channel
            &&& number_at(s, 1) == m.id.0
            &&& s.skip(s.len() - payload.len()) == payload
            &&& m.fragment is None ==> {
                &&& s.len() == 3 + width + payload.len()
                &&& !large ==> s[3] == payload.len()
                &&& large ==> number_at(s, 3) == payload.len()
            }
            &&& m.fragment matches Some(f) ==> {
                let last = f.index == f.num_fragments - 1;
                &&& s.len() == 3 + 2 * width + (if last {
                    2int
                } else {
                    0
                }) + payload.len()
                &&& !large && f.index <= 255 ==> s[3] == f.index && s[4] == f.num_fragments
                &&& large ==> number_at(s, 3) == f.index && number_at(s, 5) == f.num_fragments
                &&& last ==> number_at(s, 3 + 2 * width) == payload.len()
            }
        }),
{
    broadcast use wire::lemma_be_bytes_len;

    let s = m.bytes;
    let len = payload.len() as u16;
    let id = wire::be_bytes(m.id.0 as nat, 2);
    lemma_two_bytes(m.id.0);
    lemma_two_bytes(len);
    let mode = message::size_mode_for(payload.len(), m.fragment);
    let head = message::message_header(m.id, m.fragment, mode, channel, len);
    assert(s == head + payload);
    assert(s.skip(head.len() as int) =~= payload);
    assert(s[1] == id[0] && s[2] == id[1]);
    let l = wire::be_bytes(len as nat, 2);
    match m.fragment {
        None => {
            if payload.len() > 255 {
                assert(s[3] == l[0] && s[4] == l[1]);
            }
        },
        Some(f) => {
            lemma_two_bytes(f.index);
            lemma_two_bytes(f.num_fragments);
            let a = wire::be_bytes(f.index as nat, 2);
            let b = wire::be_bytes(f.num_fragments as nat, 2);
            let numbers = f.numbers(mode);
            if payload.len() > 255 || f.num_fragments > 255 {
                assert(s[3] == a[0] && s[4] == a[1] && s[5] == b[0] && s[6] == b[1]);
                if f.last() {
                    assert(s[7] == l[0] && s[8] == l[1]);
                }
            } else if f.last() {
                assert(s[5] == l[0] && s[6] == l[1]);
            }
        },
    }
}

} // verus!
