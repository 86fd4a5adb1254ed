//! A test harness for two endpoints.

use super::TransmissionStats;
use crate::channel;
use crate::config::ConfigView;
use crate::cursor::Cursor;
use crate::dispatcher::DispatcherView;
use crate::endpoint::{self, EndpointView, Filling};
use crate::error::PicklebackError;
use crate::jitter_pipe::{Draws, JitterPipe, JitterPipeConfig, PipeView};
use crate::pickleback::{self, Pickleback};
use crate::protocol::ack_header::MAX_UNACKED_PACKETS;
use crate::protocol::message;
use crate::protocol::packets::{self, HeaderView, PacketType, ProtocolPacket};
use crate::received_message::ReceivedMessage;
use crate::time::{self, Time};
use crate::{delivery, wire, MessageId, PicklebackStats};
use vstd::prelude::*;

verus! {

/// The bytes of the packets in a pipe.
pub open spec fn pipe_bytes(pipe: PipeView<Vec<u8>>) -> PipeView<Seq<u8>> {
    pipe.mapped(|v: Vec<u8>| v@)
}

/// The bytes of packets.
pub open spec fn packet_bytes(packets: Seq<Vec<u8>>) -> Seq<Seq<u8>> {
    packets.map_values(|v: Vec<u8>| v@)
}

/// Puts packets into a pipe, except those of which the numbers are in `lost`. Returns how many there
/// were.
fn feed(pipe: &mut JitterPipe<Vec<u8>>, packets: &Vec<Vec<u8>>, lost: &Vec<u32>) -> (r: u32)
    ensures
        r == super::counted(0, packets@.len()),
        exists|draws: Seq<Draws>|
            {
                &&& super::all_drawn(draws, packets@.len())
                &&& pipe_bytes(final(pipe)@) == #[trigger] super::fed(
                    pipe_bytes(old(pipe)@),
                    packet_bytes(packets@),
                    lost@,
                    draws,
                    0,
                )
            },
{
    let ghost bytes = |v: Vec<u8>| v@;
    let ghost all = packets@.map_values(bytes);
    let ghost mut draws: Seq<Draws> = Seq::empty();
    let mut sent: u32 = 0;
    let mut i: usize = 0;
    assert(all.take(0) =~= Seq::empty());
    while i < packets.len()
        invariant
            i <= packets@.len(),
            sent == super::counted(0, i as nat),
            bytes == (|v: Vec<u8>| v@),
            all == packets@.map_values(bytes),
            super::all_drawn(draws, i as nat),
            pipe_bytes(pipe@) == super::fed(
                pipe_bytes(old(pipe)@),
                all.take(i as int),
                lost@,
                draws,
                0,
            ),
        decreases packets@.len() - i,
    {
        let ghost before = pipe@;
        let ghost drawn = Draws { drop: 0, duplicate: 0, duplicate_jitter: 0, jitter: 0 };
        let ghost old_draws = draws;
        if !super::is_in(
            lost,
            #[verifier::truncate]
            (i as u32),
        ) {
            let packet = packets[i].clone();
            assert(packet@ =~= packets@[i as int]@);
            pipe.insert(packet);
            proof {
                let (copy, d) = choose|copy: Vec<u8>, d: Draws|
                    {
                        &&& d.valid()
                        &&& before.config.duplicates(d.duplicate) ==> cloned(packet, copy)
                        &&& pipe@ == #[trigger] before.inserted(packet, copy, d)
                    };
                before.lemma_mapped(bytes, packet, copy, d);
                if before.config.duplicates(d.duplicate) {
                    assert(copy@ =~= packet@);
                } else {
                    assert(pipe_bytes(before).inserted(packet@, copy@, d) == pipe_bytes(
                        before,
                    ).inserted(packet@, packet@, d));
                }
                draws = draws.push(d);
                assert(all[i as int] == packet@);
            }
        } else {
            proof {
                draws = draws.push(drawn);
            }
        }
        proof {
            super::lemma_fed_split(
                pipe_bytes(old(pipe)@),
                all.take(i as int),
                lost@,
                old_draws,
                seq![draws.last()],
                0,
            );
            assert(old_draws + seq![draws.last()] =~= draws);
            super::lemma_fed_push(pipe_bytes(old(pipe)@), all, lost@, draws, 0, i as int);
        }
        sent = sent.wrapping_add(1);
        i = i + 1;
    }
    assert(all.take(i as int) =~= packet_bytes(packets@));
    assert(pipe_bytes(pipe@) == super::fed(
        pipe_bytes(old(pipe)@),
        packet_bytes(packets@),
        lost@,
        draws,
        0,
    ));
    sent
}

/// Tells packets of messages from others.
pub open spec fn of_messages() -> spec_fn(Seq<u8>) -> bool {
    |bytes: Seq<u8>| holds_messages(bytes)
}

/// Whether a packet is one of messages.
#[verifier::opaque]
pub open spec fn holds_messages(bytes: Seq<u8>) -> bool {
    packets::parse_packet(bytes) matches Ok((p, _)) && p.body is Messages
}

/// Whether all packets that an endpoint is to send are of messages, and more can be composed.
pub open spec fn sends_messages(e: EndpointView) -> bool {
    &&& e.xor_salt is Some
    &&& forall|i: int| 0 <= i < e.outbox.len() ==> of_messages()(#[trigger] e.outbox[i])
}

/// An endpoint after a packet of messages was received. What is wrong with it is let be.
#[verifier::opaque]
pub open spec fn one_taken(e: EndpointView, bytes: Seq<u8>) -> EndpointView {
    let (packet, rest) = packets::parse_packet(bytes)->Ok_0;
    e.packet_received(packet.header, rest).state
}

/// An endpoint after all packets in a pipe were taken out and received.
pub open spec fn all_taken(e: EndpointView, pipe: PipeView<Seq<u8>>) -> EndpointView
    decreases pipe.items.len(),
{
    if pipe.items.len() == 0 {
        e
    } else {
        proof {
            pipe.lemma_next();
        }
        all_taken(one_taken(e, pipe.items[pipe.next()].1), pipe.taken())
    }
}

/// The bytes of the packet that comes out of a pipe next, and of those that are left.
proof fn lemma_taken_bytes(pipe: PipeView<Vec<u8>>)
    requires
        pipe.items.len() > 0,
    ensures
        pipe_bytes(pipe).items.len() == pipe.items.len(),
        pipe_bytes(pipe).items[pipe_bytes(pipe).next()].1 == pipe.items[pipe.next()].1@,
        pipe_bytes(pipe.taken()) == pipe_bytes(pipe).taken(),
{
    let m = pipe.items[0].1;
    let draws = Draws { drop: 0, duplicate: 0, duplicate_jitter: 0, jitter: 0 };
    pipe.lemma_mapped(|v: Vec<u8>| v@, m, m, draws);
}

/// Has an endpoint receive a packet of messages.
fn receive_messages(endpoint: &mut Pickleback, packet: &Vec<u8>)
    requires
        old(endpoint).wf(),
        of_messages()(packet@),
    ensures
        final(endpoint).wf(),
        final(endpoint)@ == one_taken(old(endpoint)@, packet@),
{
    proof {
        reveal(one_taken);
        reveal(holds_messages);
    }
    let mut reader = Cursor::new(packet.as_slice());
    if let Ok(ProtocolPacket::Messages(m)) = packets::read_packet(&mut reader) {
        let _ = endpoint.process_incoming_packet(&m.header, &mut reader);
    }
}

/// Takes all packets out of a pipe, and has an endpoint receive them. Returns how many there were.
fn deliver(endpoint: &mut Pickleback, pipe: &mut JitterPipe<Vec<u8>>) -> (r: u32)
    requires
        old(endpoint).wf(),
        super::all_in_pipe(pipe_bytes(old(pipe)@), of_messages()),
    ensures
        final(endpoint).wf(),
        final(endpoint)@ == all_taken(old(endpoint)@, pipe_bytes(old(pipe)@)),
        pipe_bytes(final(pipe)@) == super::drained_pipe(pipe_bytes(old(pipe)@)),
        r == super::counted(0, old(pipe)@.items.len()),
{
    let ghost total = pipe@.items.len();
    let mut received: u32 = 0;
    loop
        invariant
            endpoint.wf(),
            super::all_in_pipe(pipe_bytes(pipe@), of_messages()),
            pipe@.items.len() <= total,
            received == super::counted(0, (total - pipe@.items.len()) as nat),
            all_taken(endpoint@, pipe_bytes(pipe@)) == all_taken(
                old(endpoint)@,
                pipe_bytes(old(pipe)@),
            ),
            super::drained_pipe(pipe_bytes(pipe@)) == super::drained_pipe(pipe_bytes(old(pipe)@)),
            total == old(pipe)@.items.len(),
        ensures
            endpoint.wf(),
            endpoint@ == all_taken(old(endpoint)@, pipe_bytes(old(pipe)@)),
            pipe_bytes(pipe@) == super::drained_pipe(pipe_bytes(old(pipe)@)),
            received == super::counted(0, total),
        decreases pipe@.items.len(),
    {
        let ghost before = pipe@;
        proof {
            if before.items.len() > 0 {
                lemma_taken_bytes(before);
                super::lemma_taken_ok(pipe_bytes(before), of_messages());
            }
        }
        match pipe.take_next() {
            None => {
                assert(pipe_bytes(pipe@) =~= super::drained_pipe(pipe_bytes(pipe@)));
                break ;
            },
            Some(packet) => {
                received = received.wrapping_add(1);
                receive_messages(endpoint, &packet);
            },
        }
    }
    received
}

proof fn lemma_acks_keep_outbox(
    e: EndpointView,
    entries: Seq<(u16, bool)>,
    n: int,
)
    ensures
        e.acks_noted(entries, n).outbox == e.outbox,
        e.acks_noted(entries, n).xor_salt == e.xor_salt,
    decreases n,
{
    if n > 0 {
        lemma_acks_keep_outbox(e, entries, n - 1);
    }
}

proof fn lemma_messages_keep_outbox(e: EndpointView, s: Seq<u8>)
    ensures
        e.messages_received(s).state.outbox == e.outbox,
        e.messages_received(s).state.xor_salt == e.xor_salt,
    decreases s.len(),
{
    if s.len() > 0 {
        if let Ok((m, rest)) = message::parse_message(s) {
            message::lemma_parse_consumes(s);
            lemma_messages_keep_outbox(e.message_received(m), rest);
        }
    }
}

/// Receiving a packet leaves the packets that are to be sent alone.
proof fn lemma_received_keeps_outbox(e: EndpointView, header: HeaderView, rest: Seq<u8>)
    ensures
        e.packet_received(header, rest).state.outbox == e.outbox,
        e.packet_received(header, rest).state.xor_salt == e.xor_salt,
{
    let counted = EndpointView {
        stats: PicklebackStats {
            packets_received: e.stats.packets_received.wrapping_add(1),
            ..e.stats
        },
        received: e.received.inserted(header.id.0, e.received_meta(header, rest)),
        ..e
    };
    if let Some(ack) = header.ack {
        lemma_acks_keep_outbox(
            counted,
            ack.entries(),
            ack.entries().len() as int,
        );
    }
    lemma_messages_keep_outbox(e.packet_noted(header, rest), rest);
}

proof fn lemma_taken_keeps_outbox(e: EndpointView, pipe: PipeView<Seq<u8>>)
    ensures
        all_taken(e, pipe).outbox == e.outbox,
        all_taken(e, pipe).xor_salt == e.xor_salt,
    decreases pipe.items.len(),
{
    if pipe.items.len() > 0 {
        pipe.lemma_next();
        let bytes = pipe.items[pipe.next()].1;
        let (packet, rest) = packets::parse_packet(bytes)->Ok_0;
        assert(one_taken(e, bytes).outbox == e.outbox && one_taken(e, bytes).xor_salt == e.xor_salt)
            by {
            reveal(one_taken);
            lemma_received_keeps_outbox(e, packet.header, rest);
        }
        lemma_taken_keeps_outbox(one_taken(e, bytes), pipe.taken());
    }
}

proof fn lemma_with_channel_extends(f: Filling, id: u8)
    requires
        endpoint::channels_wf(f.channels),
        f.channels.contains_key(id),
    ensures
        f.out.out.is_prefix_of(f.with_channel(id).out.out),
    decreases f.out.room,
{
    if let Some(i) = f.channels[id].first_fit(f.out.room, 0) {
        f.lemma_with_message(id);
        let next = f.with_message(id, i);
        assert(f.out.out.is_prefix_of(next.out.out));
        if next.out.room >= 3 {
            lemma_with_channel_extends(next, id);
        }
    }
}

proof fn lemma_filled_extends(f: Filling)
    requires
        endpoint::channels_wf(f.channels),
    ensures
        f.out.out.is_prefix_of(f.filled().out.out),
    decreases f.out.room,
{
    if let Some(id) = channel::first_ready(f.channels, 0) {
        channel::lemma_first_ready(f.channels, 0);
        f.lemma_with_channel(id);
        lemma_with_channel_extends(f, id);
        let next = f.with_channel(id);
        if !(next.handles.len() == f.handles.len() || next.out.room < 3) {
            lemma_filled_extends(next);
        }
    }
}

proof fn lemma_parses_as_messages(header: HeaderView, xor_salt: u64, rest: Seq<u8>)
    requires
        header.packet_type == PacketType::Messages,
        header.ack matches Some(ack) ==> ack.canonical(),
    ensures
        holds_messages(header.encoded() + wire::be_bytes(xor_salt as nat, 8) + rest),
{
    reveal(holds_messages);
    packets::lemma_parse_messages(header, xor_salt, rest);
}

/// What starts like a packet of messages is one.
proof fn lemma_head_of_messages(e: EndpointView, header: HeaderView, bytes: Seq<u8>)
    requires
        e.header(PacketType::Messages) == Ok::<_, PicklebackError>(header),
        e.messages_head(header).is_prefix_of(bytes),
    ensures
        of_messages()(bytes),
{
    assert(header.packet_type == PacketType::Messages && (header.ack matches Some(ack)
        ==> ack.canonical())) by {
        delivery::lemma_header(e, PacketType::Messages);
    }
    let head = e.messages_head(header);
    let rest = bytes.skip(head.len() as int);
    assert(bytes =~= head + rest);
    lemma_parses_as_messages(header, e.xor_salt->0, rest);
}

proof fn lemma_packet_of_messages(e: EndpointView)
    requires
        e.wf(),
        sends_messages(e),
    ensures
        sends_messages(e.packet_composed().state),
{
    reveal(EndpointView::packet_composed);
    let begun = e.next_begun();
    let next = e.packet_composed().state;
    if e.sent_unacked() < MAX_UNACKED_PACKETS {
        if let Ok(header) = begun.header(PacketType::Messages) {
            let start = e.next_filling();
            if start.out.out.len() <= e.config.max_packet_size {
                lemma_filled_extends(start);
                lemma_head_of_messages(begun, header, start.filled().out.out);
            }
        }
    }
    assert forall|i: int| 0 <= i < next.outbox.len() implies of_messages()(
        #[trigger] next.outbox[i],
    ) by {
        if i < e.outbox.len() {
            assert(next.outbox[i] == e.outbox[i]);
        }
    }
}

proof fn lemma_composed_of_messages(e: EndpointView)
    requires
        e.wf(),
        sends_messages(e),
    ensures
        sends_messages(e.messages_composed().state),
    decreases e.sequence_lag(), MAX_UNACKED_PACKETS - e.sent_unacked(),
{
    if channel::first_ready(e.channels, 0) is Some {
        lemma_packet_of_messages(e);
        if e.packet_composed().result is Ok {
            e.lemma_packet_composed();
            lemma_composed_of_messages(e.packet_composed().state);
        }
    }
}

/// What is sent to exchange messages are packets of messages.
proof fn lemma_drained_of_messages(e: EndpointView)
    requires
        e.wf(),
        sends_messages(e),
    ensures
        sends_messages(e.drained().0),
        forall|i: int| 0 <= i < e.drained().1.len() ==> of_messages()(#[trigger] e.drained().1[i]),
{
    lemma_composed_of_messages(e);
    let sent = e.messages_composed().state;
    let begun = sent.next_begun();
    if let Ok(header) = begun.header(PacketType::Messages) {
        lemma_head_of_messages(begun, header, begun.messages_head(header));
    }
    let c = e.composed().state;
    assert forall|i: int| 0 <= i < c.outbox.len() implies of_messages()(#[trigger] c.outbox[i]) by {
        if e.sent_unacked() >= MAX_UNACKED_PACKETS {
            assert(c.outbox[i] == e.outbox[i]);
        } else if i < sent.outbox.len() {
            assert(c.outbox[i] == sent.outbox[i]);
        }
    }
}

/// The state of a `MessageTestHarness`.
#[verifier::ext_equal]
pub struct HarnessView {
    pub server: EndpointView,
    pub client: EndpointView,
    /// The packets on their way to the client.
    pub to_client: PipeView<Seq<u8>>,
    /// The packets on their way to the server.
    pub to_server: PipeView<Seq<u8>>,
    /// Which of the packets that the server sends next are lost.
    pub lost: Seq<u32>,
    pub stats: TransmissionStats,
}

impl HarnessView {
    /// Only packets of messages are on their way, and only such will be.
    pub open spec fn wf(self) -> bool {
        &&& sends_messages(self.server)
        &&& sends_messages(self.client)
        &&& super::all_in_pipe(self.to_client, of_messages())
        &&& super::all_in_pipe(self.to_server, of_messages())
    }

    /// With some of the packets that the server sends next lost.
    pub open spec fn losing(self, lost: Seq<u32>) -> Self {
        HarnessView { lost, ..self }
    }

    /// With the clocks moved on.
    pub open spec fn updated(self, dt: Time) -> Self {
        HarnessView { server: self.server.updated(dt), client: self.client.updated(dt), ..self }
    }

    /// After packets were sent to the client, and it has received what has come through, for the
    /// numbers drawn for each packet.
    pub open spec fn passed_to_client(self, sent: Seq<Seq<u8>>, draws: Seq<Draws>) -> Self {
        let pipe = super::fed(self.to_client, sent, self.lost, draws, 0);
        HarnessView {
            client: all_taken(self.client, pipe),
            to_client: super::drained_pipe(pipe),
            stats: TransmissionStats {
                server_sent: super::counted(self.stats.server_sent, sent.len()),
                client_received: super::counted(self.stats.client_received, pipe.items.len()),
                ..self.stats
            },
            ..self
        }
    }

    /// After packets were sent to the server, and it has received what has come through, for the
    /// numbers drawn for each packet.
    pub open spec fn passed_to_server(self, sent: Seq<Seq<u8>>, draws: Seq<Draws>) -> Self {
        let pipe = super::fed(self.to_server, sent, Seq::empty(), draws, 0);
        HarnessView {
            server: all_taken(self.server, pipe),
            to_server: super::drained_pipe(pipe),
            stats: TransmissionStats {
                client_sent: super::counted(self.stats.client_sent, sent.len()),
                server_received: super::counted(self.stats.server_received, pipe.items.len()),
                ..self.stats
            },
            ..self
        }
    }

    /// After the server has sent what it has to send, and the client has received what has come
    /// through, for the numbers drawn for each packet.
    pub open spec fn server_sent(self, draws: Seq<Draws>) -> (Self, Option<PicklebackError>) {
        let (server, sent, error) = self.server.drained();
        let drained = HarnessView { server, ..self };
        if error is Some {
            (drained, error)
        } else {
            (drained.passed_to_client(sent, draws), None)
        }
    }

    /// After the client has sent what it has to send, and the server has received what has come
    /// through, for the numbers drawn for each packet.
    pub open spec fn client_sent(self, draws: Seq<Draws>) -> (Self, Option<PicklebackError>) {
        let (client, sent, error) = self.client.drained();
        let drained = HarnessView { client, ..self };
        if error is Some {
            (drained, error)
        } else {
            (drained.passed_to_server(sent, draws), None)
        }
    }

    /// After time has passed, the server has sent to the client, and the client to the server.
    pub open spec fn advanced(self, dt: Time, to_client: Seq<Draws>, to_server: Seq<Draws>) -> (
        Self,
        Option<PicklebackError>,
    ) {
        let (sent, error) = self.updated(dt).server_sent(to_client);
        if error is Some {
            (sent, error)
        } else {
            sent.client_sent(to_server)
        }
    }

    /// Whether `after` and `result` are what comes of time passing, for numbers drawn for each packet.
    pub open spec fn advances_to(
        self,
        dt: Time,
        after: Self,
        result: Result<TransmissionStats, PicklebackError>,
        to_client: Seq<Draws>,
        to_server: Seq<Draws>,
    ) -> bool {
        let (next, error) = self.advanced(dt, to_client, to_server);
        let (sent, failed) = self.updated(dt).server_sent(to_client);
        &&& failed is None ==> self.updated(dt).drawn_for_client(to_client)
        &&& error is None ==> sent.drawn_for_server(to_server)
        &&& after == next
        &&& match result {
            Ok(stats) => error is None && stats == next.stats,
            Err(e) => error == Some(e),
        }
    }

    /// The numbers drawn for the packets that the server sends.
    pub open spec fn drawn_for_client(self, draws: Seq<Draws>) -> bool {
        super::all_drawn(draws, self.server.drained().1.len())
    }

    /// The numbers drawn for the packets that the client sends.
    pub open spec fn drawn_for_server(self, draws: Seq<Draws>) -> bool {
        super::all_drawn(draws, self.client.drained().1.len())
    }
}

/// A test harness that creates two `Pickleback` endpoints, and "connects" them via `JitterPipe`s.
pub struct MessageTestHarness {
    pub server: Pickleback,
    pub client: Pickleback,
    pub server_jitter_pipe: JitterPipe<Vec<u8>>,
    pub client_jitter_pipe: JitterPipe<Vec<u8>>,
    pub server_drop_indices: Vec<u32>,
    pub stats: TransmissionStats,
}

impl View for MessageTestHarness {
    type V = HarnessView;

    open spec fn view(&self) -> HarnessView {
        HarnessView {
            server: self.server@,
            client: self.client@,
            to_client: pipe_bytes(self.server_jitter_pipe@),
            to_server: pipe_bytes(self.client_jitter_pipe@),
            lost: self.server_drop_indices@,
            stats: self.stats,
        }
    }
}

impl MessageTestHarness {
    /// The endpoints are whole, and only exchange packets of messages.
    pub open spec fn wf(&self) -> bool {
        self.server.wf() && self.client.wf() && self@.wf()
    }

    /// Two endpoints that have exchanged nothing.
    pub fn new(config: JitterPipeConfig) -> (r: Self)
        ensures
            r.wf(),
            ({
                let e = EndpointView {
                    xor_salt: Some(0),
                    ..pickleback::fresh_endpoint(ConfigView::default_settings(), time::SECOND)
                };
                r@ == (HarnessView {
                    server: e,
                    client: e,
                    to_client: PipeView::fresh(config),
                    to_server: PipeView::fresh(config),
                    lost: Seq::empty(),
                    stats: TransmissionStats {
                        server_sent: 0,
                        server_received: 0,
                        client_sent: 0,
                        client_received: 0,
                    },
                })
            }),
    {
        let mut server = Pickleback::default();
        let mut client = Pickleback::default();
        server.set_xor_salt(Some(0));
        client.set_xor_salt(Some(0));
        let r = MessageTestHarness {
            server,
            client,
            server_jitter_pipe: JitterPipe::new(config),
            client_jitter_pipe: JitterPipe::new(config),
            server_drop_indices: Vec::new(),
            stats: TransmissionStats::default(),
        };
        assert(r@.to_client =~= PipeView::fresh(config));
        assert(r@.to_server =~= PipeView::fresh(config));
        assert(r@.lost =~= Seq::empty());
        r
    }

    /// Takes out the ids of the client's messages acked on a channel.
    pub fn collect_client_acks(&mut self, channel: u8) -> (r: Vec<MessageId>)
        requires
            old(self).wf(),
        ensures
            final(self).wf(),
            r@ == old(self)@.client.dispatcher.acks[channel],
            final(self)@ == (HarnessView {
                client: without_acks(old(self)@.client, channel),
                ..old(self)@
            }),
    {
        self.client.drain_message_acks(channel)
    }

    /// Takes out the ids of the server's messages acked on a channel.
    pub fn collect_server_acks(&mut self, channel: u8) -> (r: Vec<MessageId>)
        requires
            old(self).wf(),
        ensures
            final(self).wf(),
            r@ == old(self)@.server.dispatcher.acks[channel],
            final(self)@ == (HarnessView {
                server: without_acks(old(self)@.server, channel),
                ..old(self)@
            }),
    {
        self.server.drain_message_acks(channel)
    }

    /// Takes out the messages that the client has received on a channel.
    pub fn drain_client_messages(&mut self, channel: u8) -> (r: Vec<ReceivedMessage>)
        requires
            old(self).wf(),
        ensures
            final(self).wf(),
            forall|i: int| 0 <= i < r@.len() ==> (#[trigger] r@[i]).wf(),
            r@.map_values(|m: ReceivedMessage| m@) == old(self)@.client.dispatcher.messages[channel],
            final(self)@ == (HarnessView {
                client: without_messages(old(self)@.client, channel),
                ..old(self)@
            }),
    {
        self.client.drain_received_messages(channel)
    }

    /// Takes out the messages that the server has received on a channel.
    pub fn drain_server_messages(&mut self, channel: u8) -> (r: Vec<ReceivedMessage>)
        requires
            old(self).wf(),
        ensures
            final(self).wf(),
            forall|i: int| 0 <= i < r@.len() ==> (#[trigger] r@[i]).wf(),
            r@.map_values(|m: ReceivedMessage| m@) == old(self)@.server.dispatcher.messages[channel],
            final(self)@ == (HarnessView {
                server: without_messages(old(self)@.server, channel),
                ..old(self)@
            }),
    {
        self.server.drain_received_messages(channel)
    }

    /// Sends packets to the client, which receives what comes through.
    fn pass_to_client(&mut self, sent: Vec<Vec<u8>>)
        requires
            old(self).wf(),
            forall|i: int|
                0 <= i < sent@.len() ==> of_messages()(#[trigger] packet_bytes(sent@)[i]),
        ensures
            final(self).wf(),
            exists|draws: Seq<Draws>|
                super::all_drawn(draws, sent@.len()) && final(self)@ == #[trigger] old(
                    self,
                )@.passed_to_client(packet_bytes(sent@), draws),
    {
        let ghost start = self@;
        let server_sent = feed(&mut self.server_jitter_pipe, &sent, &self.server_drop_indices);
        let ghost pipe = pipe_bytes(self.server_jitter_pipe@);
        let ghost draws = choose|draws: Seq<Draws>|
            {
                &&& super::all_drawn(draws, sent@.len())
                &&& pipe == #[trigger] super::fed(
                    start.to_client,
                    packet_bytes(sent@),
                    start.lost,
                    draws,
                    0,
                )
            };
        proof {
            super::lemma_fed_ok(
                start.to_client,
                packet_bytes(sent@),
                start.lost,
                draws,
                0,
                of_messages(),
            );
            lemma_taken_keeps_outbox(start.client, pipe);
        }
        let client_received = deliver(&mut self.client, &mut self.server_jitter_pipe);
        self.stats.server_sent = self.stats.server_sent.wrapping_add(server_sent);
        self.stats.client_received = self.stats.client_received.wrapping_add(client_received);
        assert(self@ =~= start.passed_to_client(packet_bytes(sent@), draws));
        assert(super::all_in_pipe(self@.to_client, of_messages()));
    }

    /// Sends packets to the server, which receives what comes through.
    fn pass_to_server(&mut self, sent: Vec<Vec<u8>>)
        requires
            old(self).wf(),
            forall|i: int|
                0 <= i < sent@.len() ==> of_messages()(#[trigger] packet_bytes(sent@)[i]),
        ensures
            final(self).wf(),
            exists|draws: Seq<Draws>|
                super::all_drawn(draws, sent@.len()) && final(self)@ == #[trigger] old(
                    self,
                )@.passed_to_server(packet_bytes(sent@), draws),
    {
        let ghost start = self@;
        let none: Vec<u32> = Vec::new();
        let client_sent = feed(&mut self.client_jitter_pipe, &sent, &none);
        assert(none@ =~= Seq::empty());
        let ghost pipe = pipe_bytes(self.client_jitter_pipe@);
        let ghost draws = choose|draws: Seq<Draws>|
            {
                &&& super::all_drawn(draws, sent@.len())
                &&& pipe == #[trigger] super::fed(
                    start.to_server,
                    packet_bytes(sent@),
                    none@,
                    draws,
                    0,
                )
            };
        proof {
            super::lemma_fed_ok(
                start.to_server,
                packet_bytes(sent@),
                none@,
                draws,
                0,
                of_messages(),
            );
            lemma_taken_keeps_outbox(start.server, pipe);
        }
        let server_received = deliver(&mut self.server, &mut self.client_jitter_pipe);
        self.stats.client_sent = self.stats.client_sent.wrapping_add(client_sent);
        self.stats.server_received = self.stats.server_received.wrapping_add(server_received);
        assert(self@ =~= start.passed_to_server(packet_bytes(sent@), draws));
        assert(super::all_in_pipe(self@.to_server, of_messages()));
    }

    /// The server sends what it has to send, and the client receives what comes through.
    fn server_to_client(&mut self) -> (r: Result<(), PicklebackError>)
        requires
            old(self).wf(),
        ensures
            final(self).wf(),
            exists|draws: Seq<Draws>|
                {
                    let (next, error) = #[trigger] old(self)@.server_sent(draws);
                    &&& final(self)@ == next
                    &&& match r {
                        Ok(_) => error is None && old(self)@.drawn_for_client(draws),
                        Err(e) => error == Some(e),
                    }
                },
    {
        let ghost start = self@;
        proof {
            self.server.lemma_wf();
            lemma_drained_of_messages(self.server@);
        }
        let collected = self.server.collect_packets_to_send_inefficiently();
        let ghost middle = self@;
        assert(middle =~= HarnessView { server: start.server.drained().0, ..start });
        let sent = match collected {
            Ok(sent) => sent,
            Err(e) => {
                assert(self@ == start.server_sent(Seq::empty()).0);
                return Err(e);
            },
        };
        assert(packet_bytes(sent@) =~= start.server.drained().1);
        self.pass_to_client(sent);
        proof {
            let draws = choose|draws: Seq<Draws>|
                super::all_drawn(draws, sent@.len()) && self@ == #[trigger] middle.passed_to_client(
                    packet_bytes(sent@),
                    draws,
                );
            assert(self@ == start.server_sent(draws).0);
        }
        Ok(())
    }

    /// The client sends what it has to send, and the server receives what comes through.
    fn client_to_server(&mut self) -> (r: Result<(), PicklebackError>)
        requires
            old(self).wf(),
        ensures
            final(self).wf(),
            exists|draws: Seq<Draws>|
                {
                    let (next, error) = #[trigger] old(self)@.client_sent(draws);
                    &&& final(self)@ == next
                    &&& match r {
                        Ok(_) => error is None && old(self)@.drawn_for_server(draws),
                        Err(e) => error == Some(e),
                    }
                },
    {
        let ghost start = self@;
        proof {
            self.client.lemma_wf();
            lemma_drained_of_messages(self.client@);
        }
        let collected = self.client.collect_packets_to_send_inefficiently();
        let ghost middle = self@;
        assert(middle =~= HarnessView { client: start.client.drained().0, ..start });
        let sent = match collected {
            Ok(sent) => sent,
            Err(e) => {
                assert(self@ == start.client_sent(Seq::empty()).0);
                return Err(e);
            },
        };
        assert(packet_bytes(sent@) =~= start.client.drained().1);
        self.pass_to_server(sent);
        proof {
            let draws = choose|draws: Seq<Draws>|
                super::all_drawn(draws, sent@.len()) && self@ == #[trigger] middle.passed_to_server(
                    packet_bytes(sent@),
                    draws,
                );
            assert(self@ == start.client_sent(draws).0);
        }
        Ok(())
    }

    /// Advances time, then advances the server first, then the client. Transmits messages both ways
    /// via the jitter pipes.
    ///
    /// # Errors
    ///
    /// If packet writing fails.
    pub fn advance(&mut self, dt: Time) -> (r: Result<TransmissionStats, PicklebackError>)
        requires
            old(self).wf(),
        ensures
            final(self).wf(),
            exists|to_client: Seq<Draws>, to_server: Seq<Draws>| #[trigger]
                old(self)@.advances_to(dt, final(self)@, r, to_client, to_server),
    {
        self.server.update(dt);
        self.client.update(dt);
        let ghost updated = self@;
        assert(updated =~= old(self)@.updated(dt));
        let first = self.server_to_client();
        let ghost sent = self@;
        let ghost to_client = choose|draws: Seq<Draws>|
            {
                let (next, error) = #[trigger] updated.server_sent(draws);
                &&& sent == next
                &&& match first {
                    Ok(_) => error is None && updated.drawn_for_client(draws),
                    Err(e) => error == Some(e),
                }
            };
        if let Err(e) = first {
            assert(old(self)@.advances_to(dt, self@, Err(e), to_client, Seq::empty()));
            return Err(e);
        }
        let second = self.client_to_server();
        let ghost to_server = choose|draws: Seq<Draws>|
            {
                let (next, error) = #[trigger] sent.client_sent(draws);
                &&& self@ == next
                &&& match second {
                    Ok(_) => error is None && sent.drawn_for_server(draws),
                    Err(e) => error == Some(e),
                }
            };
        let r = match second {
            Ok(_) => Ok(self.stats),
            Err(e) => Err(e),
        };
        assert(old(self)@.advances_to(dt, self@, r, to_client, to_server));
        r
    }

    /// Advances, but any packets with specific indexes that the server sends are lost. The first
    /// packet it sends this tick has index 0, then 1, etc.
    pub fn advance_with_server_outbound_drops(
        &mut self,
        dt: Time,
        drop_indices: Vec<u32>,
    ) -> (r: Result<TransmissionStats, PicklebackError>)
        requires
            old(self).wf(),
        ensures
            final(self).wf(),
            final(self)@.lost == Seq::<u32>::empty(),
            exists|to_client: Seq<Draws>, to_server: Seq<Draws>| #[trigger]
                old(self)@.losing(drop_indices@).advances_to(
                    dt,
                    final(self)@.losing(drop_indices@),
                    r,
                    to_client,
                    to_server,
                ),
    {
        let ghost lost = drop_indices@;
        self.server_drop_indices = drop_indices;
        let ghost start = self@;
        let r = self.advance(dt);
        let ghost (to_client, to_server) = choose|to_client: Seq<Draws>, to_server: Seq<Draws>|
            #[trigger] start.advances_to(dt, self@, r, to_client, to_server);
        let ghost after = self@;
        self.server_drop_indices = Vec::new();
        proof {
            assert(self@.lost =~= Seq::empty());
            assert(start == old(self)@.losing(lost));
            assert(after == self@.losing(lost));
            assert(old(self)@.losing(lost).advances_to(
                dt,
                self@.losing(lost),
                r,
                to_client,
                to_server,
            ));
        }
        r
    }
}

/// An endpoint without the acks on a channel.
pub open spec fn without_acks(e: EndpointView, channel: u8) -> EndpointView {
    EndpointView {
        dispatcher: DispatcherView {
            acks: e.dispatcher.acks.insert(channel, Seq::empty()),
            ..e.dispatcher
        },
        ..e
    }
}

/// An endpoint without the messages received on a channel.
pub open spec fn without_messages(e: EndpointView, channel: u8) -> EndpointView {
    EndpointView {
        dispatcher: DispatcherView {
            messages: e.dispatcher.messages.insert(channel, Seq::empty()),
            ..e.dispatcher
        },
        ..e
    }
}

} // verus!
