//! A test harness for a client and a server.

use super::TransmissionStats;
use crate::address::{PeerAddr, LOCALHOST};
use crate::channel::Queued;
use crate::client::{ClientState, ClientView, PicklebackClient, NUM_DISCONNECTS};
use crate::config::{ConfigView, PicklebackConfig};
use crate::dispatcher::{AckProgress, MessageHandle};
use crate::endpoint::EndpointView;
use crate::error::PicklebackError;
use crate::jitter_pipe::{Draws, JitterPipe, JitterPipeConfig, PipeView};
use crate::pickleback;
use crate::protocol::message;
use crate::protocol::packets::{self, AddressedPacket, AddressedView, HeaderView, PacketBody};
use crate::protocol::{DisconnectReason, PROTOCOL_VERSION};
use crate::server::{PicklebackServer, ServerView};
use crate::time::Time;
use crate::{PicklebackStats, SentMeta};
use vstd::prelude::*;

verus! {

/// The packets in a pipe, as they are sent.
pub open spec fn pipe_addressed(pipe: PipeView<AddressedPacket>) -> PipeView<AddressedView> {
    pipe.mapped(|p: AddressedPacket| p@)
}

/// Packets, as they are sent.
pub open spec fn addressed_views(packets: Seq<AddressedPacket>) -> Seq<AddressedView> {
    packets.map_values(|p: AddressedPacket| p@)
}

/// Puts packets into a pipe, except those of which the numbers are in `lost`. Returns how many there
/// were.
fn feed_addressed(
    pipe: &mut JitterPipe<AddressedPacket>,
    packets: &Vec<AddressedPacket>,
    lost: &Vec<u32>,
) -> (r: u32)
    ensures
        r == super::counted(0, packets@.len()),
        exists|draws: Seq<Draws>|
            {
                &&& super::all_drawn(draws, packets@.len())
                &&& pipe_addressed(final(pipe)@) == #[trigger] super::fed(
                    pipe_addressed(old(pipe)@),
                    addressed_views(packets@),
                    lost@,
                    draws,
                    0,
                )
            },
{
    let ghost view = |p: AddressedPacket| p@;
    let ghost all = packets@.map_values(view);
    let ghost mut draws: Seq<Draws> = Seq::empty();
    let mut sent: u32 = 0;
    let mut i: usize = 0;
    assert(all.take(0) =~= Seq::empty());
    while i < packets.len()
        invariant
            i <= packets@.len(),
            sent == super::counted(0, i as nat),
            view == (|p: AddressedPacket| p@),
            all == packets@.map_values(view),
            super::all_drawn(draws, i as nat),
            pipe_addressed(pipe@) == super::fed(
                pipe_addressed(old(pipe)@),
                all.take(i as int),
                lost@,
                draws,
                0,
            ),
        decreases packets@.len() - i,
    {
        let ghost before = pipe@;
        let ghost drawn = Draws { drop: 0, duplicate: 0, duplicate_jitter: 0, jitter: 0 };
        let ghost old_draws = draws;
        if !super::is_in(
            lost,
            #[verifier::truncate]
            (i as u32),
        ) {
            let packet = packets[i].clone();
            pipe.insert(packet);
            proof {
                let (copy, d) = choose|copy: AddressedPacket, d: Draws|
                    {
                        &&& d.valid()
                        &&& before.config.duplicates(d.duplicate) ==> cloned(packet, copy)
                        &&& pipe@ == #[trigger] before.inserted(packet, copy, d)
                    };
                before.lemma_mapped(view, packet, copy, d);
                if before.config.duplicates(d.duplicate) {
                    assert(copy@ == packet@);
                } else {
                    assert(pipe_addressed(before).inserted(packet@, copy@, d) == pipe_addressed(
                        before,
                    ).inserted(packet@, packet@, d));
                }
                draws = draws.push(d);
                assert(all[i as int] == packet@);
            }
        } else {
            proof {
                draws = draws.push(drawn);
            }
        }
        proof {
            super::lemma_fed_split(
                pipe_addressed(old(pipe)@),
                all.take(i as int),
                lost@,
                old_draws,
                seq![draws.last()],
                0,
            );
            assert(old_draws + seq![draws.last()] =~= draws);
            super::lemma_fed_push(pipe_addressed(old(pipe)@), all, lost@, draws, 0, i as int);
        }
        sent = sent.wrapping_add(1);
        i = i + 1;
    }
    assert(all.take(i as int) =~= addressed_views(packets@));
    assert(pipe_addressed(pipe@) == super::fed(
        pipe_addressed(old(pipe)@),
        addressed_views(packets@),
        lost@,
        draws,
        0,
    ));
    sent
}

/// A client after all packets in a pipe were taken out and received. What is wrong with them is let
/// be.
pub open spec fn client_took(c: ClientView, pipe: PipeView<AddressedView>) -> ClientView
    decreases pipe.items.len(),
{
    if pipe.items.len() == 0 {
        c
    } else {
        proof {
            pipe.lemma_next();
        }
        let p = pipe.items[pipe.next()].1;
        client_took(c.received(p.bytes, p.address).0, pipe.taken())
    }
}

/// A server after all packets in a pipe were taken out and received, with the salts made up for
/// each, from number `i` on. What is wrong with them is let be.
pub open spec fn server_took(s: ServerView, pipe: PipeView<AddressedView>, salts: Seq<u64>, i: int) -> ServerView
    decreases pipe.items.len(),
{
    if pipe.items.len() == 0 {
        s
    } else {
        proof {
            pipe.lemma_next();
        }
        let p = pipe.items[pipe.next()].1;
        server_took(s.received(p.bytes, p.address, salts[i]).0, pipe.taken(), salts, i + 1)
    }
}

/// The packet that comes out of a pipe next, and those that are left, as they are sent.
proof fn lemma_taken_addressed(pipe: PipeView<AddressedPacket>)
    requires
        pipe.items.len() > 0,
    ensures
        pipe_addressed(pipe).items.len() == pipe.items.len(),
        pipe_addressed(pipe).items[pipe_addressed(pipe).next()].1 == pipe.items[pipe.next()].1@,
        pipe_addressed(pipe.taken()) == pipe_addressed(pipe).taken(),
        super::drained_pipe(pipe_addressed(pipe).taken()) == super::drained_pipe(pipe_addressed(pipe)),
        pipe.taken().items.len() == pipe.items.len() - 1,
{
    let m = pipe.items[0].1;
    let draws = Draws { drop: 0, duplicate: 0, duplicate_jitter: 0, jitter: 0 };
    pipe.lemma_mapped(|p: AddressedPacket| p@, m, m, draws);
    pipe.lemma_next();
}

/// Whether a client has no messages to send while it cannot send any.
pub open spec fn quiet(c: ClientView) -> bool {
    c.endpoint.xor_salt is Some || no_messages(c.endpoint)
}

/// Whether an endpoint has no messages in any channel.
pub open spec fn no_messages(e: EndpointView) -> bool {
    forall|k: u8| #[trigger] e.channels.contains_key(k) ==> e.channels[k].queue.len() == 0
}

proof fn lemma_steps_no_messages(p: AckProgress, handles: Seq<MessageHandle>, n: int)
    requires
        forall|k: u8| #[trigger] p.channels.contains_key(k) ==> p.channels[k].queue.len() == 0,
    ensures
        forall|k: u8| #[trigger]
            p.steps(handles, n).channels.contains_key(k) ==> p.steps(handles, n).channels[k].queue.len()
                == 0,
    decreases n,
{
    if n > 0 {
        lemma_steps_no_messages(p, handles, n - 1);
        let h = handles[n - 1];
        let before = p.steps(handles, n - 1);
        if before.channels.contains_key(h.channel) {
            before.channels[h.channel].queue.lemma_filter_len(|q: Queued| !q.dismissed_by(h));
        }
    }
}

proof fn lemma_acks_no_messages(
    e: EndpointView,
    entries: Seq<(u16, bool)>,
    n: int,
)
    requires
        no_messages(e),
    ensures
        no_messages(e.acks_noted(entries, n)),
    decreases n,
{
    if n > 0 {
        lemma_acks_no_messages(e, entries, n - 1);
        let before = e.acks_noted(entries, n - 1);
        if let Some(handles) = before.dispatcher.packets.lookup(entries[n - 1].0) {
            let start = AckProgress {
                frags: before.dispatcher.frags,
                acks: before.dispatcher.acks,
                channels: before.channels,
                returned: Seq::empty(),
            };
            lemma_steps_no_messages(start, handles, handles.len() as int);
        }
    }
}

proof fn lemma_received_no_messages(e: EndpointView, s: Seq<u8>)
    requires
        no_messages(e),
    ensures
        no_messages(e.messages_received(s).state),
    decreases s.len(),
{
    if s.len() > 0 {
        if let Ok((m, rest)) = message::parse_message(s) {
            message::lemma_parse_consumes(s);
            lemma_received_no_messages(e.message_received(m), rest);
        }
    }
}

proof fn lemma_packet_no_messages(e: EndpointView, header: HeaderView, rest: Seq<u8>)
    requires
        no_messages(e),
    ensures
        no_messages(e.packet_received(header, rest).state),
{
    let counted = EndpointView {
        stats: PicklebackStats {
            packets_received: e.stats.packets_received.wrapping_add(1),
            ..e.stats
        },
        received: e.received.inserted(header.id.0, e.received_meta(header, rest)),
        ..e
    };
    if let Some(ack) = header.ack {
        lemma_acks_no_messages(
            counted,
            ack.entries(),
            ack.entries().len() as int,
        );
    }
    lemma_received_no_messages(e.packet_noted(header, rest), rest);
}

/// A client that is quiet stays so as time passes and packets are received.
proof fn lemma_stays_quiet(c: ClientView, dt: Time, bytes: Seq<u8>, source: PeerAddr)
    requires
        quiet(c),
        c.wf(),
    ensures
        quiet(c.updated(dt)),
        quiet(c.received(bytes, source).0),
{
    let fresh = pickleback::fresh_endpoint(c.endpoint.config, 0);
    assert(no_messages(fresh));
    if no_messages(c.endpoint) {
        let next = c.endpoint.updated(dt);
        assert forall|k: u8| #[trigger] next.channels.contains_key(k) implies next.channels[k].queue.len()
            == 0 by {
            assert(c.endpoint.channels.contains_key(k));
        }
    }
    if let Ok((p, rest)) = packets::parse_packet(bytes) {
        c.endpoint.lemma_packet_received(p.header, rest);
        if no_messages(c.endpoint) {
            lemma_packet_no_messages(c.endpoint, p.header, rest);
        }
    }
}

/// Takes all packets out of a pipe, and has a client receive them. Returns how many there were.
fn deliver_to_client(client: &mut PicklebackClient, pipe: &mut JitterPipe<AddressedPacket>) -> (r:
    u32)
    requires
        old(client).wf(),
        quiet(old(client)@),
    ensures
        final(client).wf(),
        quiet(final(client)@),
        final(client)@ == client_took(old(client)@, pipe_addressed(old(pipe)@)),
        pipe_addressed(final(pipe)@) == super::drained_pipe(pipe_addressed(old(pipe)@)),
        r == super::counted(0, old(pipe)@.items.len()),
{
    let ghost total = pipe@.items.len();
    let mut received: u32 = 0;
    loop
        invariant
            client.wf(),
            quiet(client@),
            pipe@.items.len() <= total,
            received == super::counted(0, (total - pipe@.items.len()) as nat),
            client_took(client@, pipe_addressed(pipe@)) == client_took(
                old(client)@,
                pipe_addressed(old(pipe)@),
            ),
            super::drained_pipe(pipe_addressed(pipe@)) == super::drained_pipe(pipe_addressed(old(pipe)@)),
            total == old(pipe)@.items.len(),
        ensures
            client.wf(),
            quiet(client@),
            client@ == client_took(old(client)@, pipe_addressed(old(pipe)@)),
            pipe_addressed(pipe@) == super::drained_pipe(pipe_addressed(old(pipe)@)),
            received == super::counted(0, total),
        decreases pipe@.items.len(),
    {
        proof {
            if pipe@.items.len() > 0 {
                lemma_taken_addressed(pipe@);
            }
        }
        match pipe.take_next() {
            None => {
                assert(pipe_addressed(pipe@) =~= super::drained_pipe(pipe_addressed(pipe@)));
                break ;
            },
            Some(p) => {
                received = received.wrapping_add(1);
                proof {
                    client.lemma_wf();
                    lemma_stays_quiet(client@, 0, p@.bytes, p@.address);
                }
                let _ = client.receive(p.packet.as_slice(), p.address);
            },
        }
    }
    received
}

/// Takes all packets out of a pipe, and has a server receive them. Returns how many there were.
fn deliver_to_server(server: &mut PicklebackServer, pipe: &mut JitterPipe<AddressedPacket>) -> (r:
    u32)
    requires
        old(server).wf(),
    ensures
        final(server).wf(),
        exists|salts: Seq<u64>|
            final(server)@ == #[trigger] server_took(
                old(server)@,
                pipe_addressed(old(pipe)@),
                salts,
                0,
            ),
        pipe_addressed(final(pipe)@) == super::drained_pipe(pipe_addressed(old(pipe)@)),
        r == super::counted(0, old(pipe)@.items.len()),
{
    let ghost total = pipe@.items.len();
    let ghost mut salts: Seq<u64> = Seq::empty();
    let mut received: u32 = 0;
    loop
        invariant
            server.wf(),
            pipe@.items.len() <= total,
            received == super::counted(0, (total - pipe@.items.len()) as nat),
            forall|more: Seq<u64>| #[trigger]
                server_took(old(server)@, pipe_addressed(old(pipe)@), salts + more, 0)
                    == server_took(
                    server@,
                    pipe_addressed(pipe@),
                    salts + more,
                    salts.len() as int,
                ),
            super::drained_pipe(pipe_addressed(pipe@)) == super::drained_pipe(pipe_addressed(old(pipe)@)),
            total == old(pipe)@.items.len(),
        ensures
            server.wf(),
            server@ == server_took(
                old(server)@,
                pipe_addressed(old(pipe)@),
                salts + Seq::<u64>::empty(),
                0,
            ),
            pipe_addressed(pipe@) == super::drained_pipe(pipe_addressed(old(pipe)@)),
            received == super::counted(0, total),
        decreases pipe@.items.len(),
    {
        let ghost start = pipe@;
        let ghost before = server@;
        proof {
            if pipe@.items.len() > 0 {
                lemma_taken_addressed(pipe@);
            }
        }
        match pipe.take_next() {
            None => {
                assert(pipe_addressed(pipe@) =~= super::drained_pipe(pipe_addressed(pipe@)));
                break ;
            },
            Some(p) => {
                received = received.wrapping_add(1);
                let _ = server.receive(p.packet.as_slice(), p.address);
                proof {
                    let salt = choose|salt: u64|
                        server@ == (#[trigger] before.received(p@.bytes, p@.address, salt)).0;
                    let old_salts = salts;
                    salts = salts.push(salt);
                    assert forall|more: Seq<u64>| #[trigger]
                        server_took(old(server)@, pipe_addressed(old(pipe)@), salts + more, 0)
                            == server_took(
                            server@,
                            pipe_addressed(pipe@),
                            salts + more,
                            salts.len() as int,
                        ) by {
                        let tail = seq![salt] + more;
                        assert(old_salts + tail =~= salts + more);
                        assert((salts + more)[old_salts.len() as int] == salt);
                    }
                }
            },
        }
    }
    received
}

/// The state of a `ProtocolTestHarness`.
#[verifier::ext_equal]
pub struct ProtocolHarnessView {
    pub server: ServerView,
    pub client: ClientView,
    /// The packets on their way to the client.
    pub to_client: PipeView<AddressedView>,
    /// The packets on their way to the server.
    pub to_server: PipeView<AddressedView>,
    /// Which of the packets that the server sends next are lost.
    pub lost: Seq<u32>,
    pub stats: TransmissionStats,
}

impl ProtocolHarnessView {
    /// With some of the packets that the server sends next lost.
    pub open spec fn losing(self, lost: Seq<u32>) -> Self {
        ProtocolHarnessView { lost, ..self }
    }

    /// With the clocks moved on.
    pub open spec fn updated(self, dt: Time) -> Self {
        ProtocolHarnessView {
            server: self.server.updated(dt),
            client: self.client.updated(dt),
            ..self
        }
    }

    /// After packets were sent to the client, and it has received what has come through, for the
    /// numbers drawn for each packet.
    pub open spec fn passed_to_client(self, sent: Seq<AddressedView>, draws: Seq<Draws>) -> Self {
        let pipe = super::fed(self.to_client, sent, self.lost, draws, 0);
        ProtocolHarnessView {
            client: client_took(self.client, pipe),
            to_client: super::drained_pipe(pipe),
            stats: TransmissionStats {
                server_sent: super::counted(self.stats.server_sent, sent.len()),
                client_received: super::counted(self.stats.client_received, pipe.items.len()),
                ..self.stats
            },
            ..self
        }
    }

    /// After packets were sent to the server, and it has received what has come through, for the
    /// numbers drawn for each packet and the salts made up by the server. What the client sends is
    /// added to what the server has sent: there is one count of packets sent.
    pub open spec fn passed_to_server(
        self,
        sent: Seq<AddressedView>,
        draws: Seq<Draws>,
        salts: Seq<u64>,
    ) -> Self {
        let pipe = super::fed(self.to_server, sent, Seq::empty(), draws, 0);
        ProtocolHarnessView {
            server: server_took(self.server, pipe, salts, 0),
            to_server: super::drained_pipe(pipe),
            stats: TransmissionStats {
                server_sent: super::counted(self.stats.server_sent, sent.len()),
                server_received: super::counted(self.stats.server_received, pipe.items.len()),
                ..self.stats
            },
            ..self
        }
    }

    /// After the server has sent what it has to send, and the client has received what has come
    /// through, for the numbers drawn for each packet.
    pub open spec fn server_sent(self, draws: Seq<Draws>) -> (Self, Option<PicklebackError>) {
        let c = self.server.collected();
        let collected = ProtocolHarnessView { server: c.server, ..self };
        if c.error is Some {
            (collected, c.error)
        } else {
            (collected.passed_to_client(c.sent, draws), None)
        }
    }

    /// After the client has sent what it has to send, and the server has received what has come
    /// through, for the numbers drawn for each packet and the salts made up by the server.
    pub open spec fn client_sent(self, draws: Seq<Draws>, salts: Seq<u64>) -> (
        Self,
        Option<PicklebackError>,
    ) {
        let (client, sent, error) = self.client.collected();
        let collected = ProtocolHarnessView { client, ..self };
        if error is Some {
            (collected, error)
        } else {
            (collected.passed_to_server(sent, draws, salts), None)
        }
    }

    /// After time has passed, the server has sent to the client, and the client to the server.
    pub open spec fn advanced(
        self,
        dt: Time,
        to_client: Seq<Draws>,
        to_server: Seq<Draws>,
        salts: Seq<u64>,
    ) -> (Self, Option<PicklebackError>) {
        let (sent, error) = self.updated(dt).server_sent(to_client);
        if error is Some {
            (sent, error)
        } else {
            sent.client_sent(to_server, salts)
        }
    }

    /// Whether `after` and `result` are what comes of time passing, for numbers drawn for each packet
    /// and salts made up by the server.
    pub open spec fn advances_to(
        self,
        dt: Time,
        after: Self,
        result: Result<TransmissionStats, PicklebackError>,
        to_client: Seq<Draws>,
        to_server: Seq<Draws>,
        salts: Seq<u64>,
    ) -> bool {
        let (next, error) = self.advanced(dt, to_client, to_server, salts);
        let (sent, failed) = self.updated(dt).server_sent(to_client);
        &&& failed is None ==> self.updated(dt).drawn_for_client(to_client)
        &&& error is None ==> sent.drawn_for_server(to_server)
        &&& after == next
        &&& match result {
            Ok(stats) => error is None && stats == next.stats,
            Err(e) => error == Some(e),
        }
    }

    /// The numbers drawn for the packets that the server sends.
    pub open spec fn drawn_for_client(self, draws: Seq<Draws>) -> bool {
        super::all_drawn(draws, self.server.collected().sent.len())
    }

    /// The numbers drawn for the packets that the client sends.
    pub open spec fn drawn_for_server(self, draws: Seq<Draws>) -> bool {
        super::all_drawn(draws, self.client.collected().1.len())
    }
}

/// A test harness that creates a `PicklebackServer` and a `PicklebackClient`, and "connects" them
/// via `JitterPipe`s.
pub struct ProtocolTestHarness {
    pub server: PicklebackServer,
    pub client: PicklebackClient,
    pub server_jitter_pipe: JitterPipe<AddressedPacket>,
    pub client_jitter_pipe: JitterPipe<AddressedPacket>,
    pub server_drop_indices: Vec<u32>,
    pub stats: TransmissionStats,
}

impl View for ProtocolTestHarness {
    type V = ProtocolHarnessView;

    open spec fn view(&self) -> ProtocolHarnessView {
        ProtocolHarnessView {
            server: self.server@,
            client: self.client@,
            to_client: pipe_addressed(self.server_jitter_pipe@),
            to_server: pipe_addressed(self.client_jitter_pipe@),
            lost: self.server_drop_indices@,
            stats: self.stats,
        }
    }
}

impl ProtocolTestHarness {
    /// Both ends are whole, and the client has no messages to send while it cannot send any.
    pub open spec fn wf(&self) -> bool {
        self.server.wf() && self.client.wf() && quiet(self.client@)
    }

    /// A server without clients, and a client that asks for a connection.
    pub fn new(jitter_config: JitterPipeConfig) -> (r: Self)
        ensures
            r.wf(),
            r@.client.client_salt matches Some(salt) && r@ == (ProtocolHarnessView {
                server: ServerView::fresh(0, ConfigView::default_settings()),
                client: ClientView::fresh(0, ConfigView::default_settings()).connecting(
                    PeerAddr::V4 { v4: LOCALHOST, port: 0 },
                    salt,
                ),
                to_client: PipeView::fresh(jitter_config),
                to_server: PipeView::fresh(jitter_config),
                lost: Seq::empty(),
                stats: TransmissionStats {
                    server_sent: 0,
                    server_received: 0,
                    client_sent: 0,
                    client_received: 0,
                },
            }),
    {
        let config = PicklebackConfig::default();
        let server = PicklebackServer::new(0, &config);
        let mut client = PicklebackClient::new(0, &config);
        // the address doesn't matter in this test harness, it just has to be valid
        client.connect(PeerAddr::V4 { v4: LOCALHOST, port: 0 });
        let r = ProtocolTestHarness {
            server,
            client,
            server_jitter_pipe: JitterPipe::new(jitter_config),
            client_jitter_pipe: JitterPipe::new(jitter_config),
            server_drop_indices: Vec::new(),
            stats: TransmissionStats::default(),
        };
        assert(r@.to_client =~= PipeView::fresh(jitter_config));
        assert(r@.to_server =~= PipeView::fresh(jitter_config));
        assert(r@.lost =~= Seq::empty());
        r
    }

    /// Sends packets to the client, which receives what comes through.
    fn pass_to_client(&mut self, sent: Vec<AddressedPacket>)
        requires
            old(self).wf(),
        ensures
            final(self).wf(),
            exists|draws: Seq<Draws>|
                super::all_drawn(draws, sent@.len()) && final(self)@ == #[trigger] old(
                    self,
                )@.passed_to_client(addressed_views(sent@), draws),
    {
        let ghost start = self@;
        let server_sent = feed_addressed(
            &mut self.server_jitter_pipe,
            &sent,
            &self.server_drop_indices,
        );
        let ghost pipe = pipe_addressed(self.server_jitter_pipe@);
        let ghost draws = choose|draws: Seq<Draws>|
            {
                &&& super::all_drawn(draws, sent@.len())
                &&& pipe == #[trigger] super::fed(
                    start.to_client,
                    addressed_views(sent@),
                    start.lost,
                    draws,
                    0,
                )
            };
        let client_received = deliver_to_client(&mut self.client, &mut self.server_jitter_pipe);
        self.stats.server_sent = self.stats.server_sent.wrapping_add(server_sent);
        self.stats.client_received = self.stats.client_received.wrapping_add(client_received);
        assert(self@ =~= start.passed_to_client(addressed_views(sent@), draws));
    }

    /// Sends packets to the server, which receives what comes through.
    fn pass_to_server(&mut self, sent: Vec<AddressedPacket>)
        requires
            old(self).wf(),
        ensures
            final(self).wf(),
            exists|draws: Seq<Draws>, salts: Seq<u64>|
                super::all_drawn(draws, sent@.len()) && final(self)@ == #[trigger] old(
                    self,
                )@.passed_to_server(addressed_views(sent@), draws, salts),
    {
        let ghost start = self@;
        let none: Vec<u32> = Vec::new();
        let client_sent = feed_addressed(&mut self.client_jitter_pipe, &sent, &none);
        let ghost pipe = pipe_addressed(self.client_jitter_pipe@);
        assert(none@ =~= Seq::empty());
        let ghost draws = choose|draws: Seq<Draws>|
            {
                &&& super::all_drawn(draws, sent@.len())
                &&& pipe == #[trigger] super::fed(
                    start.to_server,
                    addressed_views(sent@),
                    none@,
                    draws,
                    0,
                )
            };
        let server_received = deliver_to_server(&mut self.server, &mut self.client_jitter_pipe);
        let ghost salts = choose|salts: Seq<u64>|
            self.server@ == #[trigger] server_took(start.server, pipe, salts, 0);
        self.stats.server_sent = self.stats.server_sent.wrapping_add(client_sent);
        self.stats.server_received = self.stats.server_received.wrapping_add(server_received);
        assert(self@ =~= start.passed_to_server(addressed_views(sent@), draws, salts));
    }

    /// The server sends what it has to send, and the client receives what comes through.
    fn server_to_client(&mut self) -> (r: Result<(), PicklebackError>)
        requires
            old(self).wf(),
        ensures
            final(self).wf(),
            exists|draws: Seq<Draws>|
                {
                    let (next, error) = #[trigger] old(self)@.server_sent(draws);
                    &&& final(self)@ == next
                    &&& match r {
                        Ok(_) => error is None && old(self)@.drawn_for_client(draws),
                        Err(e) => error == Some(e),
                    }
                },
    {
        let ghost start = self@;
        let collected = self.server.collect_packets_to_send();
        let ghost c = start.server.collected();
        assert(self@ =~= ProtocolHarnessView { server: c.server, ..start });
        if let Some(e) = collected.error {
            assert(self@ == start.server_sent(Seq::empty()).0);
            return Err(e);
        }
        let ghost middle = self@;
        let sent = collected.packets;
        assert(addressed_views(sent@) =~= c.sent);
        self.pass_to_client(sent);
        proof {
            let draws = choose|draws: Seq<Draws>|
                super::all_drawn(draws, sent@.len()) && self@ == #[trigger] middle.passed_to_client(
                    addressed_views(sent@),
                    draws,
                );
            assert(self@ == start.server_sent(draws).0);
        }
        Ok(())
    }

    /// The client sends what it has to send, and the server receives what comes through.
    fn client_to_server(&mut self) -> (r: Result<(), PicklebackError>)
        requires
            old(self).wf(),
        ensures
            final(self).wf(),
            exists|draws: Seq<Draws>, salts: Seq<u64>|
                {
                    let (next, error) = #[trigger] old(self)@.client_sent(draws, salts);
                    &&& final(self)@ == next
                    &&& match r {
                        Ok(_) => error is None && old(self)@.drawn_for_server(draws),
                        Err(e) => error == Some(e),
                    }
                },
    {
        let ghost start = self@;
        proof {
            self.client.lemma_wf();
            lemma_collected_quiet(self.client@);
        }
        let collected = self.client.collect_packets_to_send();
        let ghost c = start.client.collected();
        assert(self@ =~= ProtocolHarnessView { client: c.0, ..start });
        if let Some(e) = collected.error {
            assert(self@ == start.client_sent(Seq::empty(), Seq::empty()).0);
            return Err(e);
        }
        let ghost middle = self@;
        let sent = collected.packets;
        assert(addressed_views(sent@) =~= c.1);
        self.pass_to_server(sent);
        proof {
            let (draws, salts) = choose|draws: Seq<Draws>, salts: Seq<u64>|
                super::all_drawn(draws, sent@.len()) && self@ == #[trigger] middle.passed_to_server(
                    addressed_views(sent@),
                    draws,
                    salts,
                );
            assert(self@ == start.client_sent(draws, salts).0);
        }
        Ok(())
    }

    /// Advances time, then advances the server first, then the client. Transmits packets both ways
    /// via the jitter pipes.
    ///
    /// # Errors
    ///
    /// If packet writing fails.
    pub fn advance(&mut self, dt: Time) -> (r: Result<TransmissionStats, PicklebackError>)
        requires
            old(self).wf(),
        ensures
            final(self).wf(),
            exists|to_client: Seq<Draws>, to_server: Seq<Draws>, salts: Seq<u64>| #[trigger]
                old(self)@.advances_to(dt, final(self)@, r, to_client, to_server, salts),
    {
        proof {
            self.client.lemma_wf();
            lemma_stays_quiet(
                self.client@,
                dt,
                Seq::empty(),
                PeerAddr::V4 { v4: LOCALHOST, port: 0 },
            );
        }
        self.server.update(dt);
        self.client.update(dt);
        let ghost updated = self@;
        assert(updated =~= old(self)@.updated(dt));
        let first = self.server_to_client();
        let ghost sent = self@;
        let ghost to_client = choose|draws: Seq<Draws>|
            {
                let (next, error) = #[trigger] updated.server_sent(draws);
                &&& sent == next
                &&& match first {
                    Ok(_) => error is None && updated.drawn_for_client(draws),
                    Err(e) => error == Some(e),
                }
            };
        if let Err(e) = first {
            assert(old(self)@.advances_to(
                dt,
                self@,
                Err(e),
                to_client,
                Seq::empty(),
                Seq::empty(),
            ));
            return Err(e);
        }
        let second = self.client_to_server();
        let ghost (to_server, salts) = choose|draws: Seq<Draws>, salts: Seq<u64>|
            {
                let (next, error) = #[trigger] sent.client_sent(draws, salts);
                &&& self@ == next
                &&& match second {
                    Ok(_) => error is None && sent.drawn_for_server(draws),
                    Err(e) => error == Some(e),
                }
            };
        let r = match second {
            Ok(_) => Ok(self.stats),
            Err(e) => Err(e),
        };
        assert(old(self)@.advances_to(dt, self@, r, to_client, to_server, salts));
        r
    }

    /// Advances, but any packets with specific indexes that the server sends are lost. The first
    /// packet it sends this tick has index 0, then 1, etc.
    pub fn advance_with_server_outbound_drops(
        &mut self,
        dt: Time,
        drop_indices: Vec<u32>,
    ) -> (r: Result<TransmissionStats, PicklebackError>)
        requires
            old(self).wf(),
        ensures
            final(self).wf(),
            final(self)@.lost == Seq::<u32>::empty(),
            exists|to_client: Seq<Draws>, to_server: Seq<Draws>, salts: Seq<u64>| #[trigger]
                old(self)@.losing(drop_indices@).advances_to(
                    dt,
                    final(self)@.losing(drop_indices@),
                    r,
                    to_client,
                    to_server,
                    salts,
                ),
    {
        let ghost lost = drop_indices@;
        self.server_drop_indices = drop_indices;
        let ghost start = self@;
        let r = self.advance(dt);
        let ghost (to_client, to_server, salts) = choose|
            to_client: Seq<Draws>,
            to_server: Seq<Draws>,
            salts: Seq<u64>,
        | #[trigger] start.advances_to(dt, self@, r, to_client, to_server, salts);
        let ghost after = self@;
        self.server_drop_indices = Vec::new();
        proof {
            assert(self@.lost =~= Seq::empty());
            assert(start == old(self)@.losing(lost));
            assert(after == self@.losing(lost));
            assert(old(self)@.losing(lost).advances_to(
                dt,
                self@.losing(lost),
                r,
                to_client,
                to_server,
                salts,
            ));
        }
        r
    }
}

/// Sending a packet of the handshake leaves messages and salt alone.
proof fn lemma_next_sent_keeps(e: EndpointView, body: PacketBody)
    requires
        e.wf(),
    ensures
        e.next_sent(body).state.wf(),
        e.next_sent(body).state.channels == e.channels,
        e.next_sent(body).state.xor_salt == e.xor_salt,
{
    let id = e.next_begun().sequence_id;
    assert forall|meta: SentMeta| #[trigger] e.sent.inserted(id, meta).size == e.sent.size by {
        e.sent.lemma_inserted(id, meta);
    }
}

/// Whether an endpoint has no messages to send while it cannot send any.
spec fn quiet_endpoint(e: EndpointView) -> bool {
    e.wf() && (e.xor_salt is Some || no_messages(e))
}

proof fn lemma_drained_quiet(e: EndpointView)
    requires
        quiet_endpoint(e),
    ensures
        quiet_endpoint(e.drained().0),
{
    e.lemma_composed();
    if e.xor_salt is None {
        e.lemma_no_messages();
    }
}

proof fn lemma_tried_quiet(c: ClientView, body: PacketBody)
    requires
        quiet_endpoint(c.endpoint),
    ensures
        quiet_endpoint(c.packet_tried(body).0.endpoint),
        quiet_endpoint(c.handshake_tried(body).endpoint),
        c.packet_tried(body).0.state == c.state,
        c.packet_tried(body).0.xor_salt == c.xor_salt,
{
    lemma_next_sent_keeps(c.endpoint, body);
}

proof fn lemma_handshake_quiet(c: ClientView)
    requires
        quiet_endpoint(c.endpoint),
    ensures
        quiet_endpoint(c.handshake_sent().endpoint),
{
    lemma_tried_quiet(
        c,
        PacketBody::ConnectionRequest {
            client_salt: c.client_salt->0,
            protocol_version: PROTOCOL_VERSION,
        },
    );
    lemma_tried_quiet(c, PacketBody::ConnectionChallengeResponse { xor_salt: c.xor_salt->0 });
}

proof fn lemma_fresh_quiet(c: ClientView)
    ensures
        quiet(c.reset()),
{
    assert(no_messages(pickleback::fresh_endpoint(c.endpoint.config, 0)));
}

/// A client that is quiet can send what it has to send, and stays quiet.
proof fn lemma_collected_quiet(c: ClientView)
    requires
        quiet(c),
        c.endpoint.wf(),
    ensures
        c.endpoint.can_compose(),
        quiet(c.collected().0),
{
    assert(quiet_endpoint(c.endpoint));
    if c.endpoint.xor_salt is None {
        c.endpoint.lemma_no_messages();
    }
    if c.server_addr is Some {
        if c.state is SelfInitiatedDisconnect && c.xor_salt is Some {
            let told = c.disconnects_tried(NUM_DISCONNECTS as nat);
            let over = ClientState::Disconnected(DisconnectReason::Normal);
            let next = ClientView {
                state: over,
                proto_last_send: 0,
                endpoint: EndpointView { xor_salt: told.xor_salt, ..told.endpoint },
                ..told
            };
            lemma_fresh_quiet(next);
        } else {
            lemma_handshake_quiet(c);
            let ready = c.handshake_sent();
            lemma_drained_quiet(ready.endpoint);
            let next = ClientView { endpoint: ready.endpoint.drained().0, ..ready };
            let body = PacketBody::KeepAlive { xor_salt: c.xor_salt->0, client_index: 0 };
            lemma_tried_quiet(next, body);
            lemma_drained_quiet(next.packet_tried(body).0.endpoint);
        }
    }
}

} // verus!
