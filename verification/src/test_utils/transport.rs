//! What holds of the transports that the harnesses are made of: what goes in comes out at the other
//! end.

use super::message_harness::{self, HarnessView};
use super::protocol_harness::{self, ProtocolHarnessView};
use crate::client::ClientView;
use crate::endpoint::EndpointView;
use crate::jitter_pipe::{Draws, PipeView};
use crate::protocol::packets::{self, AddressedView};
use crate::server::ServerView;
use crate::time::Time;
use vstd::prelude::*;

verus! {

/// The packets in a pipe, without their sort keys.
pub open spec fn contents<T>(pipe: PipeView<T>) -> Seq<T> {
    pipe.items.map_values(|e: (int, T)| e.1)
}

/// The packets from number `i` on, but for those of which the numbers are in `lost`.
pub open spec fn survivors<T>(packets: Seq<T>, lost: Seq<u32>, i: int) -> Seq<T>
    decreases packets.len() - i,
{
    if i >= packets.len() {
        Seq::empty()
    } else if lost.contains(i as u32) {
        survivors(packets, lost, i + 1)
    } else {
        seq![packets[i]] + survivors(packets, lost, i + 1)
    }
}

/// Whether a pipe is perfect and empty.
pub open spec fn perfect<T>(pipe: PipeView<T>) -> bool {
    !pipe.config.enabled && pipe.items.len() == 0
}

/// A perfect pipe loses only the packets that are to be lost. All others are in it, in the order in
/// which they were put in.
pub proof fn lemma_fed_in_order<T>(
    pipe: PipeView<T>,
    packets: Seq<T>,
    lost: Seq<u32>,
    draws: Seq<Draws>,
    i: int,
)
    requires
        !pipe.config.enabled,
        pipe.in_order(),
        0 <= i <= packets.len(),
        pipe.sent + (packets.len() - i) + 2 <= u64::MAX,
        super::all_drawn(draws, packets.len()),
    ensures
        ({
            let r = super::fed(pipe, packets, lost, draws, i);
            &&& r.in_order()
            &&& r.config == pipe.config
            &&& contents(r) == contents(pipe) + survivors(packets, lost, i)
            &&& pipe.sent <= r.sent <= pipe.sent + (packets.len() - i)
        }),
    decreases packets.len() - i,
{
    if i < packets.len() {
        if lost.contains(i as u32) {
            lemma_fed_in_order(pipe, packets, lost, draws, i + 1);
        } else {
            assert(draws[i].valid());
            pipe.lemma_keeps_order(packets[i], packets[i], draws[i]);
            let next = pipe.inserted(packets[i], packets[i], draws[i]);
            lemma_fed_in_order(next, packets, lost, draws, i + 1);
            assert(contents(next) =~= contents(pipe).push(packets[i]));
            assert(contents(pipe).push(packets[i]) + survivors(packets, lost, i + 1) =~= contents(
                pipe,
            ) + (seq![packets[i]] + survivors(packets, lost, i + 1)));
        }
    } else {
        assert(contents(pipe) + Seq::<T>::empty() =~= contents(pipe));
    }
}

/// However bad a pipe is, what is in it stays, and a packet that is neither lost nor dropped is in
/// it afterwards.
pub proof fn lemma_fed_kept<T>(
    pipe: PipeView<T>,
    packets: Seq<T>,
    lost: Seq<u32>,
    draws: Seq<Draws>,
    i: int,
)
    requires
        0 <= i <= packets.len(),
        pipe.sent + 2 * (packets.len() - i) + 2 <= u64::MAX,
        super::all_drawn(draws, packets.len()),
    ensures
        ({
            let r = super::fed(pipe, packets, lost, draws, i);
            &&& pipe.items.is_prefix_of(r.items)
            &&& forall|j: int|
                i <= j < packets.len() && !lost.contains(j as u32) && !(pipe.config.enabled
                    && draws[j].drop < pipe.config.drop_chance) ==> contents(r).contains(
                    #[trigger] packets[j],
                )
        }),
    decreases packets.len() - i,
{
    if i < packets.len() {
        let next = if lost.contains(i as u32) {
            pipe
        } else {
            pipe.inserted(packets[i], packets[i], draws[i])
        };
        let r = super::fed(pipe, packets, lost, draws, i);
        assert(draws[i].valid());
        pipe.lemma_nothing_lost(packets[i], packets[i], draws[i]);
        lemma_fed_kept(next, packets, lost, draws, i + 1);
        if !lost.contains(i as u32) && !(pipe.config.enabled && draws[i].drop
            < pipe.config.drop_chance) {
            let at = next.items.len() - 1;
            assert(r.items[at] == next.items[at]);
            assert(contents(r)[at] == packets[i]);
        }
    }
}

proof fn lemma_first_out<T>(pipe: PipeView<T>)
    requires
        !pipe.config.enabled,
        pipe.in_order(),
        pipe.items.len() > 0,
        pipe.sent + 2 <= u64::MAX,
    ensures
        pipe.next() == 0,
        pipe.taken().in_order(),
        contents(pipe.taken()) == contents(pipe).skip(1),
        pipe.items[0].1 == contents(pipe)[0],
        pipe.taken().items.len() == pipe.items.len() - 1,
{
    let draws = Draws { drop: 0, duplicate: 0, duplicate_jitter: 0, jitter: 0 };
    pipe.lemma_keeps_order(pipe.items[0].1, pipe.items[0].1, draws);
    assert(contents(pipe.taken()) =~= contents(pipe).skip(1));
}

/// An endpoint after packets were received, one after the other.
pub open spec fn endpoint_heard(e: EndpointView, sent: Seq<Seq<u8>>) -> EndpointView
    decreases sent.len(),
{
    if sent.len() == 0 {
        e
    } else {
        let (packet, rest) = packets::parse_packet(sent[0])->Ok_0;
        endpoint_heard(e.packet_received(packet.header, rest).state, sent.skip(1))
    }
}

proof fn lemma_endpoint_heard(e: EndpointView, pipe: PipeView<Seq<u8>>)
    requires
        !pipe.config.enabled,
        pipe.in_order(),
        pipe.sent + 2 <= u64::MAX,
    ensures
        message_harness::all_taken(e, pipe) == endpoint_heard(e, contents(pipe)),
    decreases pipe.items.len(),
{
    if pipe.items.len() > 0 {
        reveal(message_harness::one_taken);
        lemma_first_out(pipe);
        lemma_endpoint_heard(
            message_harness::one_taken(e, pipe.items[pipe.next()].1),
            pipe.taken(),
        );
    }
}

/// Over a perfect network, the client receives all that the server sends as time passes, in order,
/// but for those packets that are to be lost. The server then receives all that the client sends,
/// in order. Both clocks move on, both pipes are empty in the end, and all packets are counted.
pub proof fn lemma_perfect_network(
    h: HarnessView,
    dt: Time,
    to_client: Seq<Draws>,
    to_server: Seq<Draws>,
)
    requires
        perfect(h.to_client),
        perfect(h.to_server),
        ({
            let (server, from_server, _) = h.server.updated(dt).drained();
            let heard = endpoint_heard(
                h.client.updated(dt),
                survivors(from_server, h.lost, 0),
            );
            let (client, from_client, _) = heard.drained();
            &&& h.server.updated(dt).drained().2 is None
            &&& heard.drained().2 is None
            &&& h.to_client.sent + from_server.len() + 2 <= u64::MAX
            &&& h.to_server.sent + from_client.len() + 2 <= u64::MAX
            &&& super::all_drawn(to_client, from_server.len())
            &&& super::all_drawn(to_server, from_client.len())
        }),
    ensures
        ({
            let (next, error) = h.advanced(dt, to_client, to_server);
            let (server, from_server, _) = h.server.updated(dt).drained();
            let arrived = survivors(from_server, h.lost, 0);
            let heard = endpoint_heard(h.client.updated(dt), arrived);
            let (client, from_client, _) = heard.drained();
            &&& error is None
            &&& next.client == client
            &&& next.server == endpoint_heard(server, from_client)
            &&& perfect(next.to_client)
            &&& perfect(next.to_server)
            &&& next.lost == h.lost
            &&& next.stats.server_sent == (h.stats.server_sent + from_server.len())
                % 0x1_0000_0000
            &&& next.stats.client_received == (h.stats.client_received + arrived.len())
                % 0x1_0000_0000
            &&& next.stats.client_sent == (h.stats.client_sent + from_client.len())
                % 0x1_0000_0000
            &&& next.stats.server_received == (h.stats.server_received + from_client.len())
                % 0x1_0000_0000
        }),
{
    let (server, from_server, _) = h.server.updated(dt).drained();
    let to = super::fed(h.to_client, from_server, h.lost, to_client, 0);
    lemma_fed_in_order(h.to_client, from_server, h.lost, to_client, 0);
    assert(contents(h.to_client) + survivors(from_server, h.lost, 0) =~= survivors(
        from_server,
        h.lost,
        0,
    ));
    lemma_endpoint_heard(h.client.updated(dt), to);
    let heard = endpoint_heard(h.client.updated(dt), survivors(from_server, h.lost, 0));
    let (client, from_client, _) = heard.drained();
    let from = super::fed(h.to_server, from_client, Seq::empty(), to_server, 0);
    lemma_fed_in_order(h.to_server, from_client, Seq::empty(), to_server, 0);
    lemma_none_lost(from_client, 0);
    assert(contents(from) =~= from_client);
    lemma_endpoint_heard(server, from);
    assert(contents(to).len() == to.items.len());
    assert(contents(from).len() == from.items.len());
}

proof fn lemma_none_lost<T>(packets: Seq<T>, i: int)
    requires
        0 <= i <= packets.len(),
    ensures
        survivors(packets, Seq::empty(), i) == packets.skip(i),
    decreases packets.len() - i,
{
    if i < packets.len() {
        lemma_none_lost(packets, i + 1);
        assert(seq![packets[i]] + packets.skip(i + 1) =~= packets.skip(i));
    } else {
        assert(packets.skip(i) =~= Seq::empty());
    }
}

/// A client after packets were received, one after the other.
pub open spec fn client_heard(c: ClientView, sent: Seq<AddressedView>) -> ClientView
    decreases sent.len(),
{
    if sent.len() == 0 {
        c
    } else {
        client_heard(c.received(sent[0].bytes, sent[0].address).0, sent.skip(1))
    }
}

/// A server after packets were received, one after the other, with the salts made up for them, from
/// number `i` on.
pub open spec fn server_heard(
    s: ServerView,
    sent: Seq<AddressedView>,
    salts: Seq<u64>,
    i: int,
) -> ServerView
    decreases sent.len(),
{
    if sent.len() == 0 {
        s
    } else {
        server_heard(
            s.received(sent[0].bytes, sent[0].address, salts[i]).0,
            sent.skip(1),
            salts,
            i + 1,
        )
    }
}

proof fn lemma_client_heard(c: ClientView, pipe: PipeView<AddressedView>)
    requires
        !pipe.config.enabled,
        pipe.in_order(),
        pipe.sent + 2 <= u64::MAX,
    ensures
        protocol_harness::client_took(c, pipe) == client_heard(c, contents(pipe)),
    decreases pipe.items.len(),
{
    if pipe.items.len() > 0 {
        lemma_first_out(pipe);
        let p = pipe.items[0].1;
        lemma_client_heard(c.received(p.bytes, p.address).0, pipe.taken());
    }
}

proof fn lemma_server_heard(s: ServerView, pipe: PipeView<AddressedView>, salts: Seq<u64>, i: int)
    requires
        !pipe.config.enabled,
        pipe.in_order(),
        pipe.sent + 2 <= u64::MAX,
    ensures
        protocol_harness::server_took(s, pipe, salts, i) == server_heard(
            s,
            contents(pipe),
            salts,
            i,
        ),
    decreases pipe.items.len(),
{
    if pipe.items.len() > 0 {
        lemma_first_out(pipe);
        let p = pipe.items[0].1;
        lemma_server_heard(
            s.received(p.bytes, p.address, salts[i]).0,
            pipe.taken(),
            salts,
            i + 1,
        );
    }
}

proof fn lemma_counted_on(count: u32, m: nat, n: nat)
    ensures
        ((count + m) % 0x1_0000_0000 + n) % 0x1_0000_0000 == (count + m + n) % 0x1_0000_0000,
{
}

proof fn lemma_to_client(h: ProtocolHarnessView, sent: Seq<AddressedView>, draws: Seq<Draws>)
    requires
        perfect(h.to_client),
        h.to_client.sent + sent.len() + 2 <= u64::MAX,
        super::all_drawn(draws, sent.len()),
    ensures
        ({
            let next = h.passed_to_client(sent, draws);
            let arrived = survivors(sent, h.lost, 0);
            &&& next.client == client_heard(h.client, arrived)
            &&& next.server == h.server
            &&& perfect(next.to_client)
            &&& next.to_server == h.to_server
            &&& next.lost == h.lost
            &&& next.stats.server_sent == (h.stats.server_sent + sent.len()) % 0x1_0000_0000
            &&& next.stats.client_received == (h.stats.client_received + arrived.len())
                % 0x1_0000_0000
            &&& next.stats.client_sent == h.stats.client_sent
            &&& next.stats.server_received == h.stats.server_received
        }),
{
    let to = super::fed(h.to_client, sent, h.lost, draws, 0);
    let arrived = survivors(sent, h.lost, 0);
    lemma_fed_in_order(h.to_client, sent, h.lost, draws, 0);
    assert(contents(h.to_client) + arrived =~= arrived);
    lemma_client_heard(h.client, to);
    assert(contents(to).len() == to.items.len());
}

proof fn lemma_to_server(
    h: ProtocolHarnessView,
    sent: Seq<AddressedView>,
    draws: Seq<Draws>,
    salts: Seq<u64>,
)
    requires
        perfect(h.to_server),
        h.to_server.sent + sent.len() + 2 <= u64::MAX,
        super::all_drawn(draws, sent.len()),
    ensures
        ({
            let next = h.passed_to_server(sent, draws, salts);
            &&& next.server == server_heard(h.server, sent, salts, 0)
            &&& next.client == h.client
            &&& perfect(next.to_server)
            &&& next.to_client == h.to_client
            &&& next.lost == h.lost
            &&& next.stats.server_sent == (h.stats.server_sent + sent.len()) % 0x1_0000_0000
            &&& next.stats.server_received == (h.stats.server_received + sent.len())
                % 0x1_0000_0000
            &&& next.stats.client_sent == h.stats.client_sent
            &&& next.stats.client_received == h.stats.client_received
        }),
{
    let from = super::fed(h.to_server, sent, Seq::empty(), draws, 0);
    lemma_fed_in_order(h.to_server, sent, Seq::empty(), draws, 0);
    lemma_none_lost(sent, 0);
    assert(contents(from) =~= sent);
    lemma_server_heard(h.server, from, salts, 0);
    assert(contents(from).len() == from.items.len());
}

/// Over a perfect network, the client receives all that the server sends as time passes, in order,
/// but for those packets that are to be lost. The server then receives all that the client sends,
/// in order. Both clocks move on, both pipes are empty in the end, and all packets are counted,
/// those that were sent in one count.
#[verifier::spinoff_prover]
#[verifier::rlimit(60)]
pub proof fn lemma_perfect_protocol(
    h: ProtocolHarnessView,
    dt: Time,
    to_client: Seq<Draws>,
    to_server: Seq<Draws>,
    salts: Seq<u64>,
)
    requires
        perfect(h.to_client),
        perfect(h.to_server),
        ({
            let from_server = h.server.updated(dt).collected().sent;
            let heard = client_heard(h.client.updated(dt), survivors(from_server, h.lost, 0));
            let (client, from_client, _) = heard.collected();
            &&& h.server.updated(dt).collected().error is None
            &&& heard.collected().2 is None
            &&& h.to_client.sent + from_server.len() + 2 <= u64::MAX
            &&& h.to_server.sent + from_client.len() + 2 <= u64::MAX
            &&& super::all_drawn(to_client, from_server.len())
            &&& super::all_drawn(to_server, from_client.len())
        }),
    ensures
        ({
            let (next, error) = h.advanced(dt, to_client, to_server, salts);
            let server = h.server.updated(dt).collected().server;
            let from_server = h.server.updated(dt).collected().sent;
            let arrived = survivors(from_server, h.lost, 0);
            let heard = client_heard(h.client.updated(dt), arrived);
            let (client, from_client, _) = heard.collected();
            &&& error is None
            &&& next.client == client
            &&& next.server == server_heard(server, from_client, salts, 0)
            &&& perfect(next.to_client)
            &&& perfect(next.to_server)
            &&& next.lost == h.lost
            &&& next.stats.server_sent == (h.stats.server_sent + from_server.len()
                + from_client.len()) % 0x1_0000_0000
            &&& next.stats.client_received == (h.stats.client_received + arrived.len())
                % 0x1_0000_0000
            &&& next.stats.client_sent == h.stats.client_sent
            &&& next.stats.server_received == (h.stats.server_received + from_client.len())
                % 0x1_0000_0000
        }),
{
    let c = h.server.updated(dt).collected();
    let first = ProtocolHarnessView {
        server: c.server,
        client: h.client.updated(dt),
        ..h
    };
    assert(ProtocolHarnessView { server: c.server, ..h.updated(dt) } == first);
    lemma_to_client(first, c.sent, to_client);
    let second = first.passed_to_client(c.sent, to_client);
    let (client, from_client, _) = second.client.collected();
    lemma_to_server(
        ProtocolHarnessView { client, ..second },
        from_client,
        to_server,
        salts,
    );
    lemma_counted_on(h.stats.server_sent, c.sent.len(), from_client.len());
}

} // verus!
