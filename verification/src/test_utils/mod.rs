//! A basic test harness that creates two endpoints, and transfers messages via `JitterPipe`s for
//! configurable packet loss etc.
//!
//! Used in integration tests.

pub mod message_harness;
pub mod protocol_harness;
pub mod transport;

pub use message_harness::MessageTestHarness;
pub use protocol_harness::ProtocolTestHarness;

use crate::entropy;
use crate::jitter_pipe::{Draws, PipeView};
use vstd::prelude::*;

verus! {

/// A size for a payload that takes up to `max_fragments` fragments, for a number drawn at random.
pub fn payload_size(drawn: u64, max_fragments: u32) -> (r: u32)
    requires
        0 < max_fragments,
        1024 * max_fragments <= u32::MAX,
    ensures
        r == 1 + drawn % ((1024 * max_fragments - 1) as u64),
        1 <= r < 1024 * max_fragments,
{
    1 + (drawn % (1024 * max_fragments as u64 - 1)) as u32
}

/// A payload of random bytes that takes up to `max_fragments` fragments.
pub fn random_payload_max_frags(max_fragments: u32) -> (r: Vec<u8>)
    requires
        0 < max_fragments,
        1024 * max_fragments <= u32::MAX,
    ensures
        1 <= r@.len() < 1024 * max_fragments,
{
    random_payload(payload_size(entropy::random_u64(), max_fragments))
}

/// A payload of `size` random bytes.
pub fn random_payload(size: u32) -> (r: Vec<u8>)
    ensures
        r@.len() == size,
{
    let mut b: Vec<u8> = Vec::new();
    let mut bits: u64 = 0;
    let mut i: u32 = 0;
    while i < size
        invariant
            i <= size,
            b@.len() == i,
        decreases size - i,
    {
        // every number drawn is good for eight bytes
        if i % 8 == 0 {
            bits = entropy::random_u64();
        }
        b.push((bits % 256) as u8);
        bits = bits / 256;
        i = i + 1;
    }
    b
}

/// How many packets were sent and received. The counts wrap around at the end of their range.
#[derive(Debug, Clone, Copy, PartialEq, Eq, Structural)]
pub struct TransmissionStats {
    pub server_sent: u32,
    pub server_received: u32,
    pub client_sent: u32,
    pub client_received: u32,
}

impl Default for TransmissionStats {
    fn default() -> (r: Self)
        ensures
            r == (TransmissionStats {
                server_sent: 0,
                server_received: 0,
                client_sent: 0,
                client_received: 0,
            }),
    {
        TransmissionStats { server_sent: 0, server_received: 0, client_sent: 0, client_received: 0 }
    }
}

/// A count with `n` more.
pub open spec fn counted(count: u32, n: nat) -> u32 {
    ((count + n) % 0x1_0000_0000) as u32
}

/// Whether `x` is one of the numbers in `v`.
pub(crate) fn is_in(v: &Vec<u32>, x: u32) -> (r: bool)
    ensures
        r == v@.contains(x),
{
    let mut i: usize = 0;
    while i < v.len()
        invariant
            i <= v@.len(),
            forall|j: int| 0 <= j < i ==> v@[j] != x,
        decreases v@.len() - i,
    {
        if v[i] == x {
            return true;
        }
        i = i + 1;
    }
    false
}

/// A pipe after packets from number `i` on were put in, except those of which the numbers are in
/// `lost`, for the numbers drawn for each.
pub open spec fn fed<T>(
    pipe: PipeView<T>,
    packets: Seq<T>,
    lost: Seq<u32>,
    draws: Seq<Draws>,
    i: int,
) -> PipeView<T>
    decreases packets.len() - i,
{
    if i >= packets.len() {
        pipe
    } else {
        let next = if lost.contains(i as u32) {
            pipe
        } else {
            pipe.inserted(packets[i], packets[i], draws[i])
        };
        fed(next, packets, lost, draws, i + 1)
    }
}

/// The numbers drawn for `n` packets.
pub open spec fn all_drawn(draws: Seq<Draws>, n: nat) -> bool {
    draws.len() == n && forall|i: int| 0 <= i < n ==> (#[trigger] draws[i]).valid()
}

pub(crate) proof fn lemma_fed_split<T>(
    pipe: PipeView<T>,
    packets: Seq<T>,
    lost: Seq<u32>,
    draws: Seq<Draws>,
    more: Seq<Draws>,
    i: int,
)
    requires
        0 <= i <= packets.len(),
        draws.len() >= packets.len(),
    ensures
        fed(pipe, packets, lost, draws + more, i) == fed(pipe, packets, lost, draws, i),
    decreases packets.len() - i,
{
    if i < packets.len() {
        assert((draws + more)[i] == draws[i]);
        let next = if lost.contains(i as u32) {
            pipe
        } else {
            pipe.inserted(packets[i], packets[i], draws[i])
        };
        lemma_fed_split(next, packets, lost, draws, more, i + 1);
    }
}

/// A pipe after the first `n` of some packets were put in.
pub(crate) proof fn lemma_fed_push<T>(
    pipe: PipeView<T>,
    packets: Seq<T>,
    lost: Seq<u32>,
    draws: Seq<Draws>,
    from: int,
    n: int,
)
    requires
        0 <= from <= n < packets.len(),
        n < draws.len(),
    ensures
        fed(pipe, packets.take(n + 1), lost, draws, from) == ({
            let before = fed(pipe, packets.take(n), lost, draws, from);
            if lost.contains(n as u32) {
                before
            } else {
                before.inserted(packets[n], packets[n], draws[n])
            }
        }),
    decreases n - from,
{
    reveal_with_fuel(fed, 2);
    let next = if lost.contains(from as u32) {
        pipe
    } else {
        pipe.inserted(packets[from], packets[from], draws[from])
    };
    if from < n {
        lemma_fed_push(next, packets, lost, draws, from + 1, n);
        assert(packets.take(n)[from] == packets[from]);
        assert(packets.take(n + 1)[from] == packets[from]);
    } else {
        assert(packets.take(n + 1)[n] == packets[n]);
    }
}

/// All packets in a pipe are as they should be.
pub open spec fn all_in_pipe<T>(pipe: PipeView<T>, ok: spec_fn(T) -> bool) -> bool {
    forall|i: int| 0 <= i < pipe.items.len() ==> ok((#[trigger] pipe.items[i]).1)
}

pub(crate) proof fn lemma_fed_ok<T>(
    pipe: PipeView<T>,
    packets: Seq<T>,
    lost: Seq<u32>,
    draws: Seq<Draws>,
    i: int,
    ok: spec_fn(T) -> bool,
)
    requires
        0 <= i <= packets.len(),
        all_in_pipe(pipe, ok),
        forall|j: int| 0 <= j < packets.len() ==> ok(#[trigger] packets[j]),
    ensures
        all_in_pipe(fed(pipe, packets, lost, draws, i), ok),
    decreases packets.len() - i,
{
    if i < packets.len() {
        let next = if lost.contains(i as u32) {
            pipe
        } else {
            pipe.inserted(packets[i], packets[i], draws[i])
        };
        assert forall|j: int| 0 <= j < next.items.len() implies ok((#[trigger] next.items[j]).1) by {
            if j < pipe.items.len() {
                assert(next.items[j] == pipe.items[j]);
            } else {
                assert(ok(packets[i]));
                assert(next.items[j].1 == packets[i]);
            }
        }
        lemma_fed_ok(next, packets, lost, draws, i + 1, ok);
    }
}

/// A pipe that all packets were taken out of.
pub open spec fn drained_pipe<T>(pipe: PipeView<T>) -> PipeView<T> {
    PipeView { items: Seq::empty(), ..pipe }
}

pub(crate) proof fn lemma_taken_ok<T>(pipe: PipeView<T>, ok: spec_fn(T) -> bool)
    requires
        pipe.items.len() > 0,
        all_in_pipe(pipe, ok),
    ensures
        ok(pipe.items[pipe.next()].1),
        all_in_pipe(pipe.taken(), ok),
        pipe.taken().items.len() == pipe.items.len() - 1,
        drained_pipe(pipe.taken()) == drained_pipe(pipe),
{
    pipe.lemma_next();
    let i = pipe.next();
    assert forall|j: int| 0 <= j < pipe.taken().items.len() implies ok(
        (#[trigger] pipe.taken().items[j]).1,
    ) by {
        assert(pipe.taken().items[j] == pipe.items[if j < i {
            j
        } else {
            j + 1
        }]);
    }
}

} // verus!
