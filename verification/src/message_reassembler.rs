//! Puts fragments together to the messages that they are parts of.

use crate::protocol::message::{Message, MessageView};
use crate::received_message::{self, ReceivedMessage, ReceivedView};
use crate::MAX_FRAGMENTS;
use std::collections::HashMap;
use vstd::prelude::*;

verus! {

/// The fragments that have arrived of each message, by the id of the message.
pub type Parts = Seq<Option<MessageView>>;

/// How many of the first `n` fragments have arrived.
pub open spec fn arrived(parts: Parts, n: int) -> nat
    decreases n,
{
    if n <= 0 {
        0
    } else if parts[n - 1] is Some {
        arrived(parts, n - 1) + 1
    } else {
        arrived(parts, n - 1)
    }
}

/// No fragment has arrived.
pub open spec fn no_parts(num_fragments: nat) -> Parts {
    Seq::new(num_fragments, |i: int| None)
}

proof fn lemma_arrived_none(num_fragments: nat, n: int)
    requires
        0 <= n <= num_fragments,
    ensures
        arrived(no_parts(num_fragments), n) == 0,
    decreases n,
{
    if n > 0 {
        lemma_arrived_none(num_fragments, n - 1);
    }
}

proof fn lemma_arrived_update(parts: Parts, n: int, i: int, m: MessageView)
    requires
        0 <= n <= parts.len(),
        0 <= i < parts.len(),
        parts[i] is None,
    ensures
        arrived(parts.update(i, Some(m)), n) == arrived(parts, n) + (if i < n {
            1nat
        } else {
            0
        }),
    decreases n,
{
    if n > 0 {
        lemma_arrived_update(parts, n - 1, i, m);
    }
}

proof fn lemma_arrived_bound(parts: Parts, n: int)
    requires
        0 <= n <= parts.len(),
    ensures
        arrived(parts, n) <= n,
        arrived(parts, n) == n <==> (forall|i: int| 0 <= i < n ==> (#[trigger] parts[i]) is Some),
    decreases n,
{
    if n > 0 {
        lemma_arrived_bound(parts, n - 1);
        if arrived(parts, n) == n {
            assert(parts[n - 1] is Some);
        }
        if forall|i: int| 0 <= i < n ==> (#[trigger] parts[i]) is Some {
            assert(parts[n - 1] is Some);
        }
    }
}

/// A message being assembled from fragments.
struct IncompleteMessage {
    num_fragments: u16,
    num_received_fragments: u16,
    fragments: Vec<Option<Message>>,
}

impl View for IncompleteMessage {
    type V = Parts;

    closed spec fn view(&self) -> Parts {
        received_message::part_views(self.fragments@)
    }
}

impl IncompleteMessage {
    /// The counts are right, and every fragment is one of the message with id `parent`.
    spec fn wf(&self, parent: u16) -> bool {
        &&& self.fragments@.len() == self.num_fragments
        &&& 1 < self.num_fragments <= MAX_FRAGMENTS
        &&& self.num_received_fragments == arrived(self@, self@.len() as int)
        &&& forall|i: int|
            0 <= i < self@.len() ==> (#[trigger] self@[i] matches Some(m) ==> part_of(m, parent))
    }

    fn new(num_fragments: u16) -> (r: Self)
        requires
            1 < num_fragments <= MAX_FRAGMENTS,
        ensures
            forall|parent: u16| r.wf(parent),
            r@ == no_parts(num_fragments as nat),
    {
        let mut fragments: Vec<Option<Message>> = Vec::with_capacity(num_fragments as usize);
        let mut i: u16 = 0;
        while i < num_fragments
            invariant
                i <= num_fragments,
                fragments@.len() == i,
                forall|j: int| 0 <= j < i ==> (#[trigger] fragments@[j]) is None,
            decreases num_fragments - i,
        {
            fragments.push(None);
            i = i + 1;
        }
        let r = IncompleteMessage { num_fragments, num_received_fragments: 0, fragments };
        assert(r@ =~= no_parts(num_fragments as nat));
        proof {
            lemma_arrived_none(num_fragments as nat, num_fragments as int);
        }
        r
    }

    /// Adds a fragment, unless it has no place or its place is taken. True if it was the one that
    /// was missing.
    fn add_fragment(&mut self, frag_index: u16, message: Message, Ghost(parent): Ghost<u16>) -> (r:
        bool)
        requires
            old(self).wf(parent),
            part_of(message@, parent),
        ensures
            final(self).wf(parent),
            final(self)@ == with_part(old(self)@, frag_index, message@),
            r == (final(self)@ != old(self)@ && received_message::complete(final(self)@)),
    {
        if frag_index >= self.num_fragments {
            return false;
        }
        if self.fragments[frag_index as usize].is_some() {
            assert(self@[frag_index as int] is Some);
            return false;
        }
        proof {
            assert(self@[frag_index as int] is None);
            lemma_arrived_update(self@, self@.len() as int, frag_index as int, message@);
            lemma_arrived_bound(
                self@.update(frag_index as int, Some(message@)),
                self@.len() as int,
            );
        }
        self.fragments.set(frag_index as usize, Some(message));
        self.num_received_fragments = self.num_received_fragments + 1;
        assert(self@ =~= old(self)@.update(frag_index as int, Some(message@)));
        assert(self@[frag_index as int] != old(self)@[frag_index as int]);
        self.num_received_fragments == self.num_fragments
    }
}

/// Whether `m` is a fragment of the message with id `parent`.
pub open spec fn part_of(m: MessageView, parent: u16) -> bool {
    m.wf() && m.fragment is Some && m.fragment->0.parent_id.0 == parent
}

/// With a fragment in its place, unless it has none or its place is taken.
pub open spec fn with_part(parts: Parts, index: u16, m: MessageView) -> Parts {
    if index < parts.len() && parts[index as int] is None {
        parts.update(index as int, Some(m))
    } else {
        parts
    }
}

/// The messages in progress after fragment `m` arrived, and the message that it completed, if
/// any. A fragment of a message with too many fragments, or with a single one, is discarded.
pub open spec fn fragment_added(in_progress: Map<u16, Parts>, m: MessageView) -> (
    Map<u16, Parts>,
    Option<ReceivedView>,
) {
    let f = m.fragment->0;
    let parent = f.parent_id.0;
    let started = in_progress.contains_key(parent);
    let before = if started {
        in_progress[parent]
    } else {
        no_parts(f.num_fragments as nat)
    };
    let after = with_part(before, f.index, m);
    if f.num_fragments > MAX_FRAGMENTS || (!started && f.num_fragments < 2) || after == before {
        (in_progress, None)
    } else if received_message::complete(after) {
        (in_progress.remove(parent), Some(received_message::assembled(after)))
    } else {
        (in_progress.insert(parent, after), None)
    }
}

/// Whether parts are those of the message with id `parent`.
pub open spec fn sound(parts: Parts, parent: u16) -> bool {
    &&& 1 < parts.len() <= 1024
    &&& forall|i: int|
        0 <= i < parts.len() ==> (#[trigger] parts[i] matches Some(m) ==> part_of(m, parent))
}

/// What a fragment that arrives does. It takes its place among the fragments of its message, unless
/// it has none, or its place is taken, or the message cannot be: one of a single fragment, or of more
/// than 1024. Fragments that have arrived before stay, and no other message is affected. Once none
/// is missing, the message is complete, and no longer in progress.
pub proof fn lemma_fragment_added(in_progress: Map<u16, Parts>, m: MessageView)
    requires
        m.fragment is Some,
        m.wf(),
        forall|k: u16| #[trigger] in_progress.contains_key(k) ==> sound(in_progress[k], k),
    ensures
        ({
            let f = m.fragment->0;
            let parent = f.parent_id.0;
            let (next, done) = fragment_added(in_progress, m);
            let started = in_progress.contains_key(parent);
            let parts = in_progress[parent];
            let len: nat = if started {
                parts.len()
            } else {
                f.num_fragments as nat
            };
            let fits = f.index < len && f.num_fragments <= 1024 && (started ==> parts[f.index as int]
                is None) && (started || f.num_fragments > 1);
            &&& forall|k: u16|
                k != parent ==> #[trigger] next.contains_key(k) == in_progress.contains_key(k)
            &&& forall|k: u16| k != parent ==> #[trigger] next[k] == in_progress[k]
            &&& !fits ==> next == in_progress && done is None
            &&& fits ==> {
                let missing = exists|i: int|
                    0 <= i < len && i != f.index && (started ==> (#[trigger] parts[i]) is None);
                &&& done is None <==> missing
                &&& missing ==> {
                    &&& next.contains_key(parent)
                    &&& next[parent].len() == len
                    &&& next[parent][f.index as int] == Some(m)
                    &&& forall|i: int|
                        0 <= i < len && i != f.index && started ==> #[trigger] next[parent][i]
                            == parts[i]
                    &&& forall|i: int|
                        0 <= i < len && i != f.index && !started ==> #[trigger] next[parent][i]
                            is None
                }
                &&& !missing ==> !next.contains_key(parent)
            }
        }),
{
    let f = m.fragment->0;
    let parent = f.parent_id.0;
    let started = in_progress.contains_key(parent);
    let parts = in_progress[parent];
    let before = if started {
        parts
    } else {
        no_parts(f.num_fragments as nat)
    };
    let after = with_part(before, f.index, m);
    if f.index < before.len() && before[f.index as int] is None {
        assert(after[f.index as int] == Some(m));
        assert(after != before);
        if !started && f.num_fragments > 1 {
            let other: int = if f.index == 0 {
                1
            } else {
                0
            };
            assert(after[other] is None);
            assert(!received_message::complete(after));
            assert(0 <= other < f.num_fragments && other != f.index && (started ==> parts[other]
                is None));
        }
        if started {
            if exists|i: int| 0 <= i < parts.len() && i != f.index && (#[trigger] parts[i]) is None {
                let i = choose|i: int|
                    0 <= i < parts.len() && i != f.index && (#[trigger] parts[i]) is None;
                assert(after[i] is None);
                assert(!received_message::complete(after));
            } else {
                assert forall|i: int| 0 <= i < after.len() implies (#[trigger] after[i] matches Some(
                    x,
                ) && x.wf() && x.fragment is Some) by {
                    if i != f.index {
                        assert(parts[i] is Some);
                        assert(after[i] == parts[i]);
                    }
                }
                assert(received_message::complete(after));
            }
        }
    }
}

/// The messages of which some fragments have arrived.
pub struct MessageReassembler {
    in_progress: HashMap<u16, IncompleteMessage>,
}

impl View for MessageReassembler {
    type V = Map<u16, Parts>;

    closed spec fn view(&self) -> Map<u16, Parts> {
        self.in_progress@.map_values(|m: IncompleteMessage| m@)
    }
}

impl MessageReassembler {
    /// Every message in progress is made up of its own fragments.
    pub closed spec fn wf(&self) -> bool {
        forall|k: u16| #[trigger]
            self.in_progress@.contains_key(k) ==> self.in_progress@[k].wf(k)
    }

    /// No message is in progress.
    pub fn new() -> (r: Self)
        ensures
            r.wf(),
            r@ == Map::<u16, Parts>::empty(),
    {
        broadcast use vstd::std_specs::hash::group_hash_axioms;

        let r = MessageReassembler { in_progress: HashMap::new() };
        assert(r@ =~= Map::<u16, Parts>::empty());
        r
    }

    /// Adds a fragment. Gives the message that it completes, if it does.
    pub fn add_fragment(&mut self, message: Message) -> (r: Option<ReceivedMessage>)
        requires
            old(self).wf(),
            message@.wf(),
            message@.fragment is Some,
        ensures
            final(self).wf(),
            final(self)@ == fragment_added(old(self)@, message@).0,
            match r {
                Some(m) => m.wf() && fragment_added(old(self)@, message@).1 == Some(m@),
                None => fragment_added(old(self)@, message@).1 is None,
            },
    {
        broadcast use vstd::std_specs::hash::group_hash_axioms;

        let fragment = *message.fragment().unwrap();
        if fragment.num_fragments > MAX_FRAGMENTS as u16 {
            return None;
        }
        let parent_id = fragment.parent_id.0;
        let ghost before = self.in_progress@;
        match self.in_progress.remove(&parent_id) {
            Some(existing) => {
                let mut incomplete = existing;
                let ghost old_parts = incomplete@;
                let ghost m = message@;
                let ready = incomplete.add_fragment(fragment.index, message, Ghost(parent_id));
                assert(old(self)@[parent_id] == old_parts);
                if ready {
                    assert(self@ =~= old(self)@.remove(parent_id));
                    Some(ReceivedMessage::new_fragmented(incomplete.fragments))
                } else {
                    proof {
                        if incomplete@ == old_parts {
                            assert(old(self)@.insert(parent_id, incomplete@) =~= old(self)@);
                        }
                    }
                    let ghost parts = incomplete@;
                    self.in_progress.insert(parent_id, incomplete);
                    assert(self@ =~= old(self)@.insert(parent_id, parts));
                    None
                }
            },
            None => {
                assert(self.in_progress@ =~= before);
                if fragment.num_fragments < 2 || fragment.index >= fragment.num_fragments {
                    return None;
                }
                let mut incomplete = IncompleteMessage::new(fragment.num_fragments);
                let ghost old_parts = incomplete@;
                let ghost m = message@;
                let ready = incomplete.add_fragment(fragment.index, message, Ghost(parent_id));
                proof {
                    let other: int = if fragment.index == 0 {
                        1
                    } else {
                        0
                    };
                    assert(incomplete@[other] is None);
                    assert(incomplete@[fragment.index as int] is Some);
                }
                let ghost parts = incomplete@;
                self.in_progress.insert(parent_id, incomplete);
                assert(self@ =~= old(self)@.insert(parent_id, parts));
                None
            },
        }
    }
}

} // verus!
