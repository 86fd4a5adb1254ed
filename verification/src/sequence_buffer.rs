//! A ring of entries addressed by wrapping 16 bit sequence numbers.

use crate::buffer_pool;
use crate::error::PicklebackError;
use vstd::prelude::*;

verus! {

/// Marks a slot that holds nothing.
const EMPTY_SLOT: u32 = 0xFFFF_FFFF;

/// Whether `s1` is the more recent of two wrapping sequence numbers: it lies less than half
/// the number space ahead of `s2`. Exactly half a space apart, the larger number wins.
pub open spec fn seq_gt(s1: u16, s2: u16) -> bool {
    let ahead = (s1 - s2) % 0x1_0000;
    0 < ahead < 0x8000 || (ahead == 0x8000 && s1 > s2)
}

/// What a `SequenceBuffer` holds.
#[verifier::ext_equal]
pub struct Window<T> {
    /// The entries present, by sequence number.
    pub contents: Map<u16, T>,
    /// The greatest sequence number inserted.
    pub sequence: u16,
    /// The number of slots.
    pub size: nat,
}

impl<T> Window<T> {
    /// A window of `size` slots without entries.
    pub open spec fn fresh(size: nat) -> Self {
        Window { contents: Map::empty(), sequence: 0, size }
    }

    /// Sequence numbers that differ by a multiple of this share a slot.
    pub open spec fn modulus(self) -> int {
        self.size as int % 0x1_0000
    }

    /// The slot that `sequence` goes to.
    pub open spec fn slot(self, sequence: u16) -> int {
        sequence as int % self.modulus()
    }

    /// The sequence number one window behind the greatest one.
    pub open spec fn base(self) -> u16 {
        ((self.sequence - self.size as int) % 0x1_0000) as u16
    }

    /// Whether `sequence` lies within the window or ahead of it.
    pub open spec fn in_range(self, sequence: u16) -> bool {
        seq_gt(sequence, self.base())
    }

    /// Whether an insert of `sequence` is refused.
    pub open spec fn too_old(self, sequence: u16) -> bool {
        seq_gt(self.base(), sequence)
    }

    /// Whether some number from `start` to `end` goes to the slot of `k`.
    pub open spec fn hit(self, start: u16, end: u16, k: u16) -> bool {
        exists|i: u16| start <= i <= end && #[trigger] self.slot(i) == self.slot(k)
    }

    /// Without the entries in the slots of the numbers from `start` to `end`.
    pub open spec fn range_removed(self, start: u16, end: u16) -> Self {
        Window {
            contents: self.contents.restrict(Set::new(|k: u16| !self.hit(start, end, k))),
            ..self
        }
    }

    /// Without the entry in the slot of `sequence`.
    pub open spec fn removed(self, sequence: u16) -> Self {
        Window {
            contents: self.contents.restrict(
                Set::new(|k: u16| self.slot(k) != self.slot(sequence)),
            ),
            ..self
        }
    }

    /// With the numbers skipped by a jump ahead to `sequence` cleared out.
    pub open spec fn advanced(self, sequence: u16) -> Self {
        let next = self.sequence.wrapping_add(1);
        if seq_gt(sequence, self.sequence) {
            let cleared = if next == sequence {
                self
            } else {
                self.range_removed(next, sequence)
            };
            Window { sequence, ..cleared }
        } else {
            self
        }
    }

    /// With `data` alone in the slot of `sequence`.
    pub open spec fn inserted_at(self, sequence: u16, data: T) -> Self {
        let w = self.removed(sequence);
        Window { contents: w.contents.insert(sequence, data), ..w }
    }

    /// With `data` as the entry of `sequence`.
    pub open spec fn inserted(self, sequence: u16, data: T) -> Self {
        self.advanced(sequence).inserted_at(sequence, data)
    }

    /// With `sequence` passed over: nothing is held for it.
    pub open spec fn skipped(self, sequence: u16) -> Self {
        self.advanced(sequence).removed(sequence)
    }

    /// With the value of an entry that is present replaced.
    pub open spec fn replaced(self, sequence: u16, data: T) -> Self {
        Window { contents: self.contents.insert(sequence, data), ..self }
    }

    /// The entry of `sequence`, if it is present.
    pub open spec fn lookup(self, sequence: u16) -> Option<T> {
        if self.contents.dom().contains(sequence) {
            Some(self.contents[sequence])
        } else {
            None
        }
    }

    /// The same window with `f` applied to each entry.
    pub open spec fn mapped<U>(self, f: spec_fn(T) -> U) -> Window<U> {
        Window {
            contents: Map::new(
                |k: u16| self.contents.dom().contains(k),
                |k: u16| f(self.contents[k]),
            ),
            sequence: self.sequence,
            size: self.size,
        }
    }

    /// Without the entries in the slots of the numbers from `start` up to, not including, `end`.
    spec fn range_removed_to(self, start: int, end: int) -> Self {
        Window {
            contents: self.contents.restrict(
                Set::new(
                    |k: u16|
                        forall|i: u16| start <= i < end ==> #[trigger] self.slot(i) != self.slot(k),
                ),
            ),
            ..self
        }
    }

    proof fn lemma_range_step(self, start: int, i: int)
        requires
            start <= i < 0x1_0000,
            0 <= start,
        ensures
            self.range_removed_to(start, i).removed(i as u16) == self.range_removed_to(start, i + 1),
    {
        let w = self.range_removed_to(start, i);
        assert forall|k: u16| #[trigger] w.removed(i as u16).contents.dom().contains(k)
            == self.range_removed_to(start, i + 1).contents.dom().contains(k) by {
            assert(w.slot(k) == self.slot(k) && w.slot(i as u16) == self.slot(i as u16));
        }
        assert(w.removed(i as u16) =~= self.range_removed_to(start, i + 1));
    }

    proof fn lemma_range_removed_to(self, start: u16, end: u16, i: int)
        requires
            i > end,
            i == end + 1 || i == start,
        ensures
            self.range_removed_to(start as int, i) == self.range_removed(start, end),
    {
        assert forall|k: u16| #[trigger] self.range_removed_to(start as int, i).contents.dom().contains(k)
            == self.range_removed(start, end).contents.dom().contains(k) by {
            if self.hit(start, end, k) {
                let j = choose|j: u16|
                    start <= j <= end && #[trigger] self.slot(j) == self.slot(k);
                assert(start <= j < i && self.slot(j) == self.slot(k));
            }
        }
        assert(self.range_removed_to(start as int, i) =~= self.range_removed(start, end));
    }

    /// Mapping the entries commutes with every change of the window.
    pub proof fn lemma_mapped<U>(self, f: spec_fn(T) -> U, sequence: u16, data: T)
        ensures
            self.inserted(sequence, data).mapped(f) == self.mapped(f).inserted(sequence, f(data)),
            self.replaced(sequence, data).mapped(f) == self.mapped(f).replaced(sequence, f(data)),
            self.removed(sequence).mapped(f) == self.mapped(f).removed(sequence),
            self.advanced(sequence).mapped(f) == self.mapped(f).advanced(sequence),
            self.skipped(sequence).mapped(f) == self.mapped(f).skipped(sequence),
            self.mapped(f).lookup(sequence) == (match self.lookup(sequence) {
                Some(t) => Some(f(t)),
                None => None,
            }),
    {
        let next = self.sequence.wrapping_add(1);
        let m = self.mapped(f);
        assert forall|k: u16| self.hit(next, sequence, k) == m.hit(next, sequence, k) by {
            if self.hit(next, sequence, k) {
                let i = choose|i: u16|
                    next <= i <= sequence && #[trigger] self.slot(i) == self.slot(k);
                assert(m.slot(i) == m.slot(k));
            }
            if m.hit(next, sequence, k) {
                let i = choose|i: u16| next <= i <= sequence && #[trigger] m.slot(i) == m.slot(k);
                assert(self.slot(i) == self.slot(k));
            }
        }
        assert(self.advanced(sequence).mapped(f) =~= m.advanced(sequence));
        assert(self.inserted(sequence, data).mapped(f) =~= m.inserted(sequence, f(data)));
        assert(self.replaced(sequence, data).mapped(f) =~= m.replaced(sequence, f(data)));
        assert(self.removed(sequence).mapped(f) =~= m.removed(sequence));
        assert(self.skipped(sequence).mapped(f) =~= m.skipped(sequence));
    }

    /// An insert leaves the entry present, and never moves the greatest sequence backwards.
    pub proof fn lemma_inserted(self, sequence: u16, data: T)
        ensures
            self.inserted(sequence, data).lookup(sequence) == Some(data),
            self.inserted(sequence, data).size == self.size,
            self.inserted(sequence, data).sequence == (if seq_gt(sequence, self.sequence) {
                sequence
            } else {
                self.sequence
            }),
            !seq_gt(self.sequence, self.inserted(sequence, data).sequence),
    {
        lemma_seq_gt_order(sequence, self.sequence);
    }

    /// Once a window has moved on to a number, an insert of that number is not refused. This takes a
    /// window of less than half of the numbers: a larger one cannot tell old numbers from new ones.
    pub proof fn lemma_advanced(self, sequence: u16)
        requires
            self.sequence == sequence || seq_gt(sequence, self.sequence),
            self.size < 0x8000,
        ensures
            self.advanced(sequence).sequence == sequence,
            self.advanced(sequence).size == self.size,
            !self.advanced(sequence).too_old(sequence),
            self.skipped(sequence).sequence == sequence,
            !self.skipped(sequence).too_old(sequence),
    {
        lemma_seq_gt_order(sequence, self.sequence);
    }

    /// An insert leaves all entries alone but those in its own slot and, if it jumps ahead, those in
    /// the slots of the numbers that are jumped over. Where numbers come one after the other, or out
    /// of order, nothing is lost but what shares the slot.
    pub proof fn lemma_insert_keeps(self, sequence: u16, data: T, k: u16)
        requires
            k as int % self.modulus() != sequence as int % self.modulus(),
        ensures
            sequence == self.sequence.wrapping_add(1) || !seq_gt(sequence, self.sequence)
                ==> self.inserted(sequence, data).lookup(k) == self.lookup(k),
            (forall|i: u16|
                self.sequence.wrapping_add(1) <= i <= sequence ==> #[trigger] (i as int
                    % self.modulus()) != k as int % self.modulus()) ==> self.inserted(
                sequence,
                data,
            ).lookup(k) == self.lookup(k),
            self.inserted(sequence, data).lookup(k) is Some ==> self.inserted(
                sequence,
                data,
            ).lookup(k) == self.lookup(k),
    {
        let next = self.sequence.wrapping_add(1);
        if forall|i: u16|
            next <= i <= sequence ==> #[trigger] (i as int % self.modulus()) != k as int
                % self.modulus() {
            if self.hit(next, sequence, k) {
                let i = choose|i: u16|
                    next <= i <= sequence && #[trigger] self.slot(i) == self.slot(k);
                assert(i as int % self.modulus() == k as int % self.modulus());
            }
        }
    }

    /// Which numbers a window takes: those that are less than its size behind the greatest one, and
    /// those that are ahead of it, but not too far.
    pub proof fn lemma_reach(self, sequence: u16)
        requires
            0 < self.size < 0x8000,
        ensures
            ({
                let behind = (self.sequence - sequence) % 0x1_0000;
                let ahead = (sequence - self.sequence) % 0x1_0000;
                &&& behind < self.size ==> self.in_range(sequence) && !self.too_old(sequence)
                &&& self.size <= behind < 0x8000 ==> !self.in_range(sequence)
                &&& self.size < behind < 0x8000 ==> self.too_old(sequence)
                &&& ahead + self.size < 0x8000 ==> self.in_range(sequence) && !self.too_old(
                    sequence,
                )
            }),
    {
    }

    /// A number that was jumped over, and so was never inserted, is not present, nor is one that
    /// shares a slot with such a number.
    pub proof fn lemma_jumped_over(self, sequence: u16, data: T, k: u16)
        requires
            self.sequence < k < sequence,
            seq_gt(sequence, self.sequence),
        ensures
            self.inserted(sequence, data).lookup(k) is None,
            forall|j: u16| #[trigger]
                self.inserted(sequence, data).lookup(j) is Some && j != sequence ==> j as int
                    % self.modulus() != k as int % self.modulus(),
    {
        let next = self.sequence.wrapping_add(1);
        assert forall|j: u16| j as int % self.modulus() == k as int % self.modulus() && j
            != sequence implies #[trigger] self.inserted(sequence, data).lookup(j) is None by {
            assert(self.slot(k) == self.slot(j));
            assert(self.hit(next, sequence, j));
        }
        assert(self.inserted(sequence, data).lookup(k) is None);
    }

    /// Removing an entry, or replacing its value, leaves all others alone that do not share its
    /// slot.
    pub proof fn lemma_remove_keeps(self, sequence: u16, data: T, k: u16)
        requires
            k as int % self.modulus() != sequence as int % self.modulus(),
        ensures
            self.removed(sequence).lookup(k) == self.lookup(k),
            self.removed(sequence).lookup(sequence) is None,
            self.removed(sequence).sequence == self.sequence,
            self.replaced(sequence, data).lookup(k) == self.lookup(k),
            self.replaced(sequence, data).lookup(sequence) == Some(data),
            self.replaced(sequence, data).sequence == self.sequence,
    {
    }

    /// Moving a window on to a number before inserting it makes no difference.
    pub proof fn lemma_advanced_inserted(self, sequence: u16, data: T)
        ensures
            self.advanced(sequence).inserted(sequence, data) == self.inserted(sequence, data),
            self.skipped(sequence).inserted(sequence, data) == self.inserted(sequence, data),
            self.skipped(sequence).size == self.size,
            self.skipped(sequence).sequence == self.advanced(sequence).sequence,
    {
        lemma_seq_gt_order(sequence, self.sequence);
        let a = self.advanced(sequence);
        assert(a.advanced(sequence) =~= a);
        let k = self.skipped(sequence);
        assert(k.advanced(sequence) =~= k);
        assert(k.inserted(sequence, data) =~= a.inserted_at(sequence, data));
    }
}

impl<T> Window<T> {
    /// No two entries share a slot.
    pub open spec fn slotted(self) -> bool {
        forall|a: u16, b: u16|
            #![trigger self.contents.dom().contains(a), self.contents.dom().contains(b)]
            self.contents.dom().contains(a) && self.contents.dom().contains(b) && self.slot(a)
                == self.slot(b) ==> a == b
    }

    /// No two entries ever share a slot.
    pub proof fn lemma_slotted(self, sequence: u16, data: T)
        ensures
            Self::fresh(self.size).slotted(),
            self.slotted() ==> self.inserted(sequence, data).slotted(),
            self.slotted() && self.lookup(sequence) is Some ==> self.replaced(
                sequence,
                data,
            ).slotted(),
            self.slotted() ==> self.removed(sequence).slotted(),
            self.slotted() ==> self.skipped(sequence).slotted(),
    {
    }
}

/// Bit `i` of a number, from the least significant.
pub open spec fn nth_bit(bits: nat, i: nat) -> bool
    decreases i,
{
    if i == 0 {
        bits % 2 == 1
    } else {
        nth_bit(bits / 2, (i - 1) as nat)
    }
}

/// The greatest number of bits number `i` to 31, moved down.
spec fn all_ones(i: int) -> nat
    decreases 32 - i,
{
    if i >= 32 {
        0
    } else {
        1 + 2 * all_ones(i + 1)
    }
}

impl<T> Window<T> {
    /// Whether there is an entry `i` sequence numbers before the greatest one.
    pub open spec fn has_recent(self, i: int) -> bool {
        self.contents.dom().contains(((self.sequence - i) % 0x1_0000) as u16)
    }

    /// A bit for each of the 32 sequence numbers from the greatest one back, set if there is an
    /// entry, from number `i` on.
    pub open spec fn recent_bits(self, i: int) -> nat
        decreases 32 - i,
    {
        if i >= 32 {
            0
        } else {
            (if self.has_recent(i) {
                1nat
            } else {
                0
            }) + 2 * self.recent_bits(i + 1)
        }
    }

    proof fn lemma_recent_bits_bound(self, i: int)
        ensures
            self.recent_bits(i) <= all_ones(i),
        decreases 32 - i,
    {
        if i < 32 {
            self.lemma_recent_bits_bound(i + 1);
        }
    }

    proof fn lemma_recent_bits_from(self, from: int, i: nat)
        requires
            0 <= from,
            from + i < 32,
        ensures
            nth_bit(self.recent_bits(from), i) == self.has_recent(from + i),
        decreases i,
    {
        if i > 0 {
            self.lemma_recent_bits_from(from + 1, (i - 1) as nat);
            assert(self.recent_bits(from) / 2 == self.recent_bits(from + 1));
        }
    }

    /// The bits say which of the recent sequence numbers have an entry, and fit into 32 bits.
    pub proof fn lemma_recent_bits(self, i: nat)
        requires
            i < 32,
        ensures
            nth_bit(self.recent_bits(0), i) == self.has_recent(i as int),
            self.recent_bits(0) <= 0xFFFF_FFFF,
    {
        self.lemma_recent_bits_from(0, i);
        self.lemma_recent_bits_bound(0);
        lemma_all_ones();
    }
}

proof fn lemma_all_ones()
    ensures
        all_ones(0) == 0xFFFF_FFFF,
{
    assert(all_ones(24) == 0xFF) by {
        reveal_with_fuel(all_ones, 9);
    }
    assert(all_ones(16) == 0xFFFF) by {
        reveal_with_fuel(all_ones, 9);
    }
    assert(all_ones(8) == 0xFF_FFFF) by {
        reveal_with_fuel(all_ones, 9);
    }
    assert(all_ones(0) == 0xFFFF_FFFF) by {
        reveal_with_fuel(all_ones, 9);
    }
}

/// No sequence number is ahead of itself, and of two different ones exactly one is ahead.
pub proof fn lemma_seq_gt_order(a: u16, b: u16)
    ensures
        !seq_gt(a, a),
        a != b ==> seq_gt(a, b) != seq_gt(b, a),
{
}

/// A number within the window is never refused by an insert.
pub proof fn lemma_in_range_not_too_old<T>(w: Window<T>, sequence: u16)
    ensures
        w.in_range(sequence) ==> !w.too_old(sequence),
{
    lemma_seq_gt_order(sequence, w.base());
}

/// Keeps the most recent entries by sequence number, as described in
/// <https://gafferongames.com/post/packet_fragmentation_and_reassembly/>.
pub struct SequenceBuffer<T> {
    entries: Vec<T>,
    entry_sequences: Vec<u32>,
    sequence: u16,
}

impl<T> View for SequenceBuffer<T> {
    type V = Window<T>;

    closed spec fn view(&self) -> Window<T> {
        let m = self.entries@.len() as int % 0x1_0000;
        Window {
            contents: Map::new(
                |k: u16| self.entry_sequences@[k as int % m] == k as u32,
                |k: u16| self.entries@[k as int % m],
            ),
            sequence: self.sequence,
            size: self.entries@.len(),
        }
    }
}

impl<T> SequenceBuffer<T> {
    /// The two arrays run in parallel.
    pub closed spec fn wf(&self) -> bool {
        self.entries@.len() == self.entry_sequences@.len()
    }

    /// What slot number `i` holds, whether or not it counts as present.
    pub closed spec fn raw(&self, i: int) -> T {
        self.entries@[i]
    }
}

impl<T: Default + Clone> SequenceBuffer<T> {
    /// A buffer of `size` empty slots.
    pub fn with_capacity(size: usize) -> (r: Self)
        ensures
            r.wf(),
            size as int % 0x1_0000 != 0 ==> r@ == Window::<T>::fresh(size as nat),
            r@.size == size,
            r@.sequence == 0,
    {
        let mut entries: Vec<T> = Vec::with_capacity(size);
        let mut entry_sequences: Vec<u32> = Vec::with_capacity(size);
        entries.resize(size, T::default());
        entry_sequences.resize(size, EMPTY_SLOT);
        let r = SequenceBuffer { entries, entry_sequences, sequence: 0 };
        proof {
            if size as int % 0x1_0000 != 0 {
                assert forall|k: u16| !r@.contents.dom().contains(k) by {
                    let m = size as int % 0x1_0000;
                    assert(0 <= k as int % m < m <= size);
                    assert(cloned::<u32>(EMPTY_SLOT, r.entry_sequences@[k as int % m]));
                }
                assert(r@.contents =~= Map::empty());
            }
        }
        r
    }

    /// The slot that `sequence` goes to.
    fn index(&self, sequence: u16) -> (r: usize)
        requires
            self.wf(),
            self@.modulus() != 0,
        ensures
            r == self@.slot(sequence),
            r < self.entries@.len(),
            r < self.entry_sequences@.len(),
    {
        let len = self.entries.len();
        let modulus: u16 = (len % 0x1_0000) as u16;
        (sequence % modulus) as usize
    }

    /// Whether there is an entry for `sequence`.
    pub fn contains(&self, sequence: u16) -> (r: bool)
        requires
            self.wf(),
            self@.modulus() != 0,
        ensures
            r == self@.contents.dom().contains(sequence),
    {
        let index = self.index(sequence);
        self.entry_sequences[index] == sequence as u32
    }

    /// The entry for `sequence`.
    pub fn get(&self, sequence: u16) -> (r: Option<&T>)
        requires
            self.wf(),
            self@.modulus() != 0,
        ensures
            match r {
                Some(t) => self@.lookup(sequence) == Some(*t),
                None => self@.lookup(sequence) is None,
            },
    {
        let index = self.index(sequence);
        if self.entry_sequences[index] != sequence as u32 {
            return None;
        }
        Some(&self.entries[index])
    }

    /// The entry for `sequence`, to be changed in place.
    pub fn get_mut(&mut self, sequence: u16) -> (r: Option<&mut T>)
        requires
            old(self).wf(),
            old(self)@.modulus() != 0,
        ensures
            final(self).wf(),
            match r {
                Some(t) => {
                    &&& old(self)@.lookup(sequence) == Some(*t)
                    &&& final(self)@ == old(self)@.replaced(sequence, *final(t))
                },
                None => {
                    &&& old(self)@.lookup(sequence) is None
                    &&& final(self)@ == old(self)@
                },
            },
    {
        let index = self.index(sequence);
        if self.entry_sequences[index] != sequence as u32 {
            return None;
        }
        Some(&mut self.entries[index])
    }

    /// Moves on to `sequence`, if it is ahead, clearing out the numbers that were skipped.
    pub fn advance(&mut self, sequence: u16)
        requires
            old(self).wf(),
            old(self)@.modulus() != 0,
        ensures
            final(self).wf(),
            final(self)@ == old(self)@.advanced(sequence),
    {
        if Self::sequence_greater_than(sequence, self.sequence) {
            let first_candidate = self.sequence.wrapping_add(1);
            if first_candidate != sequence {
                self.remove_range(first_candidate, sequence);
            }
            let ghost before = self@;
            self.sequence = sequence;
            assert(self@ =~= (Window { sequence, ..before }));
        }
    }

    /// Passes over `sequence`: moves on to it, if it is ahead, and holds nothing for it.
    pub fn skip(&mut self, sequence: u16)
        requires
            old(self).wf(),
            old(self)@.modulus() != 0,
        ensures
            final(self).wf(),
            final(self)@ == old(self)@.skipped(sequence),
    {
        self.advance(sequence);
        let _ = self.remove(sequence);
    }

    /// Makes `sequence` the greatest number of a buffer that may be anywhere else.
    pub fn start_at(&mut self, sequence: u16)
        requires
            old(self).wf(),
        ensures
            final(self).wf(),
            final(self)@ == (Window { sequence, ..old(self)@ }),
    {
        self.sequence = sequence;
        assert(self@ =~= (Window { sequence, ..old(self)@ }));
    }

    /// Puts `data` in as the entry for `sequence`. A jump ahead clears out the sequence numbers
    /// that were skipped; a sequence more than a window behind is refused.
    pub fn insert(&mut self, sequence: u16, data: T) -> (r: Result<&mut T, PicklebackError>)
        requires
            old(self).wf(),
            old(self)@.modulus() != 0,
        ensures
            final(self).wf(),
            match r {
                Ok(t) => {
                    &&& !old(self)@.too_old(sequence)
                    &&& *t == data
                    &&& final(self)@ == old(self)@.inserted(sequence, *final(t))
                },
                Err(e) => {
                    &&& old(self)@.too_old(sequence)
                    &&& e == PicklebackError::SequenceTooOld
                    &&& final(self)@ == old(self)@
                },
            },
    {
        let len = self.len();
        let window: u16 = (len % 0x1_0000) as u16;
        if Self::sequence_less_than(sequence, self.sequence.wrapping_sub(window)) {
            return Err(PicklebackError::SequenceTooOld);
        }
        self.advance(sequence);
        Ok(self.put(sequence, data))
    }

    /// Makes `data` the only entry in the slot of `sequence`.
    fn put(&mut self, sequence: u16, data: T) -> (r: &mut T)
        requires
            old(self).wf(),
            old(self)@.modulus() != 0,
        ensures
            final(self).wf(),
            *r == data,
            final(self)@ == old(self)@.inserted_at(sequence, *final(r)),
    {
        let index = self.index(sequence);
        self.entries.set(index, data);
        self.entry_sequences.set(index, sequence as u32);
        assert(forall|t: T| #[trigger]
            self.entries@.update(index as int, t) == old(self).entries@.update(index as int, t));
        &mut self.entries[index]
    }

    /// Removes the entries in the slots of the numbers from `start` to `end`, inclusive.
    pub fn remove_range(&mut self, start: u16, end: u16)
        requires
            old(self).wf(),
            old(self)@.modulus() != 0,
        ensures
            final(self).wf(),
            final(self)@ == old(self)@.range_removed(start, end),
    {
        let mut i: u32 = start as u32;
        let ghost w = self@;
        assert(w.range_removed_to(start as int, i as int) =~= w);
        while i <= end as u32
            invariant
                self.wf(),
                self@.modulus() != 0,
                start <= i,
                i <= end + 1 || i == start,
                self@ == w.range_removed_to(start as int, i as int),
                self@.size == w.size,
            decreases end + 1 - i,
        {
            self.remove(i as u16);
            i = i + 1;
            assert(self@ =~= w.range_removed_to(start as int, i as int)) by {
                w.lemma_range_step(start as int, i - 1);
            }
        }
        assert(self@ =~= w.range_removed(start, end)) by {
            w.lemma_range_removed_to(start, end, i as int);
        }
    }

    /// Empties the slot of `sequence` and returns its entry, if it was the one for `sequence`.
    pub fn remove(&mut self, sequence: u16) -> (r: Option<T>)
        requires
            old(self).wf(),
            old(self)@.modulus() != 0,
        ensures
            final(self).wf(),
            r == old(self)@.lookup(sequence),
            final(self)@ == old(self)@.removed(sequence),
    {
        let index = self.index(sequence);
        let mut el = T::default();
        std::mem::swap(&mut el, &mut self.entries[index]);
        let ret = if self.entry_sequences[index] != sequence as u32 {
            None
        } else {
            Some(el)
        };
        self.entry_sequences.set(index, EMPTY_SLOT);
        assert(self@ =~= old(self)@.removed(sequence));
        ret
    }

    /// Goes back to sequence zero. Only the entry for sequence zero is present afterwards, with
    /// what the first slot held.
    pub fn reset(&mut self)
        requires
            old(self).wf(),
            old(self)@.modulus() != 0,
        ensures
            final(self).wf(),
            final(self)@ == (Window {
                contents: Map::empty().insert(0u16, old(self).raw(0)),
                sequence: 0,
                size: old(self)@.size,
            }),
    {
        self.sequence = 0;
        let mut i: usize = 0;
        while i < self.entry_sequences.len()
            invariant
                i <= self.entry_sequences@.len(),
                self.wf(),
                self.entries@ == old(self).entries@,
                self.sequence == 0,
                forall|j: int| 0 <= j < i ==> self.entry_sequences@[j] == 0,
            decreases self.entry_sequences@.len() - i,
        {
            self.entry_sequences.set(i, 0);
            i = i + 1;
        }
        assert forall|k: u16| self@.contents.dom().contains(k) == (k == 0) by {
            let m = self@.modulus();
            assert(0 <= k as int % m < m <= self@.size);
        }
        assert(self@.contents =~= Map::empty().insert(0u16, old(self).raw(0)));
    }

    /// The greatest sequence inserted.
    pub fn sequence(&self) -> (r: u16)
        ensures
            r == self@.sequence,
    {
        self.sequence
    }

    /// The number of slots.
    pub fn len(&self) -> (r: usize)
        ensures
            r == self@.size,
    {
        self.entries.len()
    }

    /// Whether there are any slots.
    pub fn is_empty(&self) -> (r: bool)
        ensures
            r == (self@.size > 0),
    {
        self.len() > 0
    }

    /// The number of slots that memory is set aside for. How many beyond `len` is up to the
    /// allocator.
    pub fn capacity(&self) -> (r: usize)
        ensures
            r >= self@.size,
    {
        buffer_pool::vec_capacity(&self.entries)
    }

    /// Whether `s1` is ahead of `s2`.
    pub fn sequence_greater_than(s1: u16, s2: u16) -> (r: bool)
        ensures
            r == seq_gt(s1, s2),
    {
        ((s1 > s2) && (s1 - s2 <= 32768)) || ((s1 < s2) && (s2 - s1 > 32768))
    }

    /// Whether `s1` is behind `s2`.
    pub fn sequence_less_than(s1: u16, s2: u16) -> (r: bool)
        ensures
            r == seq_gt(s2, s1),
    {
        Self::sequence_greater_than(s2, s1)
    }

    /// Whether `sequence` is less than a window behind the greatest one.
    pub fn check_sequence(&self, sequence: u16) -> (r: bool)
        ensures
            r == self@.in_range(sequence),
    {
        let window: u16 = (self.len() % 0x1_0000) as u16;
        Self::sequence_greater_than(sequence, self.sequence().wrapping_sub(window))
    }

    /// Whether `sequence` is ahead of the greatest one so far. An ordered channel would reject
    /// what is not.
    pub fn check_newer_than_current(&self, sequence: u16) -> (r: bool)
        ensures
            r == seq_gt(sequence, self@.sequence),
    {
        Self::sequence_greater_than(sequence, self.sequence())
    }

    /// The greatest sequence inserted, and a bit for each of the 32 from there back, set if there
    /// is an entry for it.
    pub fn ack_bits(&self) -> (r: (u16, u32))
        requires
            self.wf(),
            self@.modulus() != 0,
        ensures
            r.0 == self@.sequence,
            r.1 == self@.recent_bits(0),
            forall|i: nat| i < 32 ==> nth_bit(r.1 as nat, i) == #[trigger] self@.has_recent(
                i as int,
            ),
    {
        let ack = self.sequence;
        let mut bits: u64 = 0;
        let mut i: u16 = 32;
        while i > 0
            invariant
                self.wf(),
                self@.modulus() != 0,
                ack == self@.sequence,
                i <= 32,
                bits == self@.recent_bits(i as int),
                bits <= 0xFFFF_FFFF,
            decreases i,
        {
            i = i - 1;
            let bit: u64 = if self.contains(ack.wrapping_sub(i)) {
                1
            } else {
                0
            };
            proof {
                self@.lemma_recent_bits_bound(i as int);
                lemma_all_ones();
                lemma_all_ones_grow(0, i as int);
            }
            bits = bit + 2 * bits;
        }
        proof {
            assert forall|k: nat| k < 32 implies nth_bit(bits as nat, k)
                == #[trigger] self@.has_recent(k as int) by {
                self@.lemma_recent_bits(k);
            }
        }
        (ack, bits as u32)
    }
}

proof fn lemma_all_ones_grow(i: int, j: int)
    requires
        i <= j,
    ensures
        all_ones(j) <= all_ones(i),
    decreases 32 - i,
{
    if i < j && i < 32 {
        lemma_all_ones_grow(i + 1, j);
    }
}

} // verus!
