//! A queue that can reorder, drop, and duplicate packets, like sending them over the internet.
//!
//! Packets are not modified: assuming there are checksums, mangled packets manifest as drops.

use crate::entropy;
use vstd::prelude::*;

verus! {

/// Chances and jitter are given in millionths.
pub const MILLION: u32 = 1_000_000;

/// Packets are assigned a sort key upon insert, based off a counter that increments by one for each
/// packet sent. Jitter modifies the sort key by up to `max_jitter` either way. So a jitter under
/// half a million will never cause packets to reorder: with a jitter of 400 000, packets with
/// keys one and two million will at worst get 1 400 000 and 1 600 000. With one of 600 000 they
/// could get 1 600 000 and 1 400 000, which would cause a reorder.
#[derive(Debug, Clone, Copy, PartialEq, Eq, Structural)]
pub struct JitterPipeConfig {
    /// Whether packets are tampered with at all.
    pub enabled: bool,
    /// How many out of a million packets are dropped.
    pub drop_chance: u32,
    /// How many out of a million packets are duplicated.
    pub duplicate_chance: u32,
    /// How far a sort key is moved at most, in millionths.
    pub max_jitter: u32,
}

impl Default for JitterPipeConfig {
    fn default() -> (r: Self)
        ensures
            r == (JitterPipeConfig {
                enabled: true,
                drop_chance: 10_000,
                duplicate_chance: 1_000,
                max_jitter: 750_000,
            }),
    {
        JitterPipeConfig {
            enabled: true,
            drop_chance: 10_000,
            duplicate_chance: 1_000,
            max_jitter: 750_000,
        }
    }
}

impl JitterPipeConfig {
    /// A bad network.
    pub fn bad() -> (r: Self)
        ensures
            r == (JitterPipeConfig {
                enabled: true,
                drop_chance: 50_000,
                duplicate_chance: 5_000,
                max_jitter: 2_000_000,
            }),
    {
        JitterPipeConfig {
            enabled: true,
            drop_chance: 50_000,
            duplicate_chance: 5_000,
            max_jitter: 2_000_000,
        }
    }

    /// A terrible network.
    pub fn terrible() -> (r: Self)
        ensures
            r == (JitterPipeConfig {
                enabled: true,
                drop_chance: 75_000,
                duplicate_chance: 10_000,
                max_jitter: 5_000_000,
            }),
    {
        JitterPipeConfig {
            enabled: true,
            drop_chance: 75_000,
            duplicate_chance: 10_000,
            max_jitter: 5_000_000,
        }
    }

    /// A perfect network.
    pub fn disabled() -> (r: Self)
        ensures
            r == (JitterPipeConfig {
                enabled: false,
                drop_chance: 10_000,
                duplicate_chance: 1_000,
                max_jitter: 750_000,
            }),
    {
        JitterPipeConfig { enabled: false, ..JitterPipeConfig::default() }
    }

    /// Whether a packet is dropped, for a number drawn out of a million.
    pub open spec fn drops(self, drawn: u32) -> bool {
        self.enabled && drawn < self.drop_chance
    }

    /// Whether a packet is duplicated, for a number drawn out of a million.
    pub open spec fn duplicates(self, drawn: u32) -> bool {
        self.enabled && drawn < self.duplicate_chance
    }

    /// How far a sort key is moved, for a number drawn out of a million.
    pub open spec fn shift(self, drawn: u32) -> int {
        if self.enabled {
            drawn * (2 * self.max_jitter) / MILLION as int - self.max_jitter
        } else {
            0
        }
    }

    /// The sort key of packet number `n`, for a number drawn out of a million.
    pub open spec fn key(self, n: u64, drawn: u32) -> int {
        n * MILLION + self.shift(drawn)
    }

    /// Whether a packet is dropped, for a number drawn out of a million.
    pub fn should_drop(&self, drawn: u32) -> (r: bool)
        ensures
            r == self.drops(drawn),
    {
        self.enabled && drawn < self.drop_chance
    }

    /// Whether a packet is duplicated, for a number drawn out of a million.
    pub fn should_duplicate(&self, drawn: u32) -> (r: bool)
        ensures
            r == self.duplicates(drawn),
    {
        self.enabled && drawn < self.duplicate_chance
    }

    /// How far a sort key is moved, for a number drawn out of a million.
    pub fn jitter(&self, drawn: u32) -> (r: i128)
        ensures
            r == self.shift(drawn),
            -0x2_0000_0000_0000_0000 <= r <= 0x2_0000_0000_0000_0000,
    {
        if !self.enabled {
            return 0;
        }
        let width: i128 = 2 * self.max_jitter as i128;
        let ghost (a, b) = (drawn as int, self.max_jitter as int);
        assert(0 <= a * (2 * b) <= 0x1_0000_0000 * 0x2_0000_0000) by (nonlinear_arith)
            requires
                0 <= a <= 0xffff_ffff,
                0 <= b <= 0xffff_ffff,
        ;
        let scaled: i128 = drawn as i128 * width;
        scaled / MILLION as i128 - self.max_jitter as i128
    }
}

/// The numbers drawn for one packet, each out of a million.
#[derive(Debug, Clone, Copy, PartialEq, Eq, Structural)]
pub struct Draws {
    /// Decides whether the packet is dropped.
    pub drop: u32,
    /// Decides whether the packet is duplicated.
    pub duplicate: u32,
    /// Moves the duplicate, if there is one.
    pub duplicate_jitter: u32,
    /// Moves the packet.
    pub jitter: u32,
}

impl Draws {
    /// All are out of a million.
    pub open spec fn valid(self) -> bool {
        &&& self.drop < MILLION
        &&& self.duplicate < MILLION
        &&& self.duplicate_jitter < MILLION
        &&& self.jitter < MILLION
    }

    /// The numbers drawn, for what a random number generator gives.
    pub fn from_numbers(drop: u64, duplicate: u64, duplicate_jitter: u64, jitter: u64) -> (r: Self)
        ensures
            r == (Draws {
                drop: (drop % MILLION as u64) as u32,
                duplicate: (duplicate % MILLION as u64) as u32,
                duplicate_jitter: (duplicate_jitter % MILLION as u64) as u32,
                jitter: (jitter % MILLION as u64) as u32,
            }),
            r.valid(),
    {
        Draws {
            drop: out_of_a_million(drop),
            duplicate: out_of_a_million(duplicate),
            duplicate_jitter: out_of_a_million(duplicate_jitter),
            jitter: out_of_a_million(jitter),
        }
    }

    /// Draws numbers. They may be any out of a million.
    pub fn random() -> (r: Self)
        ensures
            r.valid(),
    {
        Draws::from_numbers(
            entropy::random_u64(),
            entropy::random_u64(),
            entropy::random_u64(),
            entropy::random_u64(),
        )
    }
}

/// The number drawn out of a million, for what a random number generator gives.
pub fn out_of_a_million(number: u64) -> (r: u32)
    ensures
        r == number % MILLION as u64,
        r < MILLION,
{
    (number % MILLION as u64) as u32
}

/// Draws a number. It may be any out of a million.
fn draw() -> (r: u32)
    ensures
        r < MILLION,
{
    out_of_a_million(entropy::random_u64())
}

/// Which of the first `n` items has the lowest sort key, the first of them if there are several.
pub open spec fn least<T>(items: Seq<(int, T)>, n: int) -> int
    decreases n,
{
    if n <= 1 {
        0
    } else {
        let i = least(items, n - 1);
        if items[n - 1].0 < items[i].0 {
            n - 1
        } else {
            i
        }
    }
}

/// The packets in a pipe, each behind its sort key, and how many were sent.
#[verifier::ext_equal]
pub struct PipeView<T> {
    pub items: Seq<(int, T)>,
    pub sent: u64,
    pub config: JitterPipeConfig,
}

impl<T> PipeView<T> {
    /// A pipe without packets.
    pub open spec fn fresh(config: JitterPipeConfig) -> Self {
        PipeView { items: Seq::empty(), sent: 0, config }
    }

    /// With one more packet counted.
    pub open spec fn counted(self) -> Self {
        PipeView {
            sent: if self.sent < u64::MAX {
                (self.sent + 1) as u64
            } else {
                u64::MAX
            },
            ..self
        }
    }

    /// The sort key of the packet counted last.
    pub open spec fn key(self, drawn: u32) -> int {
        self.config.key(self.sent, drawn)
    }

    /// With a packet that is neither dropped nor duplicated.
    pub open spec fn pushed(self, item: T, drawn: u32) -> Self {
        let counted = self.counted();
        PipeView { items: self.items.push((counted.key(drawn), item)), ..counted }
    }

    /// With a packet, unless it is dropped. If it is duplicated, `copy` is there too.
    pub open spec fn inserted(self, item: T, copy: T, draws: Draws) -> Self {
        if self.config.drops(draws.drop) {
            self
        } else if self.config.duplicates(draws.duplicate) {
            self.pushed(copy, draws.duplicate_jitter).pushed(item, draws.jitter)
        } else {
            self.pushed(item, draws.jitter)
        }
    }

    /// Which packet comes out next.
    pub open spec fn next(self) -> int {
        least(self.items, self.items.len() as int)
    }

    /// Without the packet that comes out next.
    pub open spec fn taken(self) -> Self {
        PipeView { items: self.items.remove(self.next()), ..self }
    }

    /// With something else in place of each packet.
    pub open spec fn mapped<U>(self, f: spec_fn(T) -> U) -> PipeView<U> {
        PipeView {
            items: self.items.map_values(|e: (int, T)| (e.0, f(e.1))),
            sent: self.sent,
            config: self.config,
        }
    }

    /// Packets keep their order: the sort keys are moved by less than half of what lies between
    /// two packets.
    pub open spec fn steady(self) -> bool {
        !self.config.enabled || self.config.max_jitter < 500_000
    }

    /// The packets are in order, and before any packet sent from now on.
    pub open spec fn in_order(self) -> bool {
        &&& forall|i: int, j: int|
            0 <= i < j < self.items.len() ==> (#[trigger] self.items[i]).0 < (
            #[trigger] self.items[j]).0
        &&& forall|i: int|
            0 <= i < self.items.len() ==> (#[trigger] self.items[i]).0 < self.sent * MILLION
                + 500_000
    }

    /// The packet that comes out next has the lowest sort key, and is the first that has it.
    pub proof fn lemma_next(self)
        requires
            self.items.len() > 0,
        ensures
            0 <= self.next() < self.items.len(),
            forall|j: int|
                0 <= j < self.items.len() ==> self.items[self.next()].0 <= (
                #[trigger] self.items[j]).0,
            forall|j: int|
                0 <= j < self.next() ==> self.items[self.next()].0 < (#[trigger] self.items[j]).0,
    {
        lemma_least(self.items, self.items.len() as int);
    }

    /// What stands in place of the packets makes no difference to which of them comes out next.
    pub proof fn lemma_mapped<U>(self, f: spec_fn(T) -> U, item: T, copy: T, draws: Draws)
        ensures
            self.inserted(item, copy, draws).mapped(f) == self.mapped(f).inserted(
                f(item),
                f(copy),
                draws,
            ),
            self.items.len() > 0 ==> self.mapped(f).next() == self.next() && self.taken().mapped(f)
                == self.mapped(f).taken() && self.mapped(f).items[self.next()].1 == f(
                self.items[self.next()].1,
            ),
    {
        if self.items.len() > 0 {
            lemma_least_mapped(self.items, f, self.items.len() as int);
            self.lemma_next();
            assert(self.taken().mapped(f).items =~= self.mapped(f).taken().items);
        }
        assert(self.pushed(item, draws.jitter).mapped(f) =~= self.mapped(f).pushed(
            f(item),
            draws.jitter,
        ));
        let doubled = self.pushed(copy, draws.duplicate_jitter);
        assert(doubled.mapped(f) =~= self.mapped(f).pushed(f(copy), draws.duplicate_jitter));
        assert(doubled.pushed(item, draws.jitter).mapped(f) =~= doubled.mapped(f).pushed(
            f(item),
            draws.jitter,
        ));
    }

    /// A packet that is not dropped goes in as it is, behind all others, and what was there stays
    /// as it is. It goes in along with a copy only if it is duplicated. Packets are dropped or
    /// duplicated as often as the settings say, and never if they are not tampered with.
    pub proof fn lemma_nothing_lost(self, item: T, copy: T, draws: Draws)
        requires
            self.sent + 2 <= u64::MAX,
            draws.valid(),
        ensures
            ({
                let next = self.inserted(item, copy, draws);
                let dropped = self.config.enabled && draws.drop < self.config.drop_chance;
                let doubled = self.config.enabled && draws.duplicate
                    < self.config.duplicate_chance;
                &&& dropped ==> next == self
                &&& !dropped ==> {
                    let n: int = if doubled {
                        2
                    } else {
                        1
                    };
                    &&& next.items.len() == self.items.len() + n
                    &&& next.sent == self.sent + n
                    &&& next.config == self.config
                    &&& self.items.is_prefix_of(next.items)
                    &&& next.items.last().1 == item
                    &&& doubled ==> next.items[self.items.len() as int].1 == copy
                    &&& !self.config.enabled ==> next.items.last().0 == next.sent * 1_000_000
                    &&& -self.config.max_jitter <= next.items.last().0 - next.sent * 1_000_000
                        <= self.config.max_jitter
                    &&& doubled ==> -self.config.max_jitter <= next.items[self.items.len() as int].0
                        - (self.sent + 1) * 1_000_000 <= self.config.max_jitter
                }
            }),
    {
        self.lemma_shift(draws.jitter);
        self.lemma_shift(draws.duplicate_jitter);
    }

    /// What comes out was in the pipe, and is there no longer. All others stay, as they are.
    pub proof fn lemma_taken(self)
        requires
            self.items.len() > 0,
        ensures
            self.taken().items.insert(self.next(), self.items[self.next()]) == self.items,
            self.taken().items.len() == self.items.len() - 1,
            self.taken().sent == self.sent,
            self.taken().config == self.config,
    {
        self.lemma_next();
        assert(self.taken().items.insert(self.next(), self.items[self.next()]) =~= self.items);
    }

    /// The numbers drawn cover all that the settings allow, evenly: the lowest one moves a sort key
    /// down by as much as is allowed, the one in the middle leaves it, and a higher one never moves
    /// it by less.
    pub proof fn lemma_shift_even(self, a: u32, b: u32)
        requires
            self.config.enabled,
            a <= b,
        ensures
            self.config.shift(0) == -self.config.max_jitter,
            self.config.shift(500_000) == 0,
            self.config.shift(1_000_000) == self.config.max_jitter,
            self.config.shift(a) <= self.config.shift(b),
            1_000_000 * (self.config.shift(a) + self.config.max_jitter) <= a * (2
                * self.config.max_jitter) < 1_000_000 * (self.config.shift(a)
                + self.config.max_jitter + 1),
    {
        let (x, y, m) = (a as int, b as int, self.config.max_jitter as int);
        assert(x * (2 * m) <= y * (2 * m)) by (nonlinear_arith)
            requires
                x <= y,
                0 <= m,
        ;
    }

    /// Sort keys are moved by no more than the settings say.
    pub proof fn lemma_shift(self, drawn: u32)
        requires
            drawn <= MILLION,
        ensures
            -self.config.max_jitter <= self.config.shift(drawn) <= self.config.max_jitter,
    {
        let (a, b) = (drawn as int, self.config.max_jitter as int);
        assert(0 <= a * (2 * b) <= 1_000_000 * (2 * b)) by (nonlinear_arith)
            requires
                0 <= a <= 1_000_000,
                0 <= b,
        ;
    }

    proof fn lemma_pushed_in_order(self, item: T, drawn: u32)
        requires
            self.steady(),
            self.in_order(),
            self.sent < u64::MAX,
            drawn < MILLION,
        ensures
            self.pushed(item, drawn).in_order(),
    {
        self.lemma_shift(drawn);
        let next = self.pushed(item, drawn);
        let key = next.items.last().0;
        assert(self.sent * MILLION + 500_000 < key < next.sent * MILLION + 500_000);
        assert forall|i: int, j: int| 0 <= i < j < next.items.len() implies (
        #[trigger] next.items[i]).0 < (#[trigger] next.items[j]).0 by {
            assert(next.items[i] == self.items[i]);
        }
        assert forall|i: int| 0 <= i < next.items.len() implies (#[trigger] next.items[i]).0
            < next.sent * MILLION + 500_000 by {
            if i < self.items.len() {
                assert(next.items[i] == self.items[i]);
            }
        }
    }

    /// While the sort keys are moved by less than half of what lies between two packets, packets
    /// come out in the order in which they went in: a packet goes in behind all others, and the
    /// one that comes out is the one that has been there for longest.
    pub proof fn lemma_keeps_order(self, item: T, copy: T, draws: Draws)
        requires
            self.steady(),
            self.in_order(),
            self.sent + 2 <= u64::MAX,
            draws.valid(),
        ensures
            self.inserted(item, copy, draws).in_order(),
            self.items.len() > 0 ==> self.next() == 0 && self.taken().in_order(),
            !self.config.enabled ==> self.inserted(item, copy, draws).items == self.items.push(
                ((self.sent + 1) * MILLION, item),
            ),
    {
        self.lemma_pushed_in_order(item, draws.jitter);
        self.lemma_pushed_in_order(copy, draws.duplicate_jitter);
        self.pushed(copy, draws.duplicate_jitter).lemma_pushed_in_order(item, draws.jitter);
        if self.items.len() > 0 {
            self.lemma_next();
            assert(self.next() == 0) by {
                assert(self.items[self.next()].0 <= self.items[0].0);
            }
            let next = self.taken();
            assert forall|i: int, j: int| 0 <= i < j < next.items.len() implies (
            #[trigger] next.items[i]).0 < (#[trigger] next.items[j]).0 by {
                assert(next.items[i] == self.items[i + 1]);
                assert(next.items[j] == self.items[j + 1]);
            }
            assert forall|i: int| 0 <= i < next.items.len() implies (#[trigger] next.items[i]).0
                < next.sent * MILLION + 500_000 by {
                assert(next.items[i] == self.items[i + 1]);
            }
        }
    }
}

proof fn lemma_least<T>(items: Seq<(int, T)>, n: int)
    requires
        0 < n <= items.len(),
    ensures
        0 <= least(items, n) < n,
        forall|j: int|
            0 <= j < n ==> items[least(items, n)].0 <= (#[trigger] items[j]).0,
        forall|j: int|
            0 <= j < least(items, n) ==> items[least(items, n)].0 < (#[trigger] items[j]).0,
    decreases n,
{
    if n > 1 {
        lemma_least(items, n - 1);
    }
}

proof fn lemma_least_mapped<T, U>(items: Seq<(int, T)>, f: spec_fn(T) -> U, n: int)
    requires
        0 < n <= items.len(),
    ensures
        least(items.map_values(|e: (int, T)| (e.0, f(e.1))), n) == least(items, n),
    decreases n,
{
    if n > 1 {
        lemma_least_mapped(items, f, n - 1);
        lemma_least(items, n - 1);
    }
}

/// A queue that can reorder, drop, and duplicate packets.
pub struct JitterPipe<T: Eq + PartialEq + Clone> {
    queue: Vec<(i128, T)>,
    key_seq: u64,
    config: JitterPipeConfig,
}

impl<T: Eq + PartialEq + Clone> View for JitterPipe<T> {
    type V = PipeView<T>;

    closed spec fn view(&self) -> PipeView<T> {
        PipeView {
            items: self.queue@.map_values(|e: (i128, T)| (e.0 as int, e.1)),
            sent: self.key_seq,
            config: self.config,
        }
    }
}

impl<T: Eq + PartialEq + Clone> JitterPipe<T> {
    /// A pipe without packets.
    pub fn new(config: JitterPipeConfig) -> (r: Self)
        ensures
            r@ == PipeView::<T>::fresh(config),
    {
        let r = JitterPipe { config, queue: Vec::new(), key_seq: 0 };
        assert(r@ =~= PipeView::<T>::fresh(config));
        r
    }

    /// The settings, which can be changed on the go.
    pub fn config_mut(&mut self) -> (r: &mut JitterPipeConfig)
        ensures
            *r == old(self)@.config,
            final(self)@ == (PipeView { config: *final(r), ..old(self)@ }),
    {
        &mut self.config
    }

    /// Counts a packet, and returns its sort key with random jitter.
    pub fn next_key(&mut self) -> (r: i128)
        ensures
            final(self)@ == old(self)@.counted(),
            exists|drawn: u32| drawn < MILLION && r == #[trigger] final(self)@.key(drawn),
    {
        let drawn = draw();
        let r = self.next_key_with(drawn);
        assert(r == self@.key(drawn));
        r
    }

    /// Counts a packet, and returns its sort key, for a number drawn out of a million.
    pub fn next_key_with(&mut self, drawn: u32) -> (r: i128)
        ensures
            final(self)@ == old(self)@.counted(),
            r == final(self)@.key(drawn),
    {
        if self.key_seq < u64::MAX {
            self.key_seq = self.key_seq + 1;
        }
        self.key_seq as i128 * MILLION as i128 + self.config.jitter(drawn)
    }

    fn push(&mut self, item: T, drawn: u32)
        ensures
            final(self)@ == old(self)@.pushed(item, drawn),
    {
        let key = self.next_key_with(drawn);
        self.queue.push((key, item));
        assert(self@ =~= old(self)@.pushed(item, drawn));
    }

    /// Puts a packet in, at random.
    pub fn insert(&mut self, item: T)
        ensures
            exists|copy: T, draws: Draws|
                {
                    &&& draws.valid()
                    &&& old(self)@.config.duplicates(draws.duplicate) ==> cloned(item, copy)
                    &&& final(self)@ == #[trigger] old(self)@.inserted(item, copy, draws)
                },
    {
        let draws = Draws::random();
        self.insert_with(item, draws);
    }

    /// Puts a packet in, for numbers drawn before.
    pub fn insert_with(&mut self, item: T, draws: Draws)
        ensures
            exists|copy: T|
                {
                    &&& old(self)@.config.duplicates(draws.duplicate) ==> cloned(item, copy)
                    &&& final(self)@ == #[trigger] old(self)@.inserted(item, copy, draws)
                },
    {
        let ghost mut copied = item;
        if !self.config.should_drop(draws.drop) {
            if self.config.should_duplicate(draws.duplicate) {
                let copy = item.clone();
                proof {
                    copied = copy;
                }
                self.push(copy, draws.duplicate_jitter);
            }
            self.push(item, draws.jitter);
        }
        assert(self@ == old(self)@.inserted(item, copied, draws));
    }

    /// Takes out the packet with the lowest sort key.
    pub fn take_next(&mut self) -> (r: Option<T>)
        ensures
            match r {
                None => old(self)@.items.len() == 0 && final(self)@ == old(self)@,
                Some(item) => {
                    &&& old(self)@.items.len() > 0
                    &&& item == old(self)@.items[old(self)@.next()].1
                    &&& final(self)@ == old(self)@.taken()
                },
            },
    {
        if self.queue.len() == 0 {
            return None;
        }
        let mut first: usize = 0;
        let mut i: usize = 1;
        while i < self.queue.len()
            invariant
                1 <= i <= self.queue@.len(),
                first < i,
                first == least(self@.items, i as int),
            decreases self.queue@.len() - i,
        {
            assert(self@.items[i as int].0 == self.queue@[i as int].0);
            assert(self@.items[first as int].0 == self.queue@[first as int].0);
            if self.queue[i].0 < self.queue[first].0 {
                first = i;
            }
            i = i + 1;
        }
        assert(self@.items[first as int].1 == self.queue@[first as int].1);
        let (_, item) = self.queue.remove(first);
        assert(self@.items =~= old(self)@.taken().items);
        Some(item)
    }

    /// Whether no packets are left.
    pub fn is_empty(&self) -> (r: bool)
        ensures
            r == (self@.items.len() == 0),
    {
        self.queue.len() == 0
    }
}

} // verus!
