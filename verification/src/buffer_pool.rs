//! Pools of byte buffers, so that buffers are reused rather than allocated anew.

use vstd::prelude::*;

verus! {

/// `Vec::capacity`: how many elements the vector holds without reallocating, at least as many
/// as it holds now. The exact number is up to the allocator.
#[verifier::external_body]
pub(crate) fn vec_capacity<T>(v: &Vec<T>) -> (r: usize)
    ensures
        r >= v@.len(),
{
    v.capacity()
}

/// Configures a pool of buffers for internal use.
#[derive(Copy, Clone, Debug, PartialEq, Eq, Structural)]
pub struct PoolConfig {
    /// How many buffers to preallocate and fill the pool with on startup.
    pub starting_size: usize,
    /// Maximum size of the pool before returned buffers are dropped.
    pub max_size: usize,
    /// Capacity that a new buffer for this pool is created with.
    pub buffer_capacity: usize,
}

impl PoolConfig {
    /// Whether a buffer of at least `min_size` is taken from a pool with this configuration.
    pub open spec fn serves(self, min_size: nat) -> bool {
        self.buffer_capacity >= min_size || self.buffer_capacity == 0
    }
}

/// A byte vector that should be returned to the pool.
#[derive(Debug)]
pub struct PooledBuffer {
    /// The bytes.
    pub v: Vec<u8>,
    /// Number of the buffer within its pool.
    pub id: u32,
}

/// How users of the library see a pooled buffer.
pub type BufHandle = PooledBuffer;

impl View for PooledBuffer {
    type V = Seq<u8>;

    open spec fn view(&self) -> Seq<u8> {
        self.v@
    }
}

impl PooledBuffer {
    /// A buffer with the bytes of `v`.
    pub fn new(id: u32, v: Vec<u8>) -> (r: Self)
        ensures
            r@ == v@,
            r.id == id,
    {
        PooledBuffer { v, id }
    }

    /// Number of the buffer within its pool.
    pub fn id(&self) -> (r: u32)
        ensures
            r == self.id,
    {
        self.id
    }

    /// The bytes.
    pub fn as_slice(&self) -> (r: &[u8])
        ensures
            r@ == self@,
    {
        self.v.as_slice()
    }

    /// How many bytes there are.
    pub fn len(&self) -> (r: usize)
        ensures
            r == self@.len(),
    {
        self.v.len()
    }
}

impl Clone for PooledBuffer {
    fn clone(&self) -> (r: Self)
        ensures
            r@ == self@,
            r.id == self.id,
    {
        let mut v: Vec<u8> = Vec::with_capacity(self.v.len());
        v.extend_from_slice(self.v.as_slice());
        assert(v@ =~= self.v@);
        PooledBuffer { v, id: self.id }
    }
}

impl Default for PooledBuffer {
    fn default() -> (r: Self)
        ensures
            r@ == Seq::<u8>::empty(),
            r.id == 0,
    {
        PooledBuffer { v: Vec::new(), id: 0 }
    }
}

/// The state of a pool.
#[verifier::ext_equal]
pub struct PoolState {
    /// The numbers of the buffers waiting to be used, the next one last.
    pub idle: Seq<u32>,
    pub config: PoolConfig,
    /// How many buffers had to be allocated because none was waiting.
    pub overflow_allocations: usize,
    /// How many buffers were dropped because enough were waiting.
    pub discarded_checkins: usize,
    /// Number of the buffer allocated last.
    pub allocation_seq: u32,
}

impl PoolState {
    /// A pool filled to its starting size.
    pub open spec fn fresh(config: PoolConfig) -> Self {
        PoolState {
            idle: Seq::new(config.starting_size as nat, |i: int| (i % 0x1_0000_0000) as u32),
            config,
            overflow_allocations: 0,
            discarded_checkins: 0,
            allocation_seq: (config.starting_size as int % 0x1_0000_0000) as u32,
        }
    }

    /// The number of the buffer handed out next.
    pub open spec fn next_id(self) -> u32 {
        if self.idle.len() > 0 {
            self.idle.last()
        } else {
            self.allocation_seq.wrapping_add(1)
        }
    }

    /// After a buffer was handed out.
    pub open spec fn checked_out(self) -> Self {
        if self.idle.len() > 0 {
            PoolState { idle: self.idle.drop_last(), ..self }
        } else {
            PoolState {
                overflow_allocations: self.overflow_allocations.wrapping_add(1),
                allocation_seq: self.allocation_seq.wrapping_add(1),
                ..self
            }
        }
    }

    /// After buffer number `id` was returned.
    pub open spec fn checked_in(self, id: u32) -> Self {
        if self.idle.len() >= self.config.max_size {
            PoolState { discarded_checkins: self.discarded_checkins.wrapping_add(1), ..self }
        } else {
            PoolState { idle: self.idle.push(id), ..self }
        }
    }
}

/// Buffers of one capacity.
#[derive(Debug)]
pub struct Pool {
    buffers: Vec<PooledBuffer>,
    config: PoolConfig,
    overflow_allocations: usize,
    discarded_checkins: usize,
    allocation_seq: u32,
}

impl View for Pool {
    type V = PoolState;

    closed spec fn view(&self) -> PoolState {
        PoolState {
            idle: self.buffers@.map_values(|b: PooledBuffer| b.id),
            config: self.config,
            overflow_allocations: self.overflow_allocations,
            discarded_checkins: self.discarded_checkins,
            allocation_seq: self.allocation_seq,
        }
    }
}

impl Pool {
    /// A pool filled to its starting size.
    pub fn new(config: PoolConfig) -> (r: Self)
        ensures
            r@ == PoolState::fresh(config),
    {
        let mut buffers: Vec<PooledBuffer> = Vec::with_capacity(config.starting_size);
        let mut id: usize = 0;
        while id < config.starting_size
            invariant
                id <= config.starting_size,
                buffers@.len() == id,
                forall|i: int|
                    0 <= i < id ==> (#[trigger] buffers@[i]).id == (i % 0x1_0000_0000) as u32,
            decreases config.starting_size - id,
        {
            buffers.push(
                PooledBuffer::new(
                    (id as u64 % 0x1_0000_0000) as u32,
                    Vec::<u8>::with_capacity(config.buffer_capacity),
                ),
            );
            id = id + 1;
        }
        let r = Pool {
            buffers,
            config,
            overflow_allocations: 0,
            discarded_checkins: 0,
            allocation_seq: (config.starting_size as u64 % 0x1_0000_0000) as u32,
        };
        assert(r@ =~= PoolState::fresh(config));
        r
    }

    /// Hands out an empty buffer: the one returned last, or a new one where none is waiting. One that
    /// was returned with less capacity than the buffers of this pool have is made as large first.
    pub fn checkout(&mut self) -> (r: PooledBuffer)
        ensures
            r@ == Seq::<u8>::empty(),
            r.id == old(self)@.next_id(),
            final(self)@ == old(self)@.checked_out(),
    {
        match self.buffers.pop() {
            Some(existing) => {
                let mut existing = existing;
                if vec_capacity(&existing.v) < self.config.buffer_capacity {
                    existing.v = Vec::with_capacity(self.config.buffer_capacity);
                }
                existing.v.clear();
                assert(self@ =~= old(self)@.checked_out());
                existing
            },
            None => {
                self.overflow_allocations = self.overflow_allocations.wrapping_add(1);
                self.allocation_seq = self.allocation_seq.wrapping_add(1);
                assert(self@ =~= old(self)@.checked_out());
                PooledBuffer::new(
                    self.allocation_seq,
                    Vec::<u8>::with_capacity(self.config.buffer_capacity),
                )
            },
        }
    }

    /// Takes a buffer back, or drops it where enough are waiting.
    pub fn checkin(&mut self, buffer: PooledBuffer)
        ensures
            final(self)@ == old(self)@.checked_in(buffer.id),
    {
        if self.buffers.len() >= self.config.max_size {
            self.discarded_checkins = self.discarded_checkins.wrapping_add(1);
        } else {
            self.buffers.push(buffer);
        }
        assert(self@ =~= old(self)@.checked_in(buffer.id));
    }
}

/// `BufPool` manages multiple pools of byte buffers, with varying capacities.
/// When you request a pooled buffer, you ask for something with a certain minimum capacity,
/// and one is returned from the appropriate pool for that capacity.
///
/// Even though they are vectors and can reallocate, as long as you specify the max size
/// correctly, you'll never cause one to reallocate.
///
/// The exception to this is if you ask for a min capacity larger than all the pools: you get a
/// buffer from the final pool and may cause reallocations. The final pool is reserved for very
/// large occasional messages.
#[derive(Debug)]
pub struct BufPool {
    pools: Vec<Pool>,
}

impl View for BufPool {
    type V = Seq<PoolState>;

    closed spec fn view(&self) -> Seq<PoolState> {
        self.pools@.map_values(|p: Pool| p@)
    }
}

/// Whether there is a pool, and pools of lesser capacity come first.
#[verifier::opaque]
pub open spec fn usable(pools: Seq<PoolState>) -> bool {
    &&& pools.len() > 0
    &&& forall|i: int, j: int|
        0 <= i <= j < pools.len() ==> (#[trigger] pools[i]).config.buffer_capacity <= (
        #[trigger] pools[j]).config.buffer_capacity
}

/// The first pool from number `from` on that serves a request for `min_size`, or else the last
/// one.
pub open spec fn pool_for(pools: Seq<PoolState>, min_size: nat, from: int) -> int
    decreases pools.len() - from,
{
    if from >= pools.len() {
        pools.len() - 1
    } else if pools[from].config.serves(min_size) {
        from
    } else {
        pool_for(pools, min_size, from + 1)
    }
}

proof fn lemma_pool_for(pools: Seq<PoolState>, min_size: nat, from: int)
    requires
        0 <= from <= pools.len(),
        pools.len() > 0,
    ensures
        0 <= pool_for(pools, min_size, from) < pools.len(),
        forall|j: int|
            from <= j < pools.len() && (#[trigger] pools[j]).config.serves(min_size) ==> pool_for(
                pools,
                min_size,
                from,
            ) <= j && pools[pool_for(pools, min_size, from)].config.serves(min_size),
    decreases pools.len() - from,
{
    if from < pools.len() && !pools[from].config.serves(min_size) {
        lemma_pool_for(pools, min_size, from + 1);
    }
}

/// A request is served by the pool of least capacity that serves it. Where none does, it is the one
/// of greatest capacity that a buffer is taken from.
pub proof fn lemma_least_that_fits(pools: Seq<PoolState>, min_size: nat)
    requires
        usable(pools),
    ensures
        ({
            let i = pool_for(pools, min_size, 0);
            &&& 0 <= i < pools.len()
            &&& forall|j: int|
                0 <= j < pools.len() && (#[trigger] pools[j]).config.serves(min_size)
                    ==> pools[i].config.serves(min_size) && pools[i].config.buffer_capacity
                    <= pools[j].config.buffer_capacity
            &&& !pools[i].config.serves(min_size) ==> forall|j: int|
                0 <= j < pools.len() ==> (#[trigger] pools[j]).config.buffer_capacity
                    <= pools[i].config.buffer_capacity
        }),
{
    reveal(usable);
    lemma_pool_for(pools, min_size, 0);
    let i = pool_for(pools, min_size, 0);
    if !pools[i].config.serves(min_size) {
        lemma_pool_for_none(pools, min_size, 0);
    }
}

proof fn lemma_pool_for_none(pools: Seq<PoolState>, min_size: nat, from: int)
    requires
        0 <= from <= pools.len(),
        pools.len() > 0,
        !pools[pool_for(pools, min_size, from)].config.serves(min_size),
    ensures
        pool_for(pools, min_size, from) == pools.len() - 1,
    decreases pools.len() - from,
{
    if from < pools.len() && !pools[from].config.serves(min_size) {
        lemma_pool_for_none(pools, min_size, from + 1);
    }
}

/// Taking and returning buffers leaves the pools usable.
pub proof fn lemma_usable(pools: Seq<PoolState>, min_size: nat, id: u32)
    requires
        usable(pools),
    ensures
        usable(after_get(pools, min_size)),
        usable(after_return(pools, id, min_size)),
{
    reveal(usable);
    lemma_pool_for(pools, min_size, 0);
    let i = pool_for(pools, min_size, 0);
    assert(pools[i].checked_out().config == pools[i].config);
    assert(pools[i].checked_in(id).config == pools[i].config);
}

/// The pools after a buffer for `min_size` was taken from them.
pub open spec fn after_get(pools: Seq<PoolState>, min_size: nat) -> Seq<PoolState> {
    let i = pool_for(pools, min_size, 0);
    pools.update(i, pools[i].checked_out())
}

/// The pools after buffer number `id`, of capacity `capacity`, was returned to them.
pub open spec fn after_return(pools: Seq<PoolState>, id: u32, capacity: nat) -> Seq<PoolState> {
    let i = pool_for(pools, capacity, 0);
    pools.update(i, pools[i].checked_in(id))
}

/// The pools after the first `n` of some buffers were returned to them, for the capacities that the
/// allocator gave those.
pub open spec fn after_returns(
    pools: Seq<PoolState>,
    buffers: Seq<PooledBuffer>,
    capacities: Seq<usize>,
    n: int,
) -> Seq<PoolState>
    decreases n,
{
    if n <= 0 {
        pools
    } else {
        after_return(
            after_returns(pools, buffers, capacities, n - 1),
            buffers[n - 1].id,
            capacities[n - 1] as nat,
        )
    }
}

/// What the capacities of buffers can be: no less than what they hold.
pub open spec fn capacities_of(capacities: Seq<usize>, buffers: Seq<PooledBuffer>) -> bool {
    &&& capacities.len() == buffers.len()
    &&& forall|i: int| 0 <= i < buffers.len() ==> capacities[i] >= (#[trigger] buffers[i])@.len()
}

/// Other capacities further back make no difference to the first buffers.
proof fn lemma_after_returns(
    pools: Seq<PoolState>,
    buffers: Seq<PooledBuffer>,
    a: Seq<usize>,
    b: Seq<usize>,
    n: int,
)
    requires
        0 <= n <= a.len(),
        n <= b.len(),
        forall|i: int| 0 <= i < n ==> a[i] == b[i],
    ensures
        after_returns(pools, buffers, a, n) == after_returns(pools, buffers, b, n),
    decreases n,
{
    if n > 0 {
        lemma_after_returns(pools, buffers, a, b, n - 1);
    }
}

/// A buffer that was returned, and not dropped, is the one handed out next, and handing it out
/// leaves the pool as it was.
pub proof fn lemma_reuse(pool: PoolState, id: u32)
    requires
        pool.idle.len() < pool.config.max_size,
    ensures
        pool.checked_in(id).next_id() == id,
        pool.checked_in(id).checked_out() == pool,
{
    assert(pool.checked_in(id).checked_out() =~= pool);
}

/// Buffers that wait are handed out, the one returned last first. Only if none waits is one made up,
/// with a number of its own, and counted. Buffers that are returned wait, unless enough do already.
pub proof fn lemma_checkouts(pool: PoolState, id: u32)
    ensures
        pool.idle.len() > 0 ==> {
            &&& pool.checked_out().idle.push(pool.next_id()) == pool.idle
            &&& pool.checked_out() == PoolState { idle: pool.checked_out().idle, ..pool }
        },
        pool.idle.len() == 0 ==> {
            &&& pool.checked_out().idle.len() == 0
            &&& pool.next_id() == (pool.allocation_seq + 1) % 0x1_0000_0000
            &&& pool.checked_out().allocation_seq == pool.next_id()
            &&& pool.checked_out().overflow_allocations == pool.overflow_allocations.wrapping_add(1)
            &&& pool.checked_out().config == pool.config
        },
        pool.idle.len() < pool.config.max_size ==> {
            &&& pool.checked_in(id).idle.len() == pool.idle.len() + 1
            &&& pool.idle.is_prefix_of(pool.checked_in(id).idle)
            &&& pool.checked_in(id).discarded_checkins == pool.discarded_checkins
        },
        pool.idle.len() >= pool.config.max_size ==> {
            &&& pool.checked_in(id).idle == pool.idle
            &&& pool.checked_in(id).discarded_checkins == pool.discarded_checkins.wrapping_add(1)
        },
{
    if pool.idle.len() > 0 {
        assert(pool.checked_out().idle.push(pool.next_id()) =~= pool.idle);
    }
}

/// A buffer is taken from one pool, or returned to one, and no other pool is affected. It is a pool
/// of buffers that are as large as asked for, if there is one.
pub proof fn lemma_one_pool(pools: Seq<PoolState>, size: nat, id: u32)
    requires
        pools.len() > 0,
    ensures
        ({
            let i = pool_for(pools, size, 0);
            &&& 0 <= i < pools.len()
            &&& forall|j: int|
                0 <= j < pools.len() && j != i ==> #[trigger] after_get(pools, size)[j] == pools[j]
            &&& forall|j: int|
                0 <= j < pools.len() && j != i ==> #[trigger] after_return(pools, id, size)[j]
                    == pools[j]
            &&& forall|j: int|
                0 <= j < pools.len() && (#[trigger] pools[j]).config.buffer_capacity >= size
                    ==> pools[i].config.buffer_capacity >= size || pools[i].config.buffer_capacity
                    == 0
            &&& forall|j: int|
                0 <= j < i ==> 0 < (#[trigger] pools[j]).config.buffer_capacity < size
        }),
{
    lemma_pool_for(pools, size, 0);
}

/// Those of `configs` that are for buffers of capacity `capacity`, in order.
pub open spec fn of_capacity(configs: Seq<PoolConfig>, capacity: usize) -> Seq<PoolConfig> {
    configs.filter(|c: PoolConfig| c.buffer_capacity == capacity)
}

/// Whether `sorted` holds `configs` by increasing capacity, those of one capacity in the order
/// that they have in `configs`.
pub open spec fn sorted_by_capacity(sorted: Seq<PoolConfig>, configs: Seq<PoolConfig>) -> bool {
    &&& forall|i: int, j: int|
        0 <= i <= j < sorted.len() ==> sorted[i].buffer_capacity <= sorted[j].buffer_capacity
    &&& forall|capacity: usize| #[trigger]
        of_capacity(sorted, capacity) == of_capacity(configs, capacity)
    &&& sorted.len() == configs.len()
}

proof fn lemma_filter_none<A>(s: Seq<A>, f: spec_fn(A) -> bool)
    requires
        forall|i: int| 0 <= i < s.len() ==> !f(#[trigger] s[i]),
    ensures
        s.filter(f) == Seq::<A>::empty(),
    decreases s.len(),
{
    reveal(Seq::filter);
    if s.len() > 0 {
        lemma_filter_none(s.drop_last(), f);
    }
}

proof fn lemma_sorted_insert(
    sorted: Seq<PoolConfig>,
    configs: Seq<PoolConfig>,
    config: PoolConfig,
    at: int,
)
    requires
        sorted_by_capacity(sorted, configs),
        0 <= at <= sorted.len(),
        forall|i: int|
            0 <= i < at ==> (#[trigger] sorted[i]).buffer_capacity <= config.buffer_capacity,
        forall|i: int|
            at <= i < sorted.len() ==> (#[trigger] sorted[i]).buffer_capacity
                > config.buffer_capacity,
    ensures
        sorted_by_capacity(sorted.insert(at, config), configs.push(config)),
{
    let r = sorted.insert(at, config);
    assert forall|capacity: usize| #[trigger]
        of_capacity(r, capacity) == of_capacity(configs.push(config), capacity) by {
        let f = |c: PoolConfig| c.buffer_capacity == capacity;
        let (a, b) = (sorted.take(at), sorted.skip(at));
        assert(sorted =~= a + b);
        assert(r =~= (a + seq![config]) + b);
        assert(configs.push(config) =~= configs + seq![config]);
        Seq::filter_distributes_over_add(a, b, f);
        Seq::filter_distributes_over_add(a + seq![config], b, f);
        Seq::filter_distributes_over_add(a, seq![config], f);
        Seq::filter_distributes_over_add(configs, seq![config], f);
        assert(of_capacity(sorted, capacity) == of_capacity(configs, capacity));
        if capacity == config.buffer_capacity {
            lemma_filter_none(b, f);
        } else {
            lemma_filter_none(seq![config], f);
        }
        assert(of_capacity(r, capacity) =~= of_capacity(configs.push(config), capacity));
    }
}

/// Sorts by capacity, keeping the order among equals.
fn sort_by_capacity(configs: &Vec<PoolConfig>) -> (r: Vec<PoolConfig>)
    ensures
        sorted_by_capacity(r@, configs@),
{
    let mut sorted: Vec<PoolConfig> = Vec::with_capacity(configs.len());
    let mut n: usize = 0;
    assert(configs@.take(0) =~= Seq::empty());
    while n < configs.len()
        invariant
            n <= configs@.len(),
            sorted_by_capacity(sorted@, configs@.take(n as int)),
        decreases configs@.len() - n,
    {
        let config = configs[n];
        let mut at: usize = sorted.len();
        while at > 0 && sorted[at - 1].buffer_capacity > config.buffer_capacity
            invariant
                at <= sorted@.len(),
                forall|i: int|
                    at <= i < sorted@.len() ==> (#[trigger] sorted@[i]).buffer_capacity
                        > config.buffer_capacity,
            decreases at,
        {
            at = at - 1;
        }
        proof {
            lemma_sorted_insert(sorted@, configs@.take(n as int), config, at as int);
            assert(configs@.take(n as int).push(config) =~= configs@.take(n + 1));
        }
        sorted.insert(at, config);
        n = n + 1;
    }
    assert(configs@.take(n as int) =~= configs@);
    sorted
}

impl Default for BufPool {
    fn default() -> (r: Self)
        ensures
            r@ == BufPool::default_configs().map_values(|c: PoolConfig| PoolState::fresh(c)),
            usable(r@),
    {
        let mut pools: Vec<Pool> = Vec::with_capacity(6);
        pools.push(
            Pool::new(PoolConfig { starting_size: 1000, max_size: 10000, buffer_capacity: 50 }),
        );
        pools.push(
            Pool::new(PoolConfig { starting_size: 1000, max_size: 10000, buffer_capacity: 260 }),
        );
        pools.push(
            Pool::new(PoolConfig { starting_size: 100, max_size: 1000, buffer_capacity: 1200 }),
        );
        pools.push(
            Pool::new(PoolConfig { starting_size: 10, max_size: 100, buffer_capacity: 10000 }),
        );
        pools.push(
            Pool::new(PoolConfig { starting_size: 10, max_size: 100, buffer_capacity: 100000 }),
        );
        // the last one is where anything that doesn't fit is pulled from
        pools.push(
            Pool::new(PoolConfig { starting_size: 0, max_size: 10, buffer_capacity: 100001 }),
        );
        let r = BufPool { pools };
        assert(r@ =~= BufPool::default_configs().map_values(|c: PoolConfig| PoolState::fresh(c)));
        reveal(usable);
        r
    }
}

impl BufPool {
    /// The pools that there are by default. The buffers of the last one are for anything that
    /// doesn't fit elsewhere, and may have to grow.
    pub open spec fn default_configs() -> Seq<PoolConfig> {
        seq![
            PoolConfig { starting_size: 1000, max_size: 10000, buffer_capacity: 50 },
            PoolConfig { starting_size: 1000, max_size: 10000, buffer_capacity: 260 },
            PoolConfig { starting_size: 100, max_size: 1000, buffer_capacity: 1200 },
            PoolConfig { starting_size: 10, max_size: 100, buffer_capacity: 10000 },
            PoolConfig { starting_size: 10, max_size: 100, buffer_capacity: 100000 },
            PoolConfig { starting_size: 0, max_size: 10, buffer_capacity: 100001 },
        ]
    }

    /// A pool for each of the configurations, those of lesser capacity first.
    pub fn new(configs: Vec<PoolConfig>) -> (r: Self)
        ensures
            exists|sorted: Seq<PoolConfig>|
                {
                    &&& #[trigger] sorted_by_capacity(sorted, configs@)
                    &&& r@ == sorted.map_values(|c: PoolConfig| PoolState::fresh(c))
                },
            r@.len() == configs@.len(),
            configs@.len() > 0 ==> usable(r@),
    {
        let sorted = sort_by_capacity(&configs);
        let mut pools: Vec<Pool> = Vec::with_capacity(sorted.len());
        let mut i: usize = 0;
        while i < sorted.len()
            invariant
                i <= sorted@.len(),
                pools@.len() == i,
                forall|j: int| 0 <= j < i ==> (#[trigger] pools@[j])@ == PoolState::fresh(sorted@[j]),
            decreases sorted@.len() - i,
        {
            pools.push(Pool::new(sorted[i]));
            i = i + 1;
        }
        let r = BufPool { pools };
        assert(r@ =~= sorted@.map_values(|c: PoolConfig| PoolState::fresh(c)));
        reveal(usable);
        r
    }

    /// One pool with buffers for whole packets.
    pub fn full_packets_only() -> (r: Self)
        ensures
            r@ == seq![
                PoolState::fresh(
                    PoolConfig { starting_size: 1, max_size: 10, buffer_capacity: 1500 },
                ),
            ],
            usable(r@),
    {
        let config = PoolConfig { starting_size: 1, max_size: 10, buffer_capacity: 1500 };
        Self::single(config)
    }

    /// The empty pool always allocates a buffer with default capacity. This is mostly for tests.
    pub fn empty() -> (r: Self)
        ensures
            r@ == seq![
                PoolState::fresh(PoolConfig { starting_size: 0, max_size: 0, buffer_capacity: 0 }),
            ],
            usable(r@),
    {
        let config = PoolConfig { starting_size: 0, max_size: 0, buffer_capacity: 0 };
        Self::single(config)
    }

    fn single(config: PoolConfig) -> (r: Self)
        ensures
            r@ == seq![PoolState::fresh(config)],
            usable(r@),
    {
        let mut pools: Vec<Pool> = Vec::with_capacity(1);
        pools.push(Pool::new(config));
        let r = BufPool { pools };
        assert(r@ =~= seq![PoolState::fresh(config)]);
        reveal(usable);
        r
    }

    /// The number of the pool for a request of `min_size`.
    fn pool_index(&self, min_size: usize) -> (r: usize)
        requires
            self@.len() > 0,
        ensures
            r == pool_for(self@, min_size as nat, 0),
            r < self.pools@.len(),
    {
        let mut i: usize = 0;
        while i < self.pools.len()
            invariant
                i <= self.pools@.len(),
                pool_for(self@, min_size as nat, 0) == pool_for(self@, min_size as nat, i as int),
            decreases self.pools@.len() - i,
        {
            let capacity = self.pools[i].config.buffer_capacity;
            if capacity >= min_size || capacity == 0 {
                return i;
            }
            i = i + 1;
        }
        self.pools.len() - 1
    }

    /// Gets an empty buffer, made with a capacity of at least `min_size` unless that is more than
    /// any of the pools has.
    pub fn get_buffer(&mut self, min_size: usize) -> (r: PooledBuffer)
        requires
            usable(old(self)@),
        ensures
            r@ == Seq::<u8>::empty(),
            r.id == old(self)@[pool_for(old(self)@, min_size as nat, 0)].next_id(),
            final(self)@ == after_get(old(self)@, min_size as nat),
            final(self)@.len() == old(self)@.len(),
            usable(final(self)@),
    {
        proof {
            reveal(usable);
            lemma_usable(self@, min_size as nat, 0);
        }
        let i = self.pool_index(min_size);
        let r = self.pools[i].checkout();
        assert(self@ =~= after_get(old(self)@, min_size as nat));
        r
    }

    /// Checks a buffer of a known capacity back in to the pool, so it can be reused.
    pub fn return_buffer_of_capacity(&mut self, buffer: PooledBuffer, capacity: usize)
        requires
            usable(old(self)@),
        ensures
            final(self)@ == after_return(old(self)@, buffer.id, capacity as nat),
            final(self)@.len() == old(self)@.len(),
            usable(final(self)@),
    {
        proof {
            reveal(usable);
            lemma_usable(self@, capacity as nat, buffer.id);
        }
        let i = self.pool_index(capacity);
        self.pools[i].checkin(buffer);
        assert(self@ =~= after_return(old(self)@, buffer.id, capacity as nat));
    }

    /// Checks a buffer back in to the pool, so it can be reused. Which of the pools gets it goes by
    /// the capacity that the allocator gave it.
    pub fn return_buffer(&mut self, buffer: PooledBuffer)
        requires
            usable(old(self)@),
        ensures
            exists|capacity: usize|
                capacity >= buffer@.len() && final(self)@ == #[trigger] after_return(
                    old(self)@,
                    buffer.id,
                    capacity as nat,
                ),
            final(self)@.len() == old(self)@.len(),
            usable(final(self)@),
    {
        let capacity = vec_capacity(&buffer.v);
        self.return_buffer_of_capacity(buffer, capacity);
    }

    /// Checks buffers back in to the pool, the first one first.
    pub fn return_buffers(&mut self, buffers: Vec<PooledBuffer>)
        requires
            usable(old(self)@),
        ensures
            exists|capacities: Seq<usize>|
                capacities_of(capacities, buffers@) && final(self)@ == #[trigger] after_returns(
                    old(self)@,
                    buffers@,
                    capacities,
                    buffers@.len() as int,
                ),
            final(self)@.len() == old(self)@.len(),
            usable(final(self)@),
    {
        let ghost all = buffers@;
        let ghost mut capacities: Seq<usize> = Seq::empty();
        for buffer in it: buffers
            invariant
                it.seq() == all,
                self@.len() == old(self)@.len(),
                usable(self@),
                capacities.len() == it.index(),
                forall|i: int|
                    0 <= i < it.index() ==> capacities[i] >= (#[trigger] all[i])@.len(),
                self@ == after_returns(old(self)@, all, capacities, it.index() as int),
        {
            let ghost before = self@;
            self.return_buffer(buffer);
            proof {
                let n = capacities.len() as int;
                let capacity = choose|capacity: usize|
                    capacity >= buffer@.len() && self@ == #[trigger] after_return(
                        before,
                        buffer.id,
                        capacity as nat,
                    );
                let longer = capacities.push(capacity);
                lemma_after_returns(old(self)@, all, capacities, longer, n);
                capacities = longer;
            }
        }
        assert(self@ == after_returns(old(self)@, all, capacities, all.len() as int));
    }
}

} // verus!
