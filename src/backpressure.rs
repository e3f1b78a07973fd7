//! Credit pools, a registry of pools keyed by stream id, and a sliding-window
//! rate limiter.
use vstd::prelude::*;

verus! {

/// A single stream's credit counter: `consume` spends credits when enough are
/// available, `add` grows the count without ever overflowing, and `reset`
/// restores the initial amount.
#[derive(Clone, Copy, Debug)]
pub struct CreditManager {
    credits: u32,
    initial_credits: u32,
}

impl CreditManager {
    /// Credits currently available.
    pub closed spec fn spec_available(&self) -> nat {
        self.credits as nat
    }

    /// The amount that `reset` restores.
    pub closed spec fn spec_capacity(&self) -> nat {
        self.initial_credits as nat
    }

    /// Available credits and capacity are `u32` values.
    pub proof fn lemma_fits_u32(self)
        ensures
            self.spec_available() <= u32::MAX,
            self.spec_capacity() <= u32::MAX,
    {
    }

    /// The pool after spending `amount` credits.
    pub closed spec fn spec_take(self, amount: nat) -> Self {
        CreditManager { credits: (self.credits - amount) as u32, ..self }
    }

    /// The pool after a saturating addition of `amount` credits.
    pub closed spec fn spec_grow(self, amount: nat) -> Self {
        CreditManager { credits: saturating_sum(self.credits as nat, amount) as u32, ..self }
    }

    /// A pool of `capacity` credits, all of them available.
    pub closed spec fn spec_fresh(capacity: u32) -> Self {
        CreditManager { credits: capacity, initial_credits: capacity }
    }

    /// The pool after `reset`.
    pub closed spec fn spec_reset(self) -> Self {
        CreditManager { credits: self.initial_credits, ..self }
    }

    pub fn new(initial_credits: u32) -> (r: Self)
        ensures
            r == Self::spec_fresh(initial_credits),
            r.spec_available() == initial_credits,
            r.spec_capacity() == initial_credits,
    {
        CreditManager { credits: initial_credits, initial_credits }
    }

    /// Spends `amount` credits if at least that many are available; otherwise
    /// leaves the pool untouched and returns `false`.
    pub fn consume(&mut self, amount: u32) -> (ok: bool)
        ensures
            ok == (old(self).spec_available() >= amount),
            *final(self) == (if ok { old(self).spec_take(amount as nat) } else { *old(self) }),
            ok ==> final(self).spec_available() == old(self).spec_available() - amount,
            !ok ==> final(self).spec_available() == old(self).spec_available(),
            final(self).spec_capacity() == old(self).spec_capacity(),
    {
        if self.credits >= amount {
            self.credits = self.credits - amount;
            true
        } else {
            false
        }
    }

    /// Adds `amount` credits, saturating at `u32::MAX`.
    pub fn add(&mut self, amount: u32)
        ensures
            *final(self) == old(self).spec_grow(amount as nat),
            final(self).spec_available() == saturating_sum(old(self).spec_available(), amount as nat),
            final(self).spec_capacity() == old(self).spec_capacity(),
    {
        self.credits = self.credits.saturating_add(amount);
    }

    pub fn available(&self) -> (r: u32)
        ensures
            r == self.spec_available(),
    {
        self.credits
    }

    /// Restores the initial amount, whatever happened before.
    pub fn reset(&mut self)
        ensures
            *final(self) == old(self).spec_reset(),
            final(self).spec_available() == old(self).spec_capacity(),
            final(self).spec_capacity() == old(self).spec_capacity(),
    {
        self.credits = self.initial_credits;
    }

    pub fn is_exhausted(&self) -> (r: bool)
        ensures
            r == (self.spec_available() == 0),
    {
        self.credits == 0
    }

    pub fn has_credits(&self) -> (r: bool)
        ensures
            r == (self.spec_available() > 0),
    {
        self.credits > 0
    }
}

/// An operation on a credit pool.
pub enum CreditOp {
    Consume(u32),
    Add(u32),
    Reset,
}

/// The pool after `op`, as `consume`, `add` and `reset` leave it.
pub open spec fn spec_apply_op(pool: CreditManager, op: CreditOp) -> CreditManager {
    match op {
        CreditOp::Consume(a) => if pool.spec_available() >= a {
            pool.spec_take(a as nat)
        } else {
            pool
        },
        CreditOp::Add(a) => pool.spec_grow(a as nat),
        CreditOp::Reset => pool.spec_reset(),
    }
}

/// The pool after each of `ops` in turn.
pub open spec fn spec_apply_ops(pool: CreditManager, ops: Seq<CreditOp>) -> CreditManager
    decreases ops.len(),
{
    if ops.len() == 0 {
        pool
    } else {
        spec_apply_op(spec_apply_ops(pool, ops.drop_last()), ops.last())
    }
}

/// A fresh pool grants `consume(amount)` exactly when `amount` is at most its
/// capacity, and then `capacity - amount` credits remain; otherwise nothing
/// changes.
pub proof fn lemma_fresh_pool_consume(capacity: u32, amount: u32)
    ensures
        ({
            let pool = CreditManager::spec_fresh(capacity);
            &&& (pool.spec_available() >= amount) == (amount <= capacity)
            &&& amount <= capacity ==> spec_apply_op(pool, CreditOp::Consume(amount)).spec_available()
                == capacity - amount
            &&& amount > capacity ==> spec_apply_op(pool, CreditOp::Consume(amount)) == pool
        }),
{
}

/// Whatever operations a pool has seen, `reset` makes its whole capacity
/// available again; and `add` never goes past `u32::MAX`.
pub proof fn lemma_reset_restores_capacity(capacity: u32, ops: Seq<CreditOp>)
    ensures
        spec_apply_op(spec_apply_ops(CreditManager::spec_fresh(capacity), ops), CreditOp::Reset).spec_available()
            == capacity,
        forall|a: u32| #[trigger] spec_apply_op(spec_apply_ops(CreditManager::spec_fresh(capacity), ops), CreditOp::Add(a)).spec_available()
            <= u32::MAX,
{
    lemma_ops_keep_capacity(capacity, ops);
}

proof fn lemma_ops_keep_capacity(capacity: u32, ops: Seq<CreditOp>)
    ensures
        spec_apply_ops(CreditManager::spec_fresh(capacity), ops).spec_capacity() == capacity,
    decreases ops.len(),
{
    if ops.len() > 0 {
        lemma_ops_keep_capacity(capacity, ops.drop_last());
    }
}

/// `a + b`, capped at the largest `u32`.
pub open spec fn saturating_sum(a: nat, b: nat) -> nat {
    if a + b > u32::MAX {
        u32::MAX as nat
    } else {
        a + b
    }
}

/// The text of each string of `v`.
pub open spec fn texts(v: Seq<String>) -> Seq<Seq<char>> {
    v.map_values(|s: String| s@)
}

/// Sum of the available credits of `pools`.
pub open spec fn sum_available(pools: Seq<CreditManager>) -> nat
    decreases pools.len(),
{
    if pools.len() == 0 {
        0
    } else {
        sum_available(pools.drop_last()) + pools.last().spec_available()
    }
}

/// A prefix never holds more credits than the whole sequence.
proof fn lemma_sum_prefix(pools: Seq<CreditManager>, n: int)
    requires
        0 <= n <= pools.len(),
    ensures
        sum_available(pools.subrange(0, n)) <= sum_available(pools),
    decreases pools.len(),
{
    if n < pools.len() {
        assert(pools.drop_last().subrange(0, n) =~= pools.subrange(0, n));
        lemma_sum_prefix(pools.drop_last(), n);
    } else {
        assert(pools.subrange(0, n) =~= pools);
    }
}

/// One credit pool per registered stream id. Stream ids are unique; the
/// registry keeps the order in which streams were first registered.
pub struct MultiStreamCreditManager {
    ids: Vec<String>,
    pools: Vec<CreditManager>,
    default_credits: u32,
}

impl MultiStreamCreditManager {
    /// The registered stream ids, in registration order.
    pub closed spec fn spec_ids(&self) -> Seq<Seq<char>> {
        texts(self.ids@)
    }

    /// The pools, aligned with `spec_ids`.
    pub closed spec fn spec_pools(&self) -> Seq<CreditManager> {
        self.pools@
    }

    /// The capacity given to a stream registered without one.
    pub closed spec fn spec_default_credits(&self) -> nat {
        self.default_credits as nat
    }

    pub open spec fn wf(&self) -> bool {
        &&& self.spec_ids().len() == self.spec_pools().len()
        &&& self.spec_ids().no_duplicates()
    }

    /// The pool registered under `id`, if any.
    pub open spec fn spec_pool(&self, id: Seq<char>) -> Option<CreditManager> {
        if exists|i: int| 0 <= i < self.spec_ids().len() && self.spec_ids()[i] == id {
            let i = choose|i: int| 0 <= i < self.spec_ids().len() && self.spec_ids()[i] == id;
            Some(self.spec_pools()[i])
        } else {
            None
        }
    }

    /// Credits available across all registered streams.
    pub open spec fn spec_total(&self) -> nat {
        sum_available(self.spec_pools())
    }

    pub fn new(default_credits: u32) -> (r: Self)
        ensures
            r.wf(),
            r.spec_ids().len() == 0,
            r.spec_default_credits() == default_credits,
    {
        MultiStreamCreditManager { ids: Vec::new(), pools: Vec::new(), default_credits }
    }

    /// Index of `id` among the registered streams.
    fn position(&self, id: &str) -> (r: Option<usize>)
        requires
            self.wf(),
        ensures
            match r {
                Some(i) => i < self.spec_ids().len() && self.spec_ids()[i as int] == id@,
                None => forall|i: int| 0 <= i < self.spec_ids().len() ==> self.spec_ids()[i] != id@,
            },
    {
        let key = id.to_owned();
        let mut i: usize = 0;
        while i < self.ids.len()
            invariant
                self.wf(),
                key@ == id@,
                i <= self.ids.len(),
                forall|j: int| 0 <= j < i ==> self.spec_ids()[j] != id@,
            decreases self.ids.len() - i,
        {
            if self.ids[i] == key {
                return Some(i);
            }
            i = i + 1;
        }
        None
    }

    proof fn lemma_pool_at(&self, i: int)
        requires
            self.wf(),
            0 <= i < self.spec_ids().len(),
        ensures
            self.spec_pool(self.spec_ids()[i]) == Some(self.spec_pools()[i]),
    {
        let id = self.spec_ids()[i];
        let j = choose|j: int| 0 <= j < self.spec_ids().len() && self.spec_ids()[j] == id;
        assert(self.spec_ids()[j] == self.spec_ids()[i]);
    }

    /// Removes `stream_id` and its pool, if it is registered.
    pub fn unregister_stream(&mut self, stream_id: &str)
        requires
            old(self).wf(),
        ensures
            final(self).wf(),
            final(self).spec_default_credits() == old(self).spec_default_credits(),
            final(self).spec_pool(stream_id@) is None,
            forall|k: Seq<char>| k != stream_id@ ==> final(self).spec_pool(k) == old(self).spec_pool(k),
    {
        match self.position(stream_id) {
            Some(i) => {
                let ghost old_ids = self.spec_ids();
                self.ids.remove(i);
                self.pools.remove(i);
                proof {
                    assert(self.spec_ids() =~= old_ids.remove(i as int));
                    assert forall|k: Seq<char>| k != stream_id@ implies self.spec_pool(k) == old(self).spec_pool(k) by {
                        if exists|j: int| 0 <= j < old_ids.len() && old_ids[j] == k {
                            let j = choose|j: int| 0 <= j < old_ids.len() && old_ids[j] == k;
                            old(self).lemma_pool_at(j);
                            if j < i {
                                self.lemma_pool_at(j);
                            } else {
                                assert(j != i);
                                self.lemma_pool_at(j - 1);
                            }
                        }
                        if exists|j: int| 0 <= j < self.spec_ids().len() && self.spec_ids()[j] == k {
                            let j = choose|j: int| 0 <= j < self.spec_ids().len() && self.spec_ids()[j] == k;
                            self.lemma_pool_at(j);
                            if j < i {
                                old(self).lemma_pool_at(j);
                            } else {
                                old(self).lemma_pool_at(j + 1);
                            }
                        }
                    }
                    assert forall|j: int| 0 <= j < self.spec_ids().len() implies self.spec_ids()[j] != stream_id@ by {
                        if j < i {
                            assert(old_ids[j] != old_ids[i as int]);
                        } else {
                            assert(old_ids[j + 1] != old_ids[i as int]);
                        }
                    }
                }
            },
            None => {},
        }
    }

    /// Spends `amount` credits of `stream_id`'s pool; `false` for an unknown
    /// stream or when the pool has too few credits.
    pub fn consume(&mut self, stream_id: &str, amount: u32) -> (ok: bool)
        requires
            old(self).wf(),
        ensures
            final(self).wf(),
            final(self).spec_default_credits() == old(self).spec_default_credits(),
            ok == (old(self).spec_pool(stream_id@) matches Some(p) && p.spec_available() >= amount),
            final(self).spec_pool(stream_id@) == (match old(self).spec_pool(stream_id@) {
                Some(p) => Some(if ok { p.spec_take(amount as nat) } else { p }),
                None => None::<CreditManager>,
            }),
            old(self).spec_pool(stream_id@) matches Some(p) ==> final(self).spec_pool(stream_id@) matches Some(q)
                && q.spec_available() == (if ok { p.spec_available() - amount } else { p.spec_available() as int })
                && q.spec_capacity() == p.spec_capacity(),
            forall|k: Seq<char>| k != stream_id@ ==> final(self).spec_pool(k) == old(self).spec_pool(k),
    {
        match self.position(stream_id) {
            Some(i) => {
                let mut p = self.pools[i];
                let ok = p.consume(amount);
                self.pools.set(i, p);
                proof { self.lemma_updated_at(old(self), i as int); }
                ok
            },
            None => false,
        }
    }

    /// Adds `amount` credits to `stream_id`'s pool, saturating; nothing for an
    /// unknown stream.
    pub fn add_credits(&mut self, stream_id: &str, amount: u32)
        requires
            old(self).wf(),
        ensures
            final(self).wf(),
            final(self).spec_default_credits() == old(self).spec_default_credits(),
            final(self).spec_pool(stream_id@) == (match old(self).spec_pool(stream_id@) {
                Some(p) => Some(p.spec_grow(amount as nat)),
                None => None::<CreditManager>,
            }),
            old(self).spec_pool(stream_id@) matches Some(p) ==> final(self).spec_pool(stream_id@) matches Some(q)
                && q.spec_available() == saturating_sum(p.spec_available(), amount as nat)
                && q.spec_capacity() == p.spec_capacity(),
            forall|k: Seq<char>| k != stream_id@ ==> final(self).spec_pool(k) == old(self).spec_pool(k),
    {
        match self.position(stream_id) {
            Some(i) => {
                let mut p = self.pools[i];
                p.add(amount);
                self.pools.set(i, p);
                proof { self.lemma_updated_at(old(self), i as int); }
            },
            None => {},
        }
    }

    /// What `old` becomes when only its pool at `i` is replaced.
    proof fn lemma_updated_at(&self, old: &Self, i: int)
        requires
            old.wf(),
            0 <= i < old.spec_ids().len(),
            self.ids@ == old.ids@,
            self.default_credits == old.default_credits,
            self.pools@ == old.pools@.update(i, self.pools@[i]),
        ensures
            self.wf(),
            old.spec_pool(old.spec_ids()[i]) == Some(old.spec_pools()[i]),
            self.spec_pool(old.spec_ids()[i]) == Some(self.spec_pools()[i]),
            forall|k: Seq<char>| k != old.spec_ids()[i] ==> self.spec_pool(k) == old.spec_pool(k),
    {
        assert(self.spec_ids() == old.spec_ids());
        self.lemma_pool_at(i);
        old.lemma_pool_at(i);
        assert forall|k: Seq<char>| k != old.spec_ids()[i] implies self.spec_pool(k) == old.spec_pool(k) by {
            if exists|j: int| 0 <= j < self.spec_ids().len() && self.spec_ids()[j] == k {
                let j = choose|j: int| 0 <= j < self.spec_ids().len() && self.spec_ids()[j] == k;
                self.lemma_pool_at(j);
                old.lemma_pool_at(j);
            }
        }
    }

    pub fn available_credits(&self, stream_id: &str) -> (r: Option<u32>)
        requires
            self.wf(),
        ensures
            match self.spec_pool(stream_id@) {
                Some(p) => r matches Some(c) && c == p.spec_available(),
                None => r is None,
            },
    {
        match self.position(stream_id) {
            Some(i) => {
                proof { self.lemma_pool_at(i as int); }
                Some(self.pools[i].available())
            },
            None => None,
        }
    }

    /// An unregistered stream counts as exhausted.
    pub fn is_stream_exhausted(&self, stream_id: &str) -> (r: bool)
        requires
            self.wf(),
        ensures
            r == (match self.spec_pool(stream_id@) {
                Some(p) => p.spec_available() == 0,
                None => true,
            }),
    {
        match self.position(stream_id) {
            Some(i) => {
                proof { self.lemma_pool_at(i as int); }
                self.pools[i].is_exhausted()
            },
            None => true,
        }
    }

    /// The registered stream ids, in registration order.
    pub fn active_streams(&self) -> (r: Vec<String>)
        requires
            self.wf(),
        ensures
            texts(r@) == self.spec_ids(),
    {
        let mut r: Vec<String> = Vec::new();
        let mut i: usize = 0;
        while i < self.ids.len()
            invariant
                self.wf(),
                i <= self.ids.len(),
                r@.len() == i,
                texts(r@) == self.spec_ids().subrange(0, i as int),
            decreases self.ids.len() - i,
        {
            let id = self.ids[i].clone();
            let ghost before = r@;
            r.push(id);
            proof {
                assert(r@ == before.push(id));
                assert(id == self.ids@[i as int]);
                let want = self.spec_ids().subrange(0, i as int + 1);
                assert forall|j: int| 0 <= j < want.len() implies texts(r@)[j] == want[j] by {
                    if j < i {
                        assert(texts(before)[j] == self.spec_ids().subrange(0, i as int)[j]);
                    }
                }
                assert(texts(r@) =~= want);
            }
            i = i + 1;
        }
        assert(self.spec_ids().subrange(0, i as int) =~= self.spec_ids());
        r
    }

    /// Credits available across all streams; the total must fit in a `u32`.
    pub fn total_available_credits(&self) -> (r: u32)
        requires
            self.wf(),
            self.spec_total() <= u32::MAX,
        ensures
            r == self.spec_total(),
    {
        let mut total: u32 = 0;
        let mut i: usize = 0;
        while i < self.pools.len()
            invariant
                i <= self.pools.len(),
                sum_available(self.pools@) <= u32::MAX,
                total == sum_available(self.pools@.subrange(0, i as int)),
            decreases self.pools.len() - i,
        {
            proof {
                let next = self.pools@.subrange(0, i as int + 1);
                assert(next.drop_last() =~= self.pools@.subrange(0, i as int));
                lemma_sum_prefix(self.pools@, i as int + 1);
            }
            total = total + self.pools[i].available();
            i = i + 1;
        }
        assert(self.pools@.subrange(0, i as int) =~= self.pools@);
        total
    }

    /// Credits available across all streams, or `None` when the total does
    /// not fit in a `u32`.
    pub fn checked_total_credits(&self) -> (r: Option<u32>)
        requires
            self.wf(),
        ensures
            r == (if self.spec_total() <= u32::MAX { Some(self.spec_total() as u32) } else { None::<u32> }),
    {
        let mut total: u32 = 0;
        let mut i: usize = 0;
        while i < self.pools.len()
            invariant
                i <= self.pools.len(),
                total == sum_available(self.pools@.subrange(0, i as int)),
            decreases self.pools.len() - i,
        {
            proof {
                let next = self.pools@.subrange(0, i as int + 1);
                assert(next.drop_last() =~= self.pools@.subrange(0, i as int));
                lemma_sum_prefix(self.pools@, i as int + 1);
            }
            match total.checked_add(self.pools[i].available()) {
                Some(t) => total = t,
                None => return None,
            }
            i = i + 1;
        }
        assert(self.pools@.subrange(0, i as int) =~= self.pools@);
        Some(total)
    }

    /// Registers `stream_id` with a fresh pool of `initial_credits`, or of the
    /// default amount when none is given, replacing any pool it had.
    pub fn register_stream(&mut self, stream_id: String, initial_credits: Option<u32>)
        requires
            old(self).wf(),
        ensures
            final(self).wf(),
            final(self).spec_default_credits() == old(self).spec_default_credits(),
            ({
                let c = match initial_credits {
                    Some(c) => c as nat,
                    None => old(self).spec_default_credits(),
                };
                final(self).spec_pool(stream_id@) matches Some(p)
                    && p.spec_available() == c && p.spec_capacity() == c
            }),
            forall|k: Seq<char>| k != stream_id@ ==> final(self).spec_pool(k) == old(self).spec_pool(k),
    {
        let credits = match initial_credits {
            Some(c) => c,
            None => self.default_credits,
        };
        let fresh = CreditManager::new(credits);
        match self.position(stream_id.as_str()) {
            Some(i) => {
                self.pools.set(i, fresh);
                proof {
                    assert(self.spec_ids() == old(self).spec_ids());
                    self.lemma_pool_at(i as int);
                    assert forall|k: Seq<char>| k != stream_id@ implies self.spec_pool(k) == old(self).spec_pool(k) by {
                        if exists|j: int| 0 <= j < self.spec_ids().len() && self.spec_ids()[j] == k {
                            let j = choose|j: int| 0 <= j < self.spec_ids().len() && self.spec_ids()[j] == k;
                            self.lemma_pool_at(j);
                            old(self).lemma_pool_at(j);
                        }
                    }
                }
            },
            None => {
                let ghost old_ids = self.spec_ids();
                self.ids.push(stream_id);
                self.pools.push(fresh);
                proof {
                    assert(self.spec_ids() =~= old_ids.push(stream_id@));
                    self.lemma_pool_at(old_ids.len() as int);
                    assert forall|k: Seq<char>| k != stream_id@ implies self.spec_pool(k) == old(self).spec_pool(k) by {
                        if exists|j: int| 0 <= j < old_ids.len() && old_ids[j] == k {
                            let j = choose|j: int| 0 <= j < old_ids.len() && old_ids[j] == k;
                            self.lemma_pool_at(j);
                            old(self).lemma_pool_at(j);
                        }
                    }
                }
            },
        }
    }
}

/// The events of `events` that are later than `lo`, in order.
pub open spec fn prune(events: Seq<u64>, lo: int) -> Seq<u64>
    decreases events.len(),
{
    if events.len() == 0 {
        events
    } else if events.last() > lo {
        prune(events.drop_last(), lo).push(events.last())
    } else {
        prune(events.drop_last(), lo)
    }
}

/// What an admission check at `now` does to a log of `events`: it forgets the
/// events at or before `now - window`, then records `now` when fewer than
/// `max_events` remain. The flag tells whether `now` was admitted.
pub open spec fn spec_acquire(events: Seq<u64>, window: u64, max_events: u32, now: u64) -> (Seq<u64>, bool) {
    let kept = prune(events, now - window);
    if kept.len() < max_events {
        (kept.push(now), true)
    } else {
        (kept, false)
    }
}

/// The log and the admission flags after checking each timestamp of
/// `stamps` in turn, starting from an empty log.
pub open spec fn spec_run(window: u64, max_events: u32, stamps: Seq<u64>) -> (Seq<u64>, Seq<bool>)
    decreases stamps.len(),
{
    if stamps.len() == 0 {
        (Seq::empty(), Seq::empty())
    } else {
        let (events, admitted) = spec_run(window, max_events, stamps.drop_last());
        let (next, ok) = spec_acquire(events, window, max_events, stamps.last());
        (next, admitted.push(ok))
    }
}

/// How many of the first `n` timestamps were admitted and are later than `lo`.
pub open spec fn admitted_after(stamps: Seq<u64>, admitted: Seq<bool>, n: int, lo: int) -> nat
    decreases n,
{
    if n <= 0 {
        0
    } else {
        admitted_after(stamps, admitted, n - 1, lo) + if admitted[n - 1] && stamps[n - 1] > lo {
            1nat
        } else {
            0nat
        }
    }
}

pub open spec fn non_decreasing(stamps: Seq<u64>) -> bool {
    forall|i: int, j: int| 0 <= i <= j < stamps.len() ==> stamps[i] <= stamps[j]
}

proof fn lemma_prune_len(events: Seq<u64>, lo: int)
    ensures
        prune(events, lo).len() <= events.len(),
    decreases events.len(),
{
    if events.len() > 0 {
        lemma_prune_len(events.drop_last(), lo);
    }
}

/// Pruning at `cut` first changes nothing about what lies later than `lo >= cut`.
proof fn lemma_prune_twice(events: Seq<u64>, cut: int, lo: int)
    requires
        cut <= lo,
    ensures
        prune(prune(events, cut), lo) == prune(events, lo),
    decreases events.len(),
{
    if events.len() > 0 {
        lemma_prune_twice(events.drop_last(), cut, lo);
        let rest = prune(events.drop_last(), cut);
        if events.last() > cut {
            assert(prune(events, cut).drop_last() == rest);
        }
    }
}

/// The log after `n` checks holds exactly the admitted timestamps, and never
/// more than `max_events` of them.
proof fn lemma_run_log(window: u64, max_events: u32, stamps: Seq<u64>, lo: int)
    requires
        non_decreasing(stamps),
        stamps.len() == 0 || lo >= stamps.last() - window,
    ensures
        prune(spec_run(window, max_events, stamps).0, lo).len()
            == admitted_after(stamps, spec_run(window, max_events, stamps).1, stamps.len() as int, lo),
        spec_run(window, max_events, stamps).0.len() <= max_events,
        spec_run(window, max_events, stamps).1.len() == stamps.len(),
    decreases stamps.len(),
{
    if stamps.len() > 0 {
        let prev = stamps.drop_last();
        let now = stamps.last();
        let (events, admitted) = spec_run(window, max_events, prev);
        let cut = now - window;
        assert(non_decreasing(prev));
        if prev.len() > 0 {
            assert(prev.last() <= now);
        }
        lemma_run_log(window, max_events, prev, lo);
        lemma_run_log(window, max_events, prev, cut);
        lemma_prune_twice(events, cut, lo);
        lemma_prune_len(events, cut);
        let kept = prune(events, cut);
        let (next, ok) = spec_acquire(events, window, max_events, now);
        let all = admitted.push(ok);
        assert forall|k: int| 0 <= k <= prev.len() implies admitted_after(stamps, all, k, lo)
            == admitted_after(prev, admitted, k, lo) by {
            lemma_admitted_after_prefix(stamps, all, prev, admitted, k, lo);
        }
        if ok {
            assert(next.drop_last() == kept);
            assert(prune(next, lo) == if now > lo { prune(kept, lo).push(now) } else { prune(kept, lo) });
        }
    }
}

proof fn lemma_admitted_after_prefix(
    stamps: Seq<u64>,
    all: Seq<bool>,
    prev: Seq<u64>,
    admitted: Seq<bool>,
    k: int,
    lo: int,
)
    requires
        0 <= k <= prev.len(),
        prev.len() <= stamps.len(),
        admitted.len() <= all.len(),
        k <= admitted.len(),
        forall|j: int| 0 <= j < k ==> stamps[j] == prev[j] && all[j] == admitted[j],
    ensures
        admitted_after(stamps, all, k, lo) == admitted_after(prev, admitted, k, lo),
    decreases k,
{
    if k > 0 {
        lemma_admitted_after_prefix(stamps, all, prev, admitted, k - 1, lo);
    }
}

/// For any non-decreasing sequence of submitted timestamps, the limiter
/// admits at most `max_events` of them in the trailing window that ends at
/// each submission: the admitted timestamps later than `stamps[i] - window`,
/// among the first `i + 1`, number at most `max_events`.
pub proof fn lemma_window_admits_at_most_max(window: u64, max_events: u32, stamps: Seq<u64>, i: int)
    requires
        non_decreasing(stamps),
        0 <= i < stamps.len(),
    ensures
        admitted_after(
            stamps,
            spec_run(window, max_events, stamps).1,
            i + 1,
            stamps[i] - window,
        ) <= max_events,
{
    let prefix = stamps.subrange(0, i + 1);
    assert(non_decreasing(prefix));
    lemma_run_log(window, max_events, prefix, stamps[i] - window);
    lemma_prune_len(spec_run(window, max_events, prefix).0, stamps[i] - window);
    lemma_run_prefix(window, max_events, stamps, i + 1);
    lemma_admitted_after_prefix(
        stamps,
        spec_run(window, max_events, stamps).1,
        prefix,
        spec_run(window, max_events, prefix).1,
        i + 1,
        stamps[i] - window,
    );
}

/// How many of the first `n` timestamps were admitted and lie in `(lo, hi]`.
pub open spec fn admitted_within(stamps: Seq<u64>, admitted: Seq<bool>, n: int, lo: int, hi: int) -> nat
    decreases n,
{
    if n <= 0 {
        0
    } else {
        admitted_within(stamps, admitted, n - 1, lo, hi) + if admitted[n - 1] && lo < stamps[n - 1] <= hi {
            1nat
        } else {
            0nat
        }
    }
}

proof fn lemma_within_le_after(stamps: Seq<u64>, admitted: Seq<bool>, n: int, lo: int, lo2: int, hi: int)
    requires
        lo2 <= lo,
    ensures
        admitted_within(stamps, admitted, n, lo, hi) <= admitted_after(stamps, admitted, n, lo2),
    decreases n,
{
    if n > 0 {
        lemma_within_le_after(stamps, admitted, n - 1, lo, lo2, hi);
    }
}

/// For any non-decreasing sequence of submitted timestamps, every trailing
/// window `(end - window, end]` holds at most `max_events` admitted ones.
pub proof fn lemma_any_window_admits_at_most_max(window: u64, max_events: u32, stamps: Seq<u64>, end: int)
    requires
        non_decreasing(stamps),
    ensures
        admitted_within(
            stamps,
            spec_run(window, max_events, stamps).1,
            stamps.len() as int,
            end - window,
            end,
        ) <= max_events,
{
    lemma_within_prefix(window, max_events, stamps, stamps.len() as int, end);
}

proof fn lemma_within_prefix(window: u64, max_events: u32, stamps: Seq<u64>, n: int, end: int)
    requires
        non_decreasing(stamps),
        0 <= n <= stamps.len(),
    ensures
        admitted_within(stamps, spec_run(window, max_events, stamps).1, n, end - window, end) <= max_events,
    decreases n,
{
    let flags = spec_run(window, max_events, stamps).1;
    if n > 0 {
        if stamps[n - 1] <= end {
            lemma_window_admits_at_most_max(window, max_events, stamps, n - 1);
            lemma_within_le_after(stamps, flags, n, end - window, stamps[n - 1] - window, end);
        } else {
            lemma_within_prefix(window, max_events, stamps, n - 1, end);
            assert(!(flags[n - 1] && end - window < stamps[n - 1] <= end));
        }
    }
}

/// Checking more timestamps never changes the flags of earlier ones.
proof fn lemma_run_prefix(window: u64, max_events: u32, stamps: Seq<u64>, n: int)
    requires
        0 <= n <= stamps.len(),
    ensures
        spec_run(window, max_events, stamps).1.len() == stamps.len(),
        forall|j: int| 0 <= j < n ==> spec_run(window, max_events, stamps.subrange(0, n)).1[j]
            == spec_run(window, max_events, stamps).1[j],
    decreases stamps.len(),
{
    if stamps.len() > 0 {
        lemma_run_prefix(window, max_events, stamps.drop_last(), if n == stamps.len() { n - 1 } else { n });
        if n == stamps.len() {
            assert(stamps.subrange(0, n) == stamps);
        } else {
            assert(stamps.drop_last().subrange(0, n) == stamps.subrange(0, n));
        }
    }
}

/// Admits an event at a timestamp unless `max_events` events already lie in
/// the trailing window of `window_size_ms` milliseconds.
pub struct WindowedRateLimiter {
    window_size_ms: u64,
    max_events: u32,
    events: Vec<u64>,
}

impl WindowedRateLimiter {
    /// The recorded event timestamps, oldest first.
    pub closed spec fn spec_events(&self) -> Seq<u64> {
        self.events@
    }

    pub closed spec fn spec_window(&self) -> u64 {
        self.window_size_ms
    }

    pub closed spec fn spec_max_events(&self) -> u32 {
        self.max_events
    }

    pub fn new(window_size_ms: u64, max_events: u32) -> (r: Self)
        ensures
            r.spec_events().len() == 0,
            r.spec_window() == window_size_ms,
            r.spec_max_events() == max_events,
    {
        WindowedRateLimiter { window_size_ms, max_events, events: Vec::new() }
    }

    /// Forgets the events at or before `timestamp_ms - window_size_ms`, then
    /// records `timestamp_ms` and returns `true` if fewer than `max_events`
    /// remain; otherwise returns `false` without recording it.
    pub fn try_acquire(&mut self, timestamp_ms: u64) -> (ok: bool)
        ensures
            (final(self).spec_events(), ok) == spec_acquire(
                old(self).spec_events(),
                old(self).spec_window(),
                old(self).spec_max_events(),
                timestamp_ms,
            ),
            final(self).spec_window() == old(self).spec_window(),
            final(self).spec_max_events() == old(self).spec_max_events(),
    {
        let lo: Ghost<int> = Ghost(timestamp_ms - self.window_size_ms);
        let mut kept: Vec<u64> = Vec::new();
        let mut i: usize = 0;
        while i < self.events.len()
            invariant
                i <= self.events.len(),
                lo@ == timestamp_ms - self.window_size_ms,
                kept@ == prune(self.events@.subrange(0, i as int), lo@),
            decreases self.events.len() - i,
        {
            let e = self.events[i];
            proof {
                assert(self.events@.subrange(0, i as int + 1).drop_last() == self.events@.subrange(0, i as int));
            }
            if timestamp_ms < self.window_size_ms || e > timestamp_ms - self.window_size_ms {
                kept.push(e);
            }
            i = i + 1;
        }
        assert(self.events@.subrange(0, i as int) == self.events@);
        self.events = kept;
        if self.events.len() < self.max_events as usize {
            self.events.push(timestamp_ms);
            true
        } else {
            false
        }
    }

    pub fn window_size_ms(&self) -> (r: u64)
        ensures
            r == self.spec_window(),
    {
        self.window_size_ms
    }

    /// Number of recorded events later than `timestamp_ms - window_size_ms`;
    /// the log itself is left as it is.
    pub fn recent_events(&self, timestamp_ms: u64) -> (r: usize)
        ensures
            r == prune(self.spec_events(), timestamp_ms - self.spec_window()).len(),
    {
        let lo: Ghost<int> = Ghost(timestamp_ms - self.window_size_ms);
        let mut count: usize = 0;
        let mut i: usize = 0;
        while i < self.events.len()
            invariant
                i <= self.events.len(),
                lo@ == timestamp_ms - self.window_size_ms,
                count == prune(self.events@.subrange(0, i as int), lo@).len(),
                count <= i,
            decreases self.events.len() - i,
        {
            let e = self.events[i];
            proof {
                assert(self.events@.subrange(0, i as int + 1).drop_last() == self.events@.subrange(0, i as int));
            }
            if timestamp_ms < self.window_size_ms || e > timestamp_ms - self.window_size_ms {
                count = count + 1;
            }
            i = i + 1;
        }
        assert(self.events@.subrange(0, i as int) == self.events@);
        count
    }

    /// Forgets every recorded event.
    pub fn reset(&mut self)
        ensures
            final(self).spec_events().len() == 0,
            final(self).spec_window() == old(self).spec_window(),
            final(self).spec_max_events() == old(self).spec_max_events(),
    {
        self.events = Vec::new();
    }
}

} // verus!
