//! The bounded first tier: an exact-match map whose keys are evicted in the
//! order in which they were first inserted.

use vstd::prelude::*;
use crate::cache::{Cache, CacheError, Entry, EntryView, Op, distinct_inserts, lookup_result};
use crate::bytes::to_owned_bytes;
use crate::time::Clock;
use crate::cache::queue::{KeyQueue, without, lemma_without};
use crate::cache::store::Store;

verus! {

/// The most keys the insertion history holds.
pub const MAX_ENTRIES: usize = 1024;

/// The first tier.
pub struct L1 {
    map: Store,
    order: KeyQueue,
    clock: Clock,
}

/// The state of the first tier: the live entries, and the history of
/// insertions that decides which key leaves next. A key that a lookup found
/// expired leaves `live` but keeps its place in `order`.
pub struct L1View {
    pub live: Map<Seq<u8>, EntryView>,
    pub order: Seq<Seq<u8>>,
}

impl L1View {
    /// Every live key has a place in the history, and the history is within
    /// its cap.
    pub open spec fn wf(self) -> bool {
        &&& self.live.dom().finite()
        &&& self.order.len() <= MAX_ENTRIES
        &&& forall|k: Seq<u8>|
            #![trigger self.live.contains_key(k)]
            #![trigger self.order.contains(k)]
            self.live.contains_key(k) ==> self.order.contains(k)
    }

    /// The tier before anything was inserted.
    pub open spec fn empty() -> L1View {
        L1View { live: Map::empty(), order: Seq::empty() }
    }

    /// A lookup of `key` when the clock reads `now`: the state it leaves and
    /// what it returns.
    pub open spec fn lookup(self, key: Seq<u8>, now: u128) -> (L1View, Result<
        EntryView,
        CacheError,
    >) {
        if !self.live.contains_key(key) {
            (self, Err(CacheError::NotFound))
        } else if self.live[key].expired_at(now) {
            (L1View { live: self.live.remove(key), ..self }, Err(CacheError::Expired))
        } else {
            (self, Ok(self.live[key]))
        }
    }

    /// The state after `entry` is inserted under `key` when the clock reads
    /// `now`. A key that is not live joins the back of the history; if the
    /// history is then over its cap, its front leaves, and with it the entry
    /// under that key.
    pub open spec fn insert(self, key: Seq<u8>, entry: EntryView, now: u128) -> L1View {
        let order = if self.live.contains_key(key) {
            self.order
        } else {
            self.order.push(key)
        };
        let live = self.live.insert(key, entry.stamped(now));
        if order.len() > MAX_ENTRIES {
            L1View { live: live.remove(order[0]), order: order.drop_first() }
        } else {
            L1View { live, order }
        }
    }

    /// An invalidation of `key`: the state it leaves and what it returns. A
    /// live key leaves the map and every place it has in the history.
    pub open spec fn invalidate(self, key: Seq<u8>) -> (L1View, Result<(), CacheError>) {
        if self.live.contains_key(key) {
            (L1View { live: self.live.remove(key), order: without(self.order, key) }, Ok(()))
        } else {
            (self, Err(CacheError::NotFound))
        }
    }

    /// The state after one call.
    pub open spec fn apply(self, op: Op) -> L1View {
        match op {
            Op::Lookup { key, now } => self.lookup(key, now).0,
            Op::Insert { key, entry, now } => self.insert(key, entry, now),
            Op::Invalidate { key } => self.invalidate(key).0,
        }
    }

    /// The state after a series of calls, first to last.
    pub open spec fn run(self, ops: Seq<Op>) -> L1View
        decreases ops.len(),
    {
        if ops.len() == 0 {
            self
        } else {
            self.run(ops.drop_last()).apply(ops.last())
        }
    }
}

impl View for L1 {
    type V = L1View;

    closed spec fn view(&self) -> L1View {
        L1View { live: self.map@, order: self.order@ }
    }
}

impl L1 {
    /// The representation is consistent and the state is well-formed.
    pub closed spec fn inv(&self) -> bool {
        &&& self.map.wf()
        &&& self@.wf()
    }

    /// A tier whose representation is consistent is in a well-formed state.
    pub proof fn lemma_inv(&self)
        requires
            self.inv(),
        ensures
            self@.wf(),
    {
    }

    /// An empty tier with its own clock.
    pub fn new() -> (t: L1)
        ensures
            t.inv(),
            t@ == L1View::empty(),
    {
        let t = L1 { map: Store::new(), order: KeyQueue::new(), clock: Clock::new() };
        assert(t@.live.dom() =~= Set::<Seq<u8>>::empty());
        t
    }

    /// The number of live entries, which is never over the cap.
    pub fn len(&self) -> (n: usize)
        requires
            self.inv(),
        ensures
            n == self@.live.dom().len(),
            n <= MAX_ENTRIES,
    {
        proof {
            lemma_l1_size(self@);
        }
        self.map.len()
    }

    /// The reading of the tier's clock.
    pub fn now(&self) -> u128 {
        self.clock.now()
    }

    /// [`Cache::lookup`] with the clock reading given.
    pub fn lookup_at(&mut self, key: &[u8], now: u128) -> (r: Result<Entry, CacheError>)
        requires
            old(self).inv(),
        ensures
            final(self).inv(),
            final(self)@ == old(self)@.lookup(key@, now).0,
            lookup_result(r) == old(self)@.lookup(key@, now).1,
    {
        let found: Option<Entry> = match self.map.get(key) {
            Some(e) => if e.is_expired(now) {
                None
            } else {
                Some(e.clone())
            },
            None => {
                return Err(CacheError::NotFound);
            },
        };
        match found {
            Some(e) => Ok(e),
            None => {
                self.map.remove(key);
                Err(CacheError::Expired)
            },
        }
    }

    /// [`Cache::insert`] with the clock reading given.
    pub fn insert_at(&mut self, key: &[u8], entry: Entry, now: u128) -> (r: Result<
        (),
        CacheError,
    >)
        requires
            old(self).inv(),
        ensures
            final(self).inv(),
            r is Ok,
            final(self)@ == old(self)@.insert(key@, entry@, now),
    {
        let ghost target = self@.insert(key@, entry@, now);
        proof {
            lemma_l1_insert_wf(self@, key@, entry@, now);
        }
        if !self.map.contains_key(key) {
            self.order.push_back(to_owned_bytes(key));
        }
        let stamped = Entry { created_at: now, ..entry };
        self.map.insert(to_owned_bytes(key), stamped);
        let ghost grown = self@;
        while self.order.len() > MAX_ENTRIES
            invariant
                self.map.wf(),
                grown.order.len() <= MAX_ENTRIES + 1,
                self.order@.len() > MAX_ENTRIES ==> self@ == grown,
                self.order@.len() <= MAX_ENTRIES ==> self@ == target,
                target == (if grown.order.len() > MAX_ENTRIES {
                    L1View {
                        live: grown.live.remove(grown.order[0]),
                        order: grown.order.drop_first(),
                    }
                } else {
                    grown
                }),
            decreases self.order@.len(),
        {
            match self.order.pop_front() {
                Some(oldest) => {
                    self.map.remove(oldest.as_slice());
                    assert(self.map@ =~= grown.live.remove(oldest@));
                },
                None => {},
            }
        }
        Ok(())
    }
}

impl Cache for L1 {
    open spec fn wf(&self) -> bool {
        self.inv()
    }

    open spec fn live(&self) -> Map<Seq<u8>, EntryView> {
        self@.live
    }

    open spec fn value_cap(&self) -> Option<nat> {
        None
    }

    /// The lookup is [`L1View::lookup`] at some reading of the clock.
    fn lookup(&mut self, key: &[u8]) -> (r: Result<Entry, CacheError>)
        ensures
            exists|now: u128|
                final(self)@ == (#[trigger] old(self)@.lookup(key@, now)).0 && lookup_result(r)
                    == old(self)@.lookup(key@, now).1,
    {
        let now = self.clock.now();
        self.lookup_at(key, now)
    }

    /// The insertion is [`L1View::insert`] at some reading of the clock.
    fn insert(&mut self, key: &[u8], entry: Entry) -> (r: Result<(), CacheError>)
        ensures
            r is Ok,
            exists|now: u128| final(self)@ == #[trigger] old(self)@.insert(key@, entry@, now),
    {
        let now = self.clock.now();
        self.insert_at(key, entry, now)
    }

    /// The invalidation is [`L1View::invalidate`].
    fn invalidate(&mut self, key: &[u8]) -> (r: Result<(), CacheError>)
        ensures
            final(self)@ == old(self)@.invalidate(key@).0,
            r == old(self)@.invalidate(key@).1,
    {
        proof {
            lemma_l1_invalidate_wf(self@, key@);
        }
        match self.map.remove(key) {
            Some(_) => {
                self.order.remove_all(key);
                Ok(())
            },
            None => Err(CacheError::NotFound),
        }
    }
}

/// A well-formed first tier holds at most `MAX_ENTRIES` live entries.
pub proof fn lemma_l1_size(s: L1View)
    requires
        s.wf(),
    ensures
        s.live.dom().len() <= MAX_ENTRIES,
{
    let keys = s.order.to_set();
    vstd::seq_lib::seq_to_set_is_finite(s.order);
    s.order.lemma_cardinality_of_set();
    assert(s.live.dom().subset_of(keys));
    vstd::set_lib::lemma_len_subset(s.live.dom(), keys);
}

/// A lookup keeps the state well-formed.
pub proof fn lemma_l1_lookup_wf(s: L1View, key: Seq<u8>, now: u128)
    requires
        s.wf(),
    ensures
        s.lookup(key, now).0.wf(),
{
}

/// An insertion keeps the state well-formed.
pub proof fn lemma_l1_insert_wf(s: L1View, key: Seq<u8>, entry: EntryView, now: u128)
    requires
        s.wf(),
    ensures
        s.insert(key, entry, now).wf(),
{
    let order = if s.live.contains_key(key) {
        s.order
    } else {
        s.order.push(key)
    };
    let live = s.live.insert(key, entry.stamped(now));
    assert forall|k: Seq<u8>| live.contains_key(k) implies order.contains(k) by {
        if k == key && !s.live.contains_key(key) {
            assert(order[order.len() - 1] == key);
        } else {
            assert(s.live.contains_key(k));
            assert(s.order.contains(k));
            let i = s.order.index_of(k);
            assert(order[i] == k);
        }
    }
    if order.len() > MAX_ENTRIES {
        let t = s.insert(key, entry, now);
        assert forall|k: Seq<u8>| t.live.contains_key(k) implies t.order.contains(k) by {
            assert(live.contains_key(k));
            assert(order.contains(k));
            let i = order.index_of(k);
            assert(i != 0);
            assert(t.order[i - 1] == k);
        }
    }
}

/// An invalidation keeps the state well-formed.
pub proof fn lemma_l1_invalidate_wf(s: L1View, key: Seq<u8>)
    requires
        s.wf(),
    ensures
        s.invalidate(key).0.wf(),
{
    lemma_without(s.order, key);
}

/// Every series of calls keeps the state well-formed, so the tier never
/// holds more than `MAX_ENTRIES` live entries.
pub proof fn lemma_l1_run_wf(s: L1View, ops: Seq<Op>)
    requires
        s.wf(),
    ensures
        s.run(ops).wf(),
        s.run(ops).live.dom().len() <= MAX_ENTRIES,
    decreases ops.len(),
{
    if ops.len() > 0 {
        let before = s.run(ops.drop_last());
        lemma_l1_run_wf(s, ops.drop_last());
        match ops.last() {
            Op::Lookup { key, now } => lemma_l1_lookup_wf(before, key, now),
            Op::Insert { key, entry, now } => lemma_l1_insert_wf(before, key, entry, now),
            Op::Invalidate { key } => lemma_l1_invalidate_wf(before, key),
        }
    }
    lemma_l1_size(s.run(ops));
}

/// An insertion leaves its key live unless the history was full with that
/// very key, not live, at its front.
pub proof fn lemma_l1_insert_keeps_key(s: L1View, key: Seq<u8>, entry: EntryView, now: u128)
    requires
        s.wf(),
    ensures
        s.insert(key, entry, now).live.contains_key(key) <==> (s.live.contains_key(key)
            || s.order.len() < MAX_ENTRIES || s.order[0] != key),
{
}

/// A lookup right after an insertion, before the entry's time to live has
/// passed and if the insertion did not evict its own key, returns the value
/// and flags that were inserted.
pub proof fn lemma_l1_insert_then_lookup(
    s: L1View,
    key: Seq<u8>,
    entry: EntryView,
    now: u128,
    later: u128,
)
    requires
        s.wf(),
        s.insert(key, entry, now).live.contains_key(key),
        !entry.stamped(now).expired_at(later),
    ensures
        s.insert(key, entry, now).lookup(key, later) == (
            s.insert(key, entry, now),
            Ok::<EntryView, CacheError>(entry.stamped(now)),
        ),
        entry.stamped(now).value == entry.value,
        entry.stamped(now).flags == entry.flags,
{
}

/// A key that no call inserted is not found, whatever else was called.
pub proof fn lemma_l1_never_inserted(s: L1View, ops: Seq<Op>, key: Seq<u8>, now: u128)
    requires
        !s.live.contains_key(key),
        forall|i: int| 0 <= i < ops.len() ==> !(#[trigger] ops[i]).inserts(key),
    ensures
        !s.run(ops).live.contains_key(key),
        s.run(ops).lookup(key, now) == (
            s.run(ops),
            Err::<EntryView, CacheError>(CacheError::NotFound),
        ),
    decreases ops.len(),
{
    if ops.len() > 0 {
        lemma_l1_never_inserted(s, ops.drop_last(), key, now);
        assert(!ops[ops.len() - 1].inserts(key));
    }
}

/// A lookup of a live key past its time to live reports `Expired` and
/// removes it: the next lookup of that key reports `NotFound`.
pub proof fn lemma_l1_expired_then_not_found(s: L1View, key: Seq<u8>, now: u128, later: u128)
    requires
        s.live.contains_key(key),
        s.live[key].expired_at(now),
    ensures
        s.lookup(key, now).1 == Err::<EntryView, CacheError>(CacheError::Expired),
        s.lookup(key, now).0.lookup(key, later).1 == Err::<EntryView, CacheError>(
            CacheError::NotFound,
        ),
{
}

/// Invalidating a live key removes it, so that a lookup no longer finds it.
/// Invalidating any other key reports `NotFound` and changes nothing.
pub proof fn lemma_l1_invalidate(s: L1View, key: Seq<u8>, now: u128)
    ensures
        s.live.contains_key(key) ==> s.invalidate(key).1 == Ok::<(), CacheError>(())
            && s.invalidate(key).0.lookup(key, now).1 == Err::<EntryView, CacheError>(
            CacheError::NotFound,
        ),
        !s.live.contains_key(key) ==> s.invalidate(key) == (
            s,
            Err::<(), CacheError>(CacheError::NotFound),
        ),
{
}

/// Insertions under distinct keys, in whatever order they run, all stay
/// live with what was inserted, as long as the history has room for them.
pub proof fn lemma_l1_distinct_inserts(s: L1View, ops: Seq<Op>)
    requires
        s.wf(),
        distinct_inserts(ops),
        s.order.len() + ops.len() <= MAX_ENTRIES,
    ensures
        s.run(ops).order.len() <= s.order.len() + ops.len(),
        forall|k: Seq<u8>| s.live.contains_key(k) ==> #[trigger] s.run(ops).live.contains_key(k),
        forall|i: int|
            0 <= i < ops.len() ==> s.run(ops).live.contains_key((#[trigger] ops[i])->Insert_key)
                && s.run(ops).live[ops[i]->Insert_key] == ops[i]->Insert_entry.stamped(
                ops[i]->Insert_now,
            ),
    decreases ops.len(),
{
    if ops.len() > 0 {
        let init = ops.drop_last();
        let before = s.run(init);
        assert(distinct_inserts(init)) by {
            assert forall|i: int| 0 <= i < init.len() implies #[trigger] init[i] is Insert by {
                assert(ops[i] is Insert);
            }
        }
        lemma_l1_distinct_inserts(s, init);
        let last = ops.last();
        assert(ops[ops.len() - 1] is Insert);
        let after = s.run(ops);
        assert(after == before.insert(last->Insert_key, last->Insert_entry, last->Insert_now));
        assert forall|i: int| 0 <= i < ops.len() implies after.live.contains_key(
            (#[trigger] ops[i])->Insert_key,
        ) && after.live[ops[i]->Insert_key] == ops[i]->Insert_entry.stamped(
            ops[i]->Insert_now,
        ) by {
            if i < ops.len() - 1 {
                assert(init[i] == ops[i]);
                assert(ops[i]->Insert_key != ops[ops.len() - 1]->Insert_key);
            }
        }
    }
}

} // verus!
