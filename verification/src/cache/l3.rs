//! The third tier: an unbounded exact-match map with no eviction, the place
//! where a shared or remote store can later stand behind the same contract.

use vstd::prelude::*;
use crate::cache::{Cache, CacheError, Entry, EntryView, Op, distinct_inserts, lookup_result};
use crate::bytes::to_owned_bytes;
use crate::time::Clock;
use crate::cache::store::Store;

verus! {

/// The third tier.
pub struct L3 {
    map: Store,
    clock: Clock,
}

/// The state of the third tier: the live entries and nothing else.
pub struct L3View {
    pub live: Map<Seq<u8>, EntryView>,
}

impl L3View {
    /// The tier before anything was inserted.
    pub open spec fn empty() -> L3View {
        L3View { live: Map::empty() }
    }

    /// A lookup of `key` when the clock reads `now`: the state it leaves and
    /// what it returns.
    pub open spec fn lookup(self, key: Seq<u8>, now: u128) -> (L3View, Result<
        EntryView,
        CacheError,
    >) {
        if !self.live.contains_key(key) {
            (self, Err(CacheError::NotFound))
        } else if self.live[key].expired_at(now) {
            (L3View { live: self.live.remove(key) }, Err(CacheError::Expired))
        } else {
            (self, Ok(self.live[key]))
        }
    }

    /// The state after `entry` is inserted under `key` when the clock reads
    /// `now`.
    pub open spec fn insert(self, key: Seq<u8>, entry: EntryView, now: u128) -> L3View {
        L3View { live: self.live.insert(key, entry.stamped(now)) }
    }

    /// An invalidation of `key`: the state it leaves and what it returns.
    pub open spec fn invalidate(self, key: Seq<u8>) -> (L3View, Result<(), CacheError>) {
        if self.live.contains_key(key) {
            (L3View { live: self.live.remove(key) }, Ok(()))
        } else {
            (self, Err(CacheError::NotFound))
        }
    }

    /// The state after one call.
    pub open spec fn apply(self, op: Op) -> L3View {
        match op {
            Op::Lookup { key, now } => self.lookup(key, now).0,
            Op::Insert { key, entry, now } => self.insert(key, entry, now),
            Op::Invalidate { key } => self.invalidate(key).0,
        }
    }

    /// The state after a series of calls, first to last.
    pub open spec fn run(self, ops: Seq<Op>) -> L3View
        decreases ops.len(),
    {
        if ops.len() == 0 {
            self
        } else {
            self.run(ops.drop_last()).apply(ops.last())
        }
    }
}

impl View for L3 {
    type V = L3View;

    closed spec fn view(&self) -> L3View {
        L3View { live: self.map@ }
    }
}

impl L3 {
    /// The representation is consistent.
    pub closed spec fn inv(&self) -> bool {
        self.map.wf()
    }

    /// An empty tier with its own clock.
    pub fn new() -> (t: L3)
        ensures
            t.inv(),
            t@ == L3View::empty(),
    {
        L3 { map: Store::new(), clock: Clock::new() }
    }

    /// The number of live entries.
    pub fn len(&self) -> (n: usize)
        requires
            self.inv(),
        ensures
            n == self@.live.dom().len(),
    {
        self.map.len()
    }

    /// The reading of the tier's clock.
    pub fn now(&self) -> u128 {
        self.clock.now()
    }

    /// [`Cache::lookup`] with the clock reading given.
    pub fn lookup_at(&mut self, key: &[u8], now: u128) -> (r: Result<Entry, CacheError>)
        requires
            old(self).inv(),
        ensures
            final(self).inv(),
            final(self)@ == old(self)@.lookup(key@, now).0,
            lookup_result(r) == old(self)@.lookup(key@, now).1,
    {
        let found: Option<Entry> = match self.map.get(key) {
            Some(e) => if e.is_expired(now) {
                None
            } else {
                Some(e.clone())
            },
            None => {
                return Err(CacheError::NotFound);
            },
        };
        match found {
            Some(e) => Ok(e),
            None => {
                self.map.remove(key);
                Err(CacheError::Expired)
            },
        }
    }

    /// [`Cache::insert`] with the clock reading given.
    pub fn insert_at(&mut self, key: &[u8], entry: Entry, now: u128) -> (r: Result<
        (),
        CacheError,
    >)
        requires
            old(self).inv(),
        ensures
            final(self).inv(),
            r is Ok,
            final(self)@ == old(self)@.insert(key@, entry@, now),
    {
        let stamped = Entry { created_at: now, ..entry };
        self.map.insert(to_owned_bytes(key), stamped);
        Ok(())
    }
}

impl Cache for L3 {
    open spec fn wf(&self) -> bool {
        self.inv()
    }

    open spec fn live(&self) -> Map<Seq<u8>, EntryView> {
        self@.live
    }

    open spec fn value_cap(&self) -> Option<nat> {
        None
    }

    /// The lookup is [`L3View::lookup`] at some reading of the clock.
    fn lookup(&mut self, key: &[u8]) -> (r: Result<Entry, CacheError>)
        ensures
            exists|now: u128|
                final(self)@ == (#[trigger] old(self)@.lookup(key@, now)).0 && lookup_result(r)
                    == old(self)@.lookup(key@, now).1,
    {
        let now = self.clock.now();
        self.lookup_at(key, now)
    }

    /// The insertion is [`L3View::insert`] at some reading of the clock.
    fn insert(&mut self, key: &[u8], entry: Entry) -> (r: Result<(), CacheError>)
        ensures
            r is Ok,
            exists|now: u128| final(self)@ == #[trigger] old(self)@.insert(key@, entry@, now),
    {
        let now = self.clock.now();
        self.insert_at(key, entry, now)
    }

    /// The invalidation is [`L3View::invalidate`].
    fn invalidate(&mut self, key: &[u8]) -> (r: Result<(), CacheError>)
        ensures
            final(self)@ == old(self)@.invalidate(key@).0,
            r == old(self)@.invalidate(key@).1,
    {
        match self.map.remove(key) {
            Some(_) => Ok(()),
            None => Err(CacheError::NotFound),
        }
    }
}

/// A lookup right after an insertion, before the entry's time to live has
/// passed, returns the value and flags that were inserted.
pub proof fn lemma_l3_insert_then_lookup(
    s: L3View,
    key: Seq<u8>,
    entry: EntryView,
    now: u128,
    later: u128,
)
    requires
        !entry.stamped(now).expired_at(later),
    ensures
        s.insert(key, entry, now).lookup(key, later) == (
            s.insert(key, entry, now),
            Ok::<EntryView, CacheError>(entry.stamped(now)),
        ),
        entry.stamped(now).value == entry.value,
        entry.stamped(now).flags == entry.flags,
{
}

/// A key that no call inserted is not found, whatever else was called.
pub proof fn lemma_l3_never_inserted(s: L3View, ops: Seq<Op>, key: Seq<u8>, now: u128)
    requires
        !s.live.contains_key(key),
        forall|i: int| 0 <= i < ops.len() ==> !(#[trigger] ops[i]).inserts(key),
    ensures
        !s.run(ops).live.contains_key(key),
        s.run(ops).lookup(key, now) == (
            s.run(ops),
            Err::<EntryView, CacheError>(CacheError::NotFound),
        ),
    decreases ops.len(),
{
    if ops.len() > 0 {
        lemma_l3_never_inserted(s, ops.drop_last(), key, now);
        assert(!ops[ops.len() - 1].inserts(key));
    }
}

/// A lookup of a live key past its time to live reports `Expired` and
/// removes it: the next lookup of that key reports `NotFound`.
pub proof fn lemma_l3_expired_then_not_found(s: L3View, key: Seq<u8>, now: u128, later: u128)
    requires
        s.live.contains_key(key),
        s.live[key].expired_at(now),
    ensures
        s.lookup(key, now).1 == Err::<EntryView, CacheError>(CacheError::Expired),
        s.lookup(key, now).0.lookup(key, later).1 == Err::<EntryView, CacheError>(
            CacheError::NotFound,
        ),
{
}

/// Invalidating a live key removes it, so that a lookup no longer finds it.
/// Invalidating any other key reports `NotFound` and changes nothing.
pub proof fn lemma_l3_invalidate(s: L3View, key: Seq<u8>, now: u128)
    ensures
        s.live.contains_key(key) ==> s.invalidate(key).1 == Ok::<(), CacheError>(())
            && s.invalidate(key).0.lookup(key, now).1 == Err::<EntryView, CacheError>(
            CacheError::NotFound,
        ),
        !s.live.contains_key(key) ==> s.invalidate(key) == (
            s,
            Err::<(), CacheError>(CacheError::NotFound),
        ),
{
}

/// Insertions under distinct keys, in whatever order they run, all stay
/// live with what was inserted.
pub proof fn lemma_l3_distinct_inserts(s: L3View, ops: Seq<Op>)
    requires
        distinct_inserts(ops),
    ensures
        forall|k: Seq<u8>| s.live.contains_key(k) ==> #[trigger] s.run(ops).live.contains_key(k),
        forall|i: int|
            0 <= i < ops.len() ==> s.run(ops).live.contains_key((#[trigger] ops[i])->Insert_key)
                && s.run(ops).live[ops[i]->Insert_key] == ops[i]->Insert_entry.stamped(
                ops[i]->Insert_now,
            ),
    decreases ops.len(),
{
    if ops.len() > 0 {
        let init = ops.drop_last();
        let before = s.run(init);
        assert(distinct_inserts(init)) by {
            assert forall|i: int| 0 <= i < init.len() implies #[trigger] init[i] is Insert by {
                assert(ops[i] is Insert);
            }
        }
        lemma_l3_distinct_inserts(s, init);
        let last = ops.last();
        assert(ops[ops.len() - 1] is Insert);
        let after = s.run(ops);
        assert(after == before.insert(last->Insert_key, last->Insert_entry, last->Insert_now));
        assert forall|i: int| 0 <= i < ops.len() implies after.live.contains_key(
            (#[trigger] ops[i])->Insert_key,
        ) && after.live[ops[i]->Insert_key] == ops[i]->Insert_entry.stamped(
            ops[i]->Insert_now,
        ) by {
            if i < ops.len() - 1 {
                assert(init[i] == ops[i]);
                assert(ops[i]->Insert_key != ops[ops.len() - 1]->Insert_key);
            }
        }
    }
}

} // verus!
