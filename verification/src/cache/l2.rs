//! The adaptive second tier: a recency list and a frequency list of live
//! keys, two lists that remember evicted keys, and a target size for the
//! recency list that hits on the remembered keys move up and down.

use vstd::prelude::*;
use crate::cache::{Cache, CacheError, Entry, EntryView, Op, distinct_inserts, lookup_result};
use crate::bytes::to_owned_bytes;
use crate::time::Clock;
use crate::cache::queue::{
    KeyQueue, lemma_remove_is_without, lemma_without, lemma_without_member, without,
};
use crate::cache::store::Store;

verus! {

/// The most live keys the tier holds, and the most keys each ghost list
/// remembers.
pub const MAX_ITEMS: usize = 65_536;

/// The largest value the tier accepts, in bytes.
pub const MAX_VALUE_BYTES: usize = 64 * 1024 * 1024;

/// The time to live, in nanoseconds, of an entry inserted with none.
pub const DEFAULT_TTL: u128 = 300_000_000_000;

/// The second tier.
pub struct L2 {
    map: Store,
    t1: KeyQueue,
    t2: KeyQueue,
    b1: KeyQueue,
    b2: KeyQueue,
    p_target: usize,
    capacity: usize,
    clock: Clock,
}

/// The state of the second tier. `t1` lists the keys touched once since they
/// entered, `t2` those touched again, both oldest first. `b1` and `b2`
/// remember the keys evicted from `t1` and from `t2`. `p_target` is the size
/// that `t1` is steered towards. A key that a lookup found expired leaves
/// `live` but keeps its place in its list.
pub struct L2View {
    pub live: Map<Seq<u8>, EntryView>,
    pub t1: Seq<Seq<u8>>,
    pub t2: Seq<Seq<u8>>,
    pub b1: Seq<Seq<u8>>,
    pub b2: Seq<Seq<u8>>,
    pub p_target: nat,
    pub capacity: nat,
}

/// A ghost list after it takes in `key`: the key joins the back, and the
/// front leaves if the list is then over `capacity`.
pub open spec fn remember(ghosts: Seq<Seq<u8>>, key: Seq<u8>, capacity: nat) -> Seq<Seq<u8>> {
    let grown = ghosts.push(key);
    if grown.len() > capacity {
        grown.drop_first()
    } else {
        grown
    }
}

/// The entry as the second tier stores it at time `now`: stamped, and with
/// the default time to live where the caller gave none.
pub open spec fn stored(entry: EntryView, now: u128) -> EntryView {
    EntryView {
        created_at: now,
        ttl: if entry.ttl == 0 {
            DEFAULT_TTL
        } else {
            entry.ttl
        },
        ..entry
    }
}

impl L2View {
    /// The capacity is in range, and the target and the ghost lists are
    /// within it.
    pub open spec fn bounded(self) -> bool {
        &&& self.live.dom().finite()
        &&& 1 <= self.capacity <= MAX_ITEMS
        &&& self.p_target <= self.capacity
        &&& self.b1.len() <= self.capacity
        &&& self.b2.len() <= self.capacity
    }

    /// No key is listed twice in `t1` and `t2` together, and every live key
    /// other than `pending` is listed.
    pub open spec fn listed(self, pending: Option<Seq<u8>>) -> bool {
        &&& self.t1.no_duplicates()
        &&& self.t2.no_duplicates()
        &&& forall|k: Seq<u8>| !(#[trigger] self.t1.contains(k) && #[trigger] self.t2.contains(k))
        &&& forall|k: Seq<u8>| #[trigger]
            self.live.contains_key(k) ==> self.t1.contains(k) || self.t2.contains(k) || pending
                == Some(k)
    }

    /// Well-formed but for a live key that is not listed yet.
    pub open spec fn wf_but(self, pending: Option<Seq<u8>>) -> bool {
        &&& self.bounded()
        &&& self.listed(pending)
        &&& self.t1.len() + self.t2.len() <= self.capacity
    }

    /// The lists are within the capacity, no key is listed twice in `t1` and
    /// `t2` together, and every live key is listed.
    pub open spec fn wf(self) -> bool {
        self.wf_but(None)
    }

    /// The tier before anything was inserted.
    pub open spec fn empty(capacity: nat) -> L2View {
        L2View {
            live: Map::empty(),
            t1: Seq::empty(),
            t2: Seq::empty(),
            b1: Seq::empty(),
            b2: Seq::empty(),
            p_target: capacity / 2,
            capacity,
        }
    }

    /// Whether the next eviction takes the front of `t1` rather than that of
    /// `t2`: `t1` is over its target, or at its target while the key that
    /// was missed is remembered in `b2`.
    pub open spec fn evicts_recent(self, missed: Seq<u8>) -> bool {
        self.t1.len() > 0 && (self.t1.len() > self.p_target || (self.b2.contains(missed)
            && self.t1.len() == self.p_target))
    }

    /// One eviction: the front of the chosen list leaves the list and the
    /// live map and is remembered in that list's ghost list.
    pub open spec fn replace(self, missed: Seq<u8>) -> L2View {
        if self.evicts_recent(missed) {
            L2View {
                live: self.live.remove(self.t1[0]),
                t1: self.t1.drop_first(),
                b1: remember(self.b1, self.t1[0], self.capacity),
                ..self
            }
        } else if self.t2.len() > 0 {
            L2View {
                live: self.live.remove(self.t2[0]),
                t2: self.t2.drop_first(),
                b2: remember(self.b2, self.t2[0], self.capacity),
                ..self
            }
        } else {
            self
        }
    }

    /// A touch of `key`: from `t1` it moves to the back of `t2`; in `t2` it
    /// moves to the back; a key in neither joins the back of `t1`, and if
    /// the two lists are then over the capacity, one eviction follows.
    pub open spec fn touch(self, key: Seq<u8>) -> L2View {
        if self.t1.contains(key) {
            L2View { t1: without(self.t1, key), t2: self.t2.push(key), ..self }
        } else if self.t2.contains(key) {
            L2View { t2: without(self.t2, key).push(key), ..self }
        } else {
            let grown = L2View { t1: self.t1.push(key), ..self };
            if grown.t1.len() + grown.t2.len() > self.capacity {
                grown.replace(key)
            } else {
                grown
            }
        }
    }

    /// The target after a miss on `key`: one more, up to the capacity, if
    /// `b1` remembers the key; else one less, down to zero, if `b2` does.
    pub open spec fn tuned(self, key: Seq<u8>) -> nat {
        if self.b1.contains(key) {
            if self.p_target + 1 <= self.capacity {
                self.p_target + 1
            } else {
                self.capacity
            }
        } else if self.b2.contains(key) {
            if self.p_target >= 1 {
                (self.p_target - 1) as nat
            } else {
                0
            }
        } else {
            self.p_target
        }
    }

    /// A lookup of `key` when the clock reads `now`: the state it leaves and
    /// what it returns.
    pub open spec fn lookup(self, key: Seq<u8>, now: u128) -> (L2View, Result<
        EntryView,
        CacheError,
    >) {
        if !self.live.contains_key(key) {
            (L2View { p_target: self.tuned(key), ..self }, Err(CacheError::NotFound))
        } else if self.live[key].expired_at(now) {
            (L2View { live: self.live.remove(key), ..self }, Err(CacheError::Expired))
        } else {
            (self.touch(key), Ok(self.live[key]))
        }
    }

    /// An insertion of `entry` under `key` when the clock reads `now`: the
    /// state it leaves and what it returns.
    pub open spec fn insert(self, key: Seq<u8>, entry: EntryView, now: u128) -> (L2View, Result<
        (),
        CacheError,
    >) {
        if entry.value.len() > MAX_VALUE_BYTES {
            (self, Err(CacheError::TooLarge))
        } else {
            (L2View { live: self.live.insert(key, stored(entry, now)), ..self }.touch(key), Ok(()))
        }
    }

    /// An invalidation of `key`: the state it leaves and what it returns.
    /// The key leaves the live map, `t1` and `t2`; the ghost lists keep it.
    pub open spec fn invalidate(self, key: Seq<u8>) -> (L2View, Result<(), CacheError>) {
        (
            L2View {
                live: self.live.remove(key),
                t1: without(self.t1, key),
                t2: without(self.t2, key),
                ..self
            },
            if self.live.contains_key(key) {
                Ok(())
            } else {
                Err(CacheError::NotFound)
            },
        )
    }

    /// The state after one call.
    pub open spec fn apply(self, op: Op) -> L2View {
        match op {
            Op::Lookup { key, now } => self.lookup(key, now).0,
            Op::Insert { key, entry, now } => self.insert(key, entry, now).0,
            Op::Invalidate { key } => self.invalidate(key).0,
        }
    }

    /// The state after a series of calls, first to last.
    pub open spec fn run(self, ops: Seq<Op>) -> L2View
        decreases ops.len(),
    {
        if ops.len() == 0 {
            self
        } else {
            self.run(ops.drop_last()).apply(ops.last())
        }
    }
}

/// An eviction keeps the lists consistent, and takes one key out when the
/// lists are over the capacity.
pub proof fn lemma_l2_replace_wf(s: L2View, missed: Seq<u8>, pending: Option<Seq<u8>>)
    requires
        s.bounded(),
        s.listed(pending),
    ensures
        s.replace(missed).bounded(),
        s.replace(missed).listed(pending),
        s.replace(missed).t1.len() + s.replace(missed).t2.len() <= s.t1.len() + s.t2.len(),
        s.t1.len() + s.t2.len() > s.capacity ==> s.replace(missed).t1.len() + s.replace(
            missed,
        ).t2.len() + 1 == s.t1.len() + s.t2.len(),
{
    let r = s.replace(missed);
    if s.evicts_recent(missed) {
        assert forall|k: Seq<u8>| #[trigger] r.t1.contains(k) implies s.t1.contains(k) by {
            let i = r.t1.index_of(k);
            assert(s.t1[i + 1] == k);
        }
        assert forall|k: Seq<u8>| #[trigger]
            r.live.contains_key(k) implies r.t1.contains(k) || r.t2.contains(k) || pending
            == Some(k) by {
            assert(s.live.contains_key(k));
            if s.t1.contains(k) {
                let i = s.t1.index_of(k);
                assert(i != 0);
                assert(r.t1[i - 1] == k);
            }
        }
    } else if s.t2.len() > 0 {
        assert forall|k: Seq<u8>| #[trigger] r.t2.contains(k) implies s.t2.contains(k) by {
            let i = r.t2.index_of(k);
            assert(s.t2[i + 1] == k);
        }
        assert forall|k: Seq<u8>| #[trigger]
            r.live.contains_key(k) implies r.t1.contains(k) || r.t2.contains(k) || pending
            == Some(k) by {
            assert(s.live.contains_key(k));
            if s.t2.contains(k) {
                let i = s.t2.index_of(k);
                assert(i != 0);
                assert(r.t2[i - 1] == k);
            }
        }
    }
}

/// A touch of the pending key, or of any key in a well-formed state, leaves
/// a well-formed state.
pub proof fn lemma_l2_touch_wf(s: L2View, key: Seq<u8>)
    requires
        s.wf_but(Some(key)),
    ensures
        s.touch(key).wf(),
        s.touch(key).t1.len() + s.touch(key).t2.len() <= s.t1.len() + s.t2.len() + 1,
        s.t1.contains(key) || s.t2.contains(key) ==> s.touch(key).live == s.live && s.touch(
            key,
        ).t1.len() + s.touch(key).t2.len() == s.t1.len() + s.t2.len(),
{
    let r = s.touch(key);
    if s.t1.contains(key) {
        lemma_without(s.t1, key);
        lemma_without_member(s.t1, key);
        assert forall|k: Seq<u8>| #[trigger] r.t2.contains(k) implies s.t2.contains(k) || k
            == key by {
            let i = r.t2.index_of(k);
            if i < s.t2.len() {
                assert(s.t2[i] == k);
            }
        }
        assert forall|k: Seq<u8>| #[trigger]
            r.live.contains_key(k) implies r.t1.contains(k) || r.t2.contains(k) by {
            if k == key {
                assert(r.t2[r.t2.len() - 1] == k);
            } else if s.t2.contains(k) {
                let i = s.t2.index_of(k);
                assert(r.t2[i] == k);
            }
        }
        assert(r.t2.no_duplicates()) by {
            assert(!s.t2.contains(key));
        }
    } else if s.t2.contains(key) {
        lemma_without(s.t2, key);
        lemma_without_member(s.t2, key);
        let rest = without(s.t2, key);
        assert forall|k: Seq<u8>| #[trigger] r.t2.contains(k) implies s.t2.contains(k) by {
            let i = r.t2.index_of(k);
            if i < rest.len() {
                assert(rest[i] == k);
                assert(rest.contains(k));
            }
        }
        assert forall|k: Seq<u8>| #[trigger]
            r.live.contains_key(k) implies r.t1.contains(k) || r.t2.contains(k) by {
            if k == key {
                assert(r.t2[r.t2.len() - 1] == k);
            } else if s.t2.contains(k) {
                assert(rest.contains(k));
                let i = rest.index_of(k);
                assert(r.t2[i] == k);
            }
        }
        assert(r.t2.no_duplicates());
    } else {
        let grown = L2View { t1: s.t1.push(key), ..s };
        assert forall|k: Seq<u8>| #[trigger] grown.t1.contains(k) implies s.t1.contains(k) || k
            == key by {
            let i = grown.t1.index_of(k);
            if i < s.t1.len() {
                assert(s.t1[i] == k);
            }
        }
        assert forall|k: Seq<u8>| #[trigger]
            grown.live.contains_key(k) implies grown.t1.contains(k) || grown.t2.contains(k) by {
            if k == key {
                assert(grown.t1[grown.t1.len() - 1] == k);
            } else if s.t1.contains(k) {
                let i = s.t1.index_of(k);
                assert(grown.t1[i] == k);
            }
        }
        assert(grown.t1.no_duplicates());
        lemma_l2_replace_wf(grown, key, None);
    }
}

impl View for L2 {
    type V = L2View;

    closed spec fn view(&self) -> L2View {
        L2View {
            live: self.map@,
            t1: self.t1@,
            t2: self.t2@,
            b1: self.b1@,
            b2: self.b2@,
            p_target: self.p_target as nat,
            capacity: self.capacity as nat,
        }
    }
}

impl L2 {
    /// The representation is consistent, and the state is well-formed but
    /// for a pending key.
    spec fn inv_but(&self, pending: Option<Seq<u8>>) -> bool {
        &&& self.map.wf()
        &&& self@.wf_but(pending)
    }

    /// The representation is consistent and the state is well-formed.
    pub closed spec fn inv(&self) -> bool {
        self.inv_but(None)
    }

    /// A tier whose representation is consistent is in a well-formed state.
    pub proof fn lemma_inv(&self)
        requires
            self.inv(),
        ensures
            self@.wf(),
    {
    }

    /// An empty tier of the full capacity, with its own clock.
    pub fn new() -> (t: L2)
        ensures
            t.inv(),
            t@ == L2View::empty(MAX_ITEMS as nat),
    {
        L2::with_capacity(MAX_ITEMS)
    }

    /// An empty tier that holds at most `capacity` live keys, with its own
    /// clock. The capacity is at least one and at most `MAX_ITEMS`: a
    /// request outside that range gets the nearest end.
    pub fn with_capacity(capacity: usize) -> (t: L2)
        ensures
            t.inv(),
            t@ == L2View::empty(
                if capacity < 1 {
                    1nat
                } else if capacity > MAX_ITEMS {
                    MAX_ITEMS as nat
                } else {
                    capacity as nat
                },
            ),
    {
        let capacity: usize = if capacity < 1 {
            1
        } else if capacity > MAX_ITEMS {
            MAX_ITEMS
        } else {
            capacity
        };
        let t = L2 {
            map: Store::new(),
            t1: KeyQueue::new(),
            t2: KeyQueue::new(),
            b1: KeyQueue::new(),
            b2: KeyQueue::new(),
            p_target: capacity / 2,
            capacity,
            clock: Clock::new(),
        };
        assert(t@.live.dom() =~= Set::<Seq<u8>>::empty());
        t
    }

    /// The number of live entries, which is never over the capacity.
    pub fn len(&self) -> (n: usize)
        requires
            self.inv(),
        ensures
            n == self@.live.dom().len(),
            n <= self@.capacity,
    {
        proof {
            lemma_l2_size(self@);
        }
        self.map.len()
    }

    /// The most live keys the tier holds.
    pub fn capacity(&self) -> (c: usize)
        ensures
            c == self@.capacity,
    {
        self.capacity
    }

    /// The size that the recency list is steered towards.
    pub fn p_target(&self) -> (p: usize)
        ensures
            p == self@.p_target,
    {
        self.p_target
    }

    /// The reading of the tier's clock.
    pub fn now(&self) -> u128 {
        self.clock.now()
    }

    /// One eviction, after a miss on `missed`.
    fn replace(&mut self, missed: &[u8])
        requires
            old(self).map.wf(),
            old(self)@.p_target <= old(self)@.capacity <= MAX_ITEMS,
            old(self)@.b1.len() <= old(self)@.capacity,
            old(self)@.b2.len() <= old(self)@.capacity,
        ensures
            final(self).map.wf(),
            final(self)@ == old(self)@.replace(missed@),
    {
        let n1 = self.t1.len();
        if n1 > 0 && (n1 > self.p_target || (self.b2.contains(missed) && n1 == self.p_target)) {
            match self.t1.pop_front() {
                Some(victim) => {
                    self.map.remove(victim.as_slice());
                    assert(self.map@ =~= old(self)@.live.remove(victim@));
                    self.b1.push_back(victim);
                    if self.b1.len() > self.capacity {
                        self.b1.pop_front();
                    }
                },
                None => {},
            }
        } else {
            match self.t2.pop_front() {
                Some(victim) => {
                    self.map.remove(victim.as_slice());
                    assert(self.map@ =~= old(self)@.live.remove(victim@));
                    self.b2.push_back(victim);
                    if self.b2.len() > self.capacity {
                        self.b2.pop_front();
                    }
                },
                None => {},
            }
        }
    }

    /// A touch of `key`, on a hit or after its insertion.
    fn touch(&mut self, key: &[u8])
        requires
            old(self).inv_but(Some(key@)),
        ensures
            final(self).inv(),
            final(self)@ == old(self)@.touch(key@),
    {
        proof {
            lemma_l2_touch_wf(self@, key@);
        }
        match self.t1.position(key) {
            Some(at) => {
                proof {
                    lemma_remove_is_without(self.t1@, at as int);
                }
                let k = self.t1.remove_at(at);
                self.t2.push_back(k);
            },
            None => {
                match self.t2.position(key) {
                    Some(at) => {
                        proof {
                            lemma_remove_is_without(self.t2@, at as int);
                        }
                        let k = self.t2.remove_at(at);
                        self.t2.push_back(k);
                    },
                    None => {
                        self.t1.push_back(to_owned_bytes(key));
                        let ghost grown = self@;
                        let ghost target = old(self)@.touch(key@);
                        while self.t1.len() + self.t2.len() > self.capacity
                            invariant
                                self.map.wf(),
                                self@.p_target <= self@.capacity <= MAX_ITEMS,
                                self@.b1.len() <= self@.capacity,
                                self@.b2.len() <= self@.capacity,
                                self@.t1.len() + self@.t2.len() <= self@.capacity + 1,
                                grown.capacity == self@.capacity,
                                self@.t1.len() + self@.t2.len() > self@.capacity ==> self@
                                    == grown,
                                self@.t1.len() + self@.t2.len() <= self@.capacity ==> self@
                                    == target,
                                target == (if grown.t1.len() + grown.t2.len() > grown.capacity {
                                    grown.replace(key@)
                                } else {
                                    grown
                                }),
                                target.wf(),
                            decreases self@.t1.len() + self@.t2.len(),
                        {
                            self.replace(key);
                        }
                    },
                }
            },
        }
    }

    /// [`Cache::lookup`] with the clock reading given.
    pub fn lookup_at(&mut self, key: &[u8], now: u128) -> (r: Result<Entry, CacheError>)
        requires
            old(self).inv(),
        ensures
            final(self).inv(),
            final(self)@ == old(self)@.lookup(key@, now).0,
            lookup_result(r) == old(self)@.lookup(key@, now).1,
    {
        let found: Option<Entry> = match self.map.get(key) {
            Some(e) => if e.is_expired(now) {
                None
            } else {
                Some(e.clone())
            },
            None => {
                if self.b1.contains(key) {
                    if self.p_target < self.capacity {
                        self.p_target = self.p_target + 1;
                    }
                } else if self.b2.contains(key) {
                    if self.p_target > 0 {
                        self.p_target = self.p_target - 1;
                    }
                }
                return Err(CacheError::NotFound);
            },
        };
        match found {
            Some(e) => {
                self.touch(key);
                Ok(e)
            },
            None => {
                self.map.remove(key);
                Err(CacheError::Expired)
            },
        }
    }

    /// [`Cache::insert`] with the clock reading given.
    pub fn insert_at(&mut self, key: &[u8], entry: Entry, now: u128) -> (r: Result<
        (),
        CacheError,
    >)
        requires
            old(self).inv(),
        ensures
            final(self).inv(),
            final(self)@ == old(self)@.insert(key@, entry@, now).0,
            r == old(self)@.insert(key@, entry@, now).1,
    {
        if entry.value.len() > MAX_VALUE_BYTES {
            return Err(CacheError::TooLarge);
        }
        let ttl = if entry.ttl == 0 {
            DEFAULT_TTL
        } else {
            entry.ttl
        };
        let kept = Entry { value: entry.value, flags: entry.flags, created_at: now, ttl };
        self.map.insert(to_owned_bytes(key), kept);
        self.touch(key);
        Ok(())
    }
}

impl Cache for L2 {
    open spec fn wf(&self) -> bool {
        self.inv()
    }

    open spec fn live(&self) -> Map<Seq<u8>, EntryView> {
        self@.live
    }

    open spec fn value_cap(&self) -> Option<nat> {
        Some(MAX_VALUE_BYTES as nat)
    }

    /// The lookup is [`L2View::lookup`] at some reading of the clock.
    fn lookup(&mut self, key: &[u8]) -> (r: Result<Entry, CacheError>)
        ensures
            exists|now: u128|
                final(self)@ == (#[trigger] old(self)@.lookup(key@, now)).0 && lookup_result(r)
                    == old(self)@.lookup(key@, now).1,
    {
        proof {
            lemma_l2_touch_wf(self@, key@);
        }
        let now = self.clock.now();
        self.lookup_at(key, now)
    }

    /// The insertion is [`L2View::insert`] at some reading of the clock.
    fn insert(&mut self, key: &[u8], entry: Entry) -> (r: Result<(), CacheError>)
        ensures
            exists|now: u128|
                final(self)@ == (#[trigger] old(self)@.insert(key@, entry@, now)).0 && r == old(
                    self,
                )@.insert(key@, entry@, now).1,
    {
        let now = self.clock.now();
        proof {
            lemma_l2_insert_wf(self@, key@, entry@, now);
        }
        self.insert_at(key, entry, now)
    }

    /// The invalidation is [`L2View::invalidate`].
    fn invalidate(&mut self, key: &[u8]) -> (r: Result<(), CacheError>)
        ensures
            final(self)@ == old(self)@.invalidate(key@).0,
            r == old(self)@.invalidate(key@).1,
    {
        proof {
            lemma_l2_invalidate_wf(self@, key@);
        }
        let existed = self.map.remove(key).is_some();
        assert(self.map@ =~= old(self)@.live.remove(key@));
        self.t1.remove_all(key);
        self.t2.remove_all(key);
        if existed {
            Ok(())
        } else {
            Err(CacheError::NotFound)
        }
    }
}

/// A well-formed second tier holds at most `capacity` live entries.
pub proof fn lemma_l2_size(s: L2View)
    requires
        s.wf(),
    ensures
        s.live.dom().len() <= s.capacity,
{
    let listed = s.t1 + s.t2;
    let keys = listed.to_set();
    vstd::seq_lib::seq_to_set_is_finite(listed);
    listed.lemma_cardinality_of_set();
    assert forall|k: Seq<u8>| s.live.dom().contains(k) implies keys.contains(k) by {
        assert(s.live.contains_key(k));
        if s.t1.contains(k) {
            let i = s.t1.index_of(k);
            assert(listed[i] == k);
        } else {
            let i = s.t2.index_of(k);
            assert(listed[s.t1.len() + i] == k);
        }
    }
    vstd::set_lib::lemma_len_subset(s.live.dom(), keys);
}

/// A lookup keeps the state well-formed and the capacity as it was.
pub proof fn lemma_l2_lookup_wf(s: L2View, key: Seq<u8>, now: u128)
    requires
        s.wf(),
    ensures
        s.lookup(key, now).0.wf(),
        s.lookup(key, now).0.capacity == s.capacity,
{
    lemma_l2_touch_wf(s, key);
}

/// An insertion keeps the state well-formed and the capacity as it was.
pub proof fn lemma_l2_insert_wf(s: L2View, key: Seq<u8>, entry: EntryView, now: u128)
    requires
        s.wf(),
    ensures
        s.insert(key, entry, now).0.wf(),
        s.insert(key, entry, now).0.capacity == s.capacity,
{
    if entry.value.len() <= MAX_VALUE_BYTES {
        let held = L2View { live: s.live.insert(key, stored(entry, now)), ..s };
        lemma_l2_touch_wf(held, key);
    }
}

/// An invalidation keeps the state well-formed and the capacity as it was.
pub proof fn lemma_l2_invalidate_wf(s: L2View, key: Seq<u8>)
    requires
        s.wf(),
    ensures
        s.invalidate(key).0.wf(),
        s.invalidate(key).0.capacity == s.capacity,
{
    lemma_without(s.t1, key);
    lemma_without(s.t2, key);
    let r = s.invalidate(key).0;
    assert forall|k: Seq<u8>| !(#[trigger] r.t1.contains(k) && #[trigger] r.t2.contains(k)) by {
        if k != key {
            assert(!(s.t1.contains(k) && s.t2.contains(k)));
        }
    }
    assert forall|k: Seq<u8>| #[trigger]
        r.live.contains_key(k) implies r.t1.contains(k) || r.t2.contains(k) by {
        assert(s.live.contains_key(k));
    }
}

/// Every series of calls keeps the state well-formed and the capacity as it
/// was, so the tier never holds more live entries than its capacity.
pub proof fn lemma_l2_run_wf(s: L2View, ops: Seq<Op>)
    requires
        s.wf(),
    ensures
        s.run(ops).wf(),
        s.run(ops).capacity == s.capacity,
        s.run(ops).live.dom().len() <= s.capacity,
    decreases ops.len(),
{
    if ops.len() > 0 {
        let before = s.run(ops.drop_last());
        lemma_l2_run_wf(s, ops.drop_last());
        match ops.last() {
            Op::Lookup { key, now } => lemma_l2_lookup_wf(before, key, now),
            Op::Insert { key, entry, now } => lemma_l2_insert_wf(before, key, entry, now),
            Op::Invalidate { key } => lemma_l2_invalidate_wf(before, key),
        }
    }
    lemma_l2_size(s.run(ops));
}

/// A lookup right after an insertion, before the entry's time to live has
/// passed and if the insertion did not evict its own key, returns the value
/// and flags that were inserted.
pub proof fn lemma_l2_insert_then_lookup(
    s: L2View,
    key: Seq<u8>,
    entry: EntryView,
    now: u128,
    later: u128,
)
    requires
        s.wf(),
        entry.value.len() <= MAX_VALUE_BYTES,
        s.insert(key, entry, now).0.live.contains_key(key),
        !stored(entry, now).expired_at(later),
    ensures
        s.insert(key, entry, now).1 == Ok::<(), CacheError>(()),
        s.insert(key, entry, now).0.lookup(key, later).1 == Ok::<EntryView, CacheError>(
            stored(entry, now),
        ),
        stored(entry, now).value == entry.value,
        stored(entry, now).flags == entry.flags,
{
}

/// An insertion into a tier with room for one more key evicts nothing.
pub proof fn lemma_l2_insert_with_room(s: L2View, key: Seq<u8>, entry: EntryView, now: u128)
    requires
        s.wf(),
        entry.value.len() <= MAX_VALUE_BYTES,
        s.t1.len() + s.t2.len() < s.capacity,
    ensures
        s.insert(key, entry, now).0.live == s.live.insert(key, stored(entry, now)),
        s.insert(key, entry, now).0.t1.len() + s.insert(key, entry, now).0.t2.len() <= s.t1.len()
            + s.t2.len() + 1,
{
    let held = L2View { live: s.live.insert(key, stored(entry, now)), ..s };
    lemma_l2_touch_wf(held, key);
}

/// A key that no call inserted is not found, whatever else was called.
pub proof fn lemma_l2_never_inserted(s: L2View, ops: Seq<Op>, key: Seq<u8>, now: u128)
    requires
        !s.live.contains_key(key),
        forall|i: int| 0 <= i < ops.len() ==> !(#[trigger] ops[i]).inserts(key),
    ensures
        !s.run(ops).live.contains_key(key),
        s.run(ops).lookup(key, now).1 == Err::<EntryView, CacheError>(CacheError::NotFound),
    decreases ops.len(),
{
    if ops.len() > 0 {
        lemma_l2_never_inserted(s, ops.drop_last(), key, now);
        assert(!ops[ops.len() - 1].inserts(key));
    }
}

/// A lookup of a live key past its time to live reports `Expired` and
/// removes it: the next lookup of that key reports `NotFound`.
pub proof fn lemma_l2_expired_then_not_found(s: L2View, key: Seq<u8>, now: u128, later: u128)
    requires
        s.live.contains_key(key),
        s.live[key].expired_at(now),
    ensures
        s.lookup(key, now).1 == Err::<EntryView, CacheError>(CacheError::Expired),
        s.lookup(key, now).0.lookup(key, later).1 == Err::<EntryView, CacheError>(
            CacheError::NotFound,
        ),
{
}

/// A value over the cap is refused and nothing changes: a key that was not
/// live before is still not found.
pub proof fn lemma_l2_too_large(s: L2View, key: Seq<u8>, entry: EntryView, now: u128, later: u128)
    requires
        entry.value.len() > MAX_VALUE_BYTES,
    ensures
        s.insert(key, entry, now) == (s, Err::<(), CacheError>(CacheError::TooLarge)),
        !s.live.contains_key(key) ==> s.insert(key, entry, now).0.lookup(key, later).1 == Err::<
            EntryView,
            CacheError,
        >(CacheError::NotFound),
{
}

/// A key that enters the tier is listed in `t1`. The first lookup that
/// finds it moves it to the back of `t2`, and later ones keep it there.
pub proof fn lemma_l2_promotion(
    s: L2View,
    key: Seq<u8>,
    entry: EntryView,
    now: u128,
    first: u128,
    second: u128,
)
    requires
        s.wf(),
        !s.t1.contains(key),
        !s.t2.contains(key),
        entry.value.len() <= MAX_VALUE_BYTES,
        s.insert(key, entry, now).0.live.contains_key(key),
        !stored(entry, now).expired_at(first),
        !stored(entry, now).expired_at(second),
    ensures
        ({
            let entered = s.insert(key, entry, now).0;
            let once = entered.lookup(key, first).0;
            let twice = once.lookup(key, second).0;
            &&& entered.t1.contains(key)
            &&& !entered.t2.contains(key)
            &&& !once.t1.contains(key)
            &&& once.t2.len() > 0 && once.t2.last() == key
            &&& !twice.t1.contains(key)
            &&& twice.t2.len() > 0 && twice.t2.last() == key
            &&& entered.lookup(key, first).1 == Ok::<EntryView, CacheError>(stored(entry, now))
            &&& once.lookup(key, second).1 == Ok::<EntryView, CacheError>(stored(entry, now))
        }),
{
    let held = L2View { live: s.live.insert(key, stored(entry, now)), ..s };
    let grown = L2View { t1: s.t1.push(key), ..held };
    let entered = s.insert(key, entry, now).0;
    lemma_l2_touch_wf(held, key);
    assert(grown.t1[grown.t1.len() - 1] == key);
    if grown.t1.len() + grown.t2.len() > s.capacity {
        if grown.evicts_recent(key) {
            assert(grown.t1[0] != key);
            assert(entered.t1[entered.t1.len() - 1] == key);
        } else {
            assert(grown.t2.len() > 0);
            assert forall|k: Seq<u8>| #[trigger] entered.t2.contains(k) implies s.t2.contains(
                k,
            ) by {
                let i = entered.t2.index_of(k);
                assert(s.t2[i + 1] == k);
            }
        }
    }
    assert(entered.t1.contains(key));
    assert(!entered.t2.contains(key));
    let once = entered.lookup(key, first).0;
    lemma_without(entered.t1, key);
    assert(once.t2 == entered.t2.push(key));
    assert(once.t2.last() == key);
    assert(once.t2[once.t2.len() - 1] == key);
    assert(once.t2.contains(key));
    lemma_without(once.t2, key);
}

/// While `t1` is over its target, an eviction takes the oldest key of `t1`
/// and every key of `t2` stays.
pub proof fn lemma_l2_recent_leaves_first(s: L2View, missed: Seq<u8>)
    requires
        s.t1.len() > s.p_target,
    ensures
        s.replace(missed).t1 == s.t1.drop_first(),
        s.replace(missed).t2 == s.t2,
        s.replace(missed).live == s.live.remove(s.t1[0]),
{
}

/// The key that an eviction takes is no longer live and is remembered at
/// the back of the ghost list of the list it left.
pub proof fn lemma_l2_eviction_is_remembered(s: L2View, missed: Seq<u8>)
    requires
        s.bounded(),
        s.t1.len() + s.t2.len() > 0,
    ensures
        s.evicts_recent(missed) ==> !s.replace(missed).live.contains_key(s.t1[0]) && s.replace(
            missed,
        ).b1.contains(s.t1[0]),
        !s.evicts_recent(missed) && s.t2.len() > 0 ==> !s.replace(missed).live.contains_key(
            s.t2[0],
        ) && s.replace(missed).b2.contains(s.t2[0]),
{
    let r = s.replace(missed);
    if s.evicts_recent(missed) {
        assert(r.b1[r.b1.len() - 1] == s.t1[0]);
    } else if s.t2.len() > 0 {
        assert(r.b2[r.b2.len() - 1] == s.t2[0]);
    }
}

/// A miss on a key that `b1` remembers raises the target by exactly one, up
/// to the capacity, and changes nothing else.
pub proof fn lemma_l2_recency_ghost_hit(s: L2View, key: Seq<u8>, now: u128)
    requires
        s.wf(),
        !s.live.contains_key(key),
        s.b1.contains(key),
    ensures
        s.lookup(key, now).1 == Err::<EntryView, CacheError>(CacheError::NotFound),
        s.lookup(key, now).0 == (L2View {
            p_target: if s.p_target < s.capacity {
                s.p_target + 1
            } else {
                s.capacity
            },
            ..s
        }),
{
}

/// A miss on a key that `b2` remembers and `b1` does not lowers the target
/// by exactly one, down to zero, and changes nothing else.
pub proof fn lemma_l2_frequency_ghost_hit(s: L2View, key: Seq<u8>, now: u128)
    requires
        s.wf(),
        !s.live.contains_key(key),
        !s.b1.contains(key),
        s.b2.contains(key),
    ensures
        s.lookup(key, now).1 == Err::<EntryView, CacheError>(CacheError::NotFound),
        s.lookup(key, now).0 == (L2View {
            p_target: if s.p_target > 0 {
                (s.p_target - 1) as nat
            } else {
                0
            },
            ..s
        }),
{
}

/// After an eviction, a miss on the evicted key moves the target by exactly
/// one: up, but not over the capacity, if the key left `t1`; down, but not
/// under zero, if it left `t2` and `b1` does not remember it as well.
pub proof fn lemma_l2_tuning_after_eviction(s: L2View, missed: Seq<u8>, now: u128)
    requires
        s.bounded(),
        s.t1.len() + s.t2.len() > 0,
    ensures
        s.evicts_recent(missed) ==> {
            let after = s.replace(missed).lookup(s.t1[0], now).0;
            after.p_target == if s.p_target < s.capacity {
                s.p_target + 1
            } else {
                s.capacity
            }
        },
        !s.evicts_recent(missed) && s.t2.len() > 0 && !s.b1.contains(s.t2[0]) ==> {
            let after = s.replace(missed).lookup(s.t2[0], now).0;
            after.p_target == if s.p_target > 0 {
                (s.p_target - 1) as nat
            } else {
                0
            }
        },
{
    lemma_l2_eviction_is_remembered(s, missed);
}

/// Invalidating a live key removes it, so that a lookup no longer finds it.
/// Invalidating any other key reports `NotFound` and leaves the live
/// entries, the ghost lists and the target as they were; if the key is
/// listed in neither `t1` nor `t2`, nothing changes at all.
pub proof fn lemma_l2_invalidate(s: L2View, key: Seq<u8>, now: u128)
    ensures
        s.live.contains_key(key) ==> s.invalidate(key).1 == Ok::<(), CacheError>(())
            && s.invalidate(key).0.lookup(key, now).1 == Err::<EntryView, CacheError>(
            CacheError::NotFound,
        ),
        !s.live.contains_key(key) ==> s.invalidate(key).1 == Err::<(), CacheError>(
            CacheError::NotFound,
        ) && s.invalidate(key).0 == (L2View {
            t1: without(s.t1, key),
            t2: without(s.t2, key),
            ..s
        }),
        !s.live.contains_key(key) && !s.t1.contains(key) && !s.t2.contains(key) ==> s.invalidate(
            key,
        ).0 == s,
{
    lemma_without(s.t1, key);
    lemma_without(s.t2, key);
    if !s.live.contains_key(key) {
        assert(s.live.remove(key) =~= s.live);
    }
}

/// Insertions under distinct keys, in whatever order they run, all stay
/// live with what was inserted, as long as the tier has room for them.
pub proof fn lemma_l2_distinct_inserts(s: L2View, ops: Seq<Op>)
    requires
        s.wf(),
        distinct_inserts(ops),
        forall|i: int|
            0 <= i < ops.len() ==> (#[trigger] ops[i])->Insert_entry.value.len()
                <= MAX_VALUE_BYTES,
        s.t1.len() + s.t2.len() + ops.len() <= s.capacity,
    ensures
        s.run(ops).wf(),
        s.run(ops).capacity == s.capacity,
        s.run(ops).t1.len() + s.run(ops).t2.len() <= s.t1.len() + s.t2.len() + ops.len(),
        forall|k: Seq<u8>| s.live.contains_key(k) ==> #[trigger] s.run(ops).live.contains_key(k),
        forall|i: int|
            0 <= i < ops.len() ==> s.run(ops).live.contains_key((#[trigger] ops[i])->Insert_key)
                && s.run(ops).live[ops[i]->Insert_key] == stored(
                ops[i]->Insert_entry,
                ops[i]->Insert_now,
            ),
    decreases ops.len(),
{
    if ops.len() > 0 {
        let init = ops.drop_last();
        let before = s.run(init);
        assert(distinct_inserts(init)) by {
            assert forall|i: int| 0 <= i < init.len() implies #[trigger] init[i] is Insert by {
                assert(ops[i] is Insert);
            }
        }
        assert forall|i: int| 0 <= i < init.len() implies (#[trigger] init[i])->Insert_entry.value.len(
        ) <= MAX_VALUE_BYTES by {
            assert(ops[i]->Insert_entry.value.len() <= MAX_VALUE_BYTES);
        }
        lemma_l2_distinct_inserts(s, init);
        let last = ops.last();
        assert(ops[ops.len() - 1] is Insert);
        assert(ops[ops.len() - 1]->Insert_entry.value.len() <= MAX_VALUE_BYTES);
        let after = s.run(ops);
        assert(after == before.insert(last->Insert_key, last->Insert_entry, last->Insert_now).0);
        lemma_l2_insert_wf(before, last->Insert_key, last->Insert_entry, last->Insert_now);
        lemma_l2_insert_with_room(before, last->Insert_key, last->Insert_entry, last->Insert_now);
        assert forall|i: int| 0 <= i < ops.len() implies after.live.contains_key(
            (#[trigger] ops[i])->Insert_key,
        ) && after.live[ops[i]->Insert_key] == stored(
            ops[i]->Insert_entry,
            ops[i]->Insert_now,
        ) by {
            if i < ops.len() - 1 {
                assert(init[i] == ops[i]);
                assert(ops[i]->Insert_key != ops[ops.len() - 1]->Insert_key);
            }
        }
    }
}

} // verus!
