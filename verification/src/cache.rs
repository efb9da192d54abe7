//! Entries, errors and the contract shared by every cache tier.

pub mod compression;
pub mod l1;
pub mod l2;
pub mod l3;
pub mod meta;
pub mod queue;
pub mod store;

use vstd::prelude::*;
use crate::bytes::to_owned_bytes;

verus! {

/// What a tier stores under a key: the bytes, the caller's flag bits, the
/// reading of the tier's clock at which it was stored, and how long it stays
/// fresh. Both times are in nanoseconds.
#[derive(Debug, PartialEq, Eq)]
pub struct Entry {
    pub value: Vec<u8>,
    pub flags: u32,
    pub created_at: u128,
    pub ttl: u128,
}

/// The mathematical value of an [`Entry`].
pub struct EntryView {
    pub value: Seq<u8>,
    pub flags: u32,
    pub created_at: u128,
    pub ttl: u128,
}

impl View for Entry {
    type V = EntryView;

    open spec fn view(&self) -> EntryView {
        EntryView {
            value: self.value@,
            flags: self.flags,
            created_at: self.created_at,
            ttl: self.ttl,
        }
    }
}

/// Time between two readings of one clock; zero when the later reading is
/// not after the earlier one.
pub open spec fn elapsed(created_at: u128, now: u128) -> nat {
    if now >= created_at {
        (now - created_at) as nat
    } else {
        0
    }
}

impl EntryView {
    /// An entry is expired once more than `ttl` has passed since it was
    /// stored.
    pub open spec fn expired_at(self, now: u128) -> bool {
        elapsed(self.created_at, now) > self.ttl
    }

    /// The entry as a tier stores it at time `now`.
    pub open spec fn stamped(self, now: u128) -> EntryView {
        EntryView { created_at: now, ..self }
    }
}

impl Entry {
    /// An entry that no tier has stored yet. The tier that stores it sets
    /// `created_at`.
    pub fn new(value: Vec<u8>, flags: u32, ttl: u128) -> (e: Entry)
        ensures
            e@ == (EntryView { value: value@, flags, created_at: 0, ttl }),
    {
        Entry { value, flags, created_at: 0, ttl }
    }

    /// Whether the entry is past its time to live when the clock that
    /// stamped it reads `now`.
    pub fn is_expired(&self, now: u128) -> (r: bool)
        ensures
            r == self@.expired_at(now),
    {
        if now >= self.created_at {
            now - self.created_at > self.ttl
        } else {
            false
        }
    }
}

impl Clone for Entry {
    fn clone(&self) -> (e: Entry)
        ensures
            e@ == self@,
    {
        Entry {
            value: to_owned_bytes(self.value.as_slice()),
            flags: self.flags,
            created_at: self.created_at,
            ttl: self.ttl,
        }
    }
}

/// Why a tier did not do what was asked.
#[derive(Debug, Clone, Copy, PartialEq, Eq, Structural)]
pub enum CacheError {
    /// The value is larger than the tier accepts; nothing was stored.
    TooLarge,
    /// The key is not live in the tier.
    NotFound,
    /// The key was live but past its time to live; the lookup removed it.
    Expired,
}

/// One call on a tier, with the reading of the tier's clock at which it ran.
pub enum Op {
    Lookup { key: Seq<u8>, now: u128 },
    Insert { key: Seq<u8>, entry: EntryView, now: u128 },
    Invalidate { key: Seq<u8> },
}

impl Op {
    /// The call is an insertion under `key`.
    pub open spec fn inserts(self, key: Seq<u8>) -> bool {
        self matches Op::Insert { key: k, .. } && k == key
    }
}

/// Every call in `ops` is an insertion, and no two are under the same key.
pub open spec fn distinct_inserts(ops: Seq<Op>) -> bool {
    &&& forall|i: int| 0 <= i < ops.len() ==> #[trigger] ops[i] is Insert
    &&& forall|i: int, j: int|
        #![trigger ops[i], ops[j]]
        0 <= i < j < ops.len() ==> ops[i]->Insert_key != ops[j]->Insert_key
}

/// What a lookup returns, with the entry as a mathematical value.
pub open spec fn lookup_result(r: Result<Entry, CacheError>) -> Result<EntryView, CacheError> {
    match r {
        Ok(e) => Ok(e@),
        Err(e) => Err(e),
    }
}

/// Whether a value of `len` bytes is within a tier's cap on value size.
pub open spec fn within_cap(len: nat, cap: Option<nat>) -> bool {
    match cap {
        Some(c) => len <= c,
        None => true,
    }
}

/// What every tier offers. A tier reads its own clock; callers that hold
/// several handles to one tier order their calls with a lock around it.
pub trait Cache {
    /// The tier's bookkeeping is consistent.
    spec fn wf(&self) -> bool;

    /// The entries that a lookup can find, by key.
    spec fn live(&self) -> Map<Seq<u8>, EntryView>;

    /// The largest value the tier accepts, if it has a cap.
    spec fn value_cap(&self) -> Option<nat>;

    /// Finds the entry stored under `key`. An entry past its time to live is
    /// removed and reported as `Expired`; a key that is not live is
    /// `NotFound`. No other entry changes.
    fn lookup(&mut self, key: &[u8]) -> (r: Result<Entry, CacheError>)
        requires
            old(self).wf(),
        ensures
            final(self).wf(),
            match r {
                Ok(e) => {
                    &&& old(self).live().contains_key(key@)
                    &&& e@ == old(self).live()[key@]
                    &&& final(self).live() == old(self).live()
                },
                Err(CacheError::Expired) => {
                    &&& old(self).live().contains_key(key@)
                    &&& final(self).live() == old(self).live().remove(key@)
                },
                Err(CacheError::NotFound) => {
                    &&& !old(self).live().contains_key(key@)
                    &&& final(self).live() == old(self).live()
                },
                Err(CacheError::TooLarge) => false,
            },
    ;

    /// Stores `entry` under `key`, stamped with the tier's clock. A value
    /// over the tier's cap is refused with `TooLarge` and nothing changes.
    /// Otherwise the key holds the new value and flags unless the tier's
    /// capacity rule evicted it at once; other keys keep their entries or
    /// are evicted.
    fn insert(&mut self, key: &[u8], entry: Entry) -> (r: Result<(), CacheError>)
        requires
            old(self).wf(),
        ensures
            final(self).wf(),
            r is Ok <==> within_cap(entry.value@.len(), old(self).value_cap()),
            r is Err ==> r == Err::<(), CacheError>(CacheError::TooLarge) && final(self).live()
                == old(self).live(),
            r is Ok ==> forall|k: Seq<u8>| #[trigger]
                final(self).live().contains_key(k) ==> if k == key@ {
                    final(self).live()[k].value == entry.value@ && final(self).live()[k].flags
                        == entry.flags
                } else {
                    old(self).live().contains_key(k) && final(self).live()[k] == old(self).live()[k]
                },
    ;

    /// Removes the live entry under `key`; `NotFound` if there is none.
    fn invalidate(&mut self, key: &[u8]) -> (r: Result<(), CacheError>)
        requires
            old(self).wf(),
        ensures
            final(self).wf(),
            final(self).live() == old(self).live().remove(key@),
            r is Ok <==> old(self).live().contains_key(key@),
            r is Err ==> r == Err::<(), CacheError>(CacheError::NotFound),
    ;
}

} // verus!
