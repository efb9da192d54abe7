//! The exact-match map from key to entry that every tier owns.

use vstd::prelude::*;
use crate::cache::{Entry, EntryView};
use crate::bytes::bytes_eq;

verus! {

/// One key with the entry stored under it.
struct Slot {
    key: Vec<u8>,
    entry: Entry,
}

/// A map from byte-string keys to entries, kept as a list in which no key
/// occurs twice.
pub struct Store {
    slots: Vec<Slot>,
}

/// The keys of a list of slots, in list order.
spec fn slot_keys(slots: Seq<Slot>) -> Seq<Seq<u8>> {
    slots.map_values(|s: Slot| s.key@)
}

impl View for Store {
    type V = Map<Seq<u8>, EntryView>;

    closed spec fn view(&self) -> Map<Seq<u8>, EntryView> {
        let keys = slot_keys(self.slots@);
        Map::new(|k: Seq<u8>| keys.contains(k), |k: Seq<u8>| self.slots@[keys.index_of(k)].entry@)
    }
}

impl Store {
    /// No key occurs twice.
    pub closed spec fn wf(&self) -> bool {
        slot_keys(self.slots@).no_duplicates()
    }

    proof fn lemma_view_at(&self, i: int)
        requires
            self.wf(),
            0 <= i < self.slots@.len(),
        ensures
            self@.contains_key(self.slots@[i].key@),
            self@[self.slots@[i].key@] == self.slots@[i].entry@,
    {
        let keys = slot_keys(self.slots@);
        assert(keys[i] == self.slots@[i].key@);
        let j = keys.index_of(keys[i]);
        assert(0 <= j < keys.len() && keys[j] == keys[i]);
    }

    proof fn lemma_size(&self)
        requires
            self.wf(),
        ensures
            self@.dom().finite(),
            self@.dom().len() == self.slots@.len(),
    {
        let keys = slot_keys(self.slots@);
        assert(self@.dom() =~= keys.to_set());
        vstd::seq_lib::seq_to_set_is_finite(keys);
        keys.unique_seq_to_set();
    }

    pub fn new() -> (s: Store)
        ensures
            s.wf(),
            s@ == Map::<Seq<u8>, EntryView>::empty(),
    {
        let s = Store { slots: Vec::new() };
        assert(s@ =~= Map::<Seq<u8>, EntryView>::empty());
        s
    }

    /// The number of keys held.
    pub fn len(&self) -> (n: usize)
        requires
            self.wf(),
        ensures
            self@.dom().finite(),
            n == self@.dom().len(),
    {
        proof {
            self.lemma_size();
        }
        self.slots.len()
    }

    fn position(&self, key: &[u8]) -> (r: Option<usize>)
        requires
            self.wf(),
        ensures
            match r {
                Some(i) => i < self.slots@.len() && self.slots@[i as int].key@ == key@,
                None => !slot_keys(self.slots@).contains(key@),
            },
    {
        let mut i: usize = 0;
        while i < self.slots.len()
            invariant
                i <= self.slots.len(),
                forall|j: int| 0 <= j < i ==> self.slots@[j].key@ != key@,
            decreases self.slots.len() - i,
        {
            if bytes_eq(self.slots[i].key.as_slice(), key) {
                return Some(i);
            }
            i += 1;
        }
        proof {
            let keys = slot_keys(self.slots@);
            assert forall|j: int| 0 <= j < keys.len() implies keys[j] != key@ by {
                assert(keys[j] == self.slots@[j].key@);
            }
        }
        None
    }

    pub fn contains_key(&self, key: &[u8]) -> (r: bool)
        requires
            self.wf(),
        ensures
            r == self@.contains_key(key@),
    {
        match self.position(key) {
            Some(i) => {
                proof {
                    self.lemma_view_at(i as int);
                }
                true
            },
            None => false,
        }
    }

    pub fn get(&self, key: &[u8]) -> (r: Option<&Entry>)
        requires
            self.wf(),
        ensures
            match r {
                Some(e) => self@.contains_key(key@) && e@ == self@[key@],
                None => !self@.contains_key(key@),
            },
    {
        match self.position(key) {
            Some(i) => {
                proof {
                    self.lemma_view_at(i as int);
                }
                Some(&self.slots[i].entry)
            },
            None => None,
        }
    }

    /// Stores `entry` under `key`, replacing what was there.
    pub fn insert(&mut self, key: Vec<u8>, entry: Entry)
        requires
            old(self).wf(),
        ensures
            final(self).wf(),
            final(self)@ == old(self)@.insert(key@, entry@),
    {
        let ghost before = *self;
        match self.position(key.as_slice()) {
            Some(i) => {
                self.slots[i].entry = entry;
                proof {
                    assert(slot_keys(self.slots@) =~= slot_keys(before.slots@));
                    let keys = slot_keys(self.slots@);
                    assert forall|k: Seq<u8>| keys.contains(k) implies #[trigger] self@[k]
                        == before@.insert(key@, entry@)[k] by {
                        let j = keys.index_of(k);
                        assert(keys[j] == self.slots@[j].key@);
                        assert(keys[i as int] == key@);
                    }
                    assert(keys.contains(key@)) by {
                        assert(keys[i as int] == key@);
                    }
                    assert(self@ =~= before@.insert(key@, entry@));
                }
            },
            None => {
                self.slots.push(Slot { key, entry });
                proof {
                    let old_keys = slot_keys(before.slots@);
                    let keys = slot_keys(self.slots@);
                    assert(keys =~= old_keys.push(key@));
                    assert forall|k: Seq<u8>| #[trigger] keys.contains(k) <==> (old_keys.contains(k)
                        || k == key@) by {
                        if old_keys.contains(k) {
                            let j = old_keys.index_of(k);
                            assert(keys[j] == k);
                        }
                        if k == key@ {
                            assert(keys[keys.len() - 1] == k);
                        }
                    }
                    assert forall|k: Seq<u8>| keys.contains(k) implies #[trigger] self@[k]
                        == before@.insert(key@, entry@)[k] by {
                        let j = keys.index_of(k);
                        if k != key@ {
                            let j0 = old_keys.index_of(k);
                            assert(keys[j0] == k);
                        }
                    }
                    assert(self@ =~= before@.insert(key@, entry@));
                }
            },
        }
    }

    /// Removes `key` and hands back what was stored under it.
    pub fn remove(&mut self, key: &[u8]) -> (r: Option<Entry>)
        requires
            old(self).wf(),
        ensures
            final(self).wf(),
            match r {
                Some(e) => old(self)@.contains_key(key@) && e@ == old(self)@[key@] && final(self)@
                    == old(self)@.remove(key@),
                None => !old(self)@.contains_key(key@) && final(self)@ == old(self)@,
            },
    {
        let ghost before = *self;
        match self.position(key) {
            Some(i) => {
                proof {
                    self.lemma_view_at(i as int);
                }
                let slot = self.slots.remove(i);
                proof {
                    let old_keys = slot_keys(before.slots@);
                    let keys = slot_keys(self.slots@);
                    assert(keys =~= old_keys.remove(i as int));
                    assert(old_keys[i as int] == key@);
                    assert forall|k: Seq<u8>| #[trigger] keys.contains(k) <==> (old_keys.contains(k)
                        && k != key@) by {
                        if keys.contains(k) {
                            let j = keys.index_of(k);
                            if j < i {
                                assert(old_keys[j] == k);
                            } else {
                                assert(old_keys[j + 1] == k);
                            }
                        }
                        if old_keys.contains(k) && k != key@ {
                            let j = old_keys.index_of(k);
                            if j < i {
                                assert(keys[j] == k);
                            } else {
                                assert(keys[j - 1] == k);
                            }
                        }
                    }
                    assert forall|k: Seq<u8>| keys.contains(k) implies #[trigger] self@[k]
                        == before@[k] by {
                        let j = keys.index_of(k);
                        let j0 = old_keys.index_of(k);
                        if j < i {
                            assert(old_keys[j] == k);
                        } else {
                            assert(old_keys[j + 1] == k);
                        }
                    }
                    assert(self@ =~= before@.remove(key@));
                }
                Some(slot.entry)
            },
            None => None,
        }
    }
}

} // verus!
