//! Ordered key lists: the insertion history of the FIFO tier and the four
//! lists of the adaptive tier.

use vstd::prelude::*;
use std::collections::VecDeque;
use crate::bytes::bytes_eq;

verus! {

/// A queue of byte-string keys; the front is the oldest.
pub struct KeyQueue {
    items: VecDeque<Vec<u8>>,
}

/// `s` without any occurrence of `key`.
pub open spec fn without(s: Seq<Seq<u8>>, key: Seq<u8>) -> Seq<Seq<u8>> {
    s.filter(|k: Seq<u8>| k != key)
}

/// The views of a sequence of owned keys.
spec fn key_views(items: Seq<Vec<u8>>) -> Seq<Seq<u8>> {
    items.map_values(|k: Vec<u8>| k@)
}

/// Taking every occurrence of `key` out of `s` leaves no `key`, keeps every
/// other member, and keeps their order.
pub proof fn lemma_without(s: Seq<Seq<u8>>, key: Seq<u8>)
    ensures
        !without(s, key).contains(key),
        forall|k: Seq<u8>| k != key ==> (#[trigger] without(s, key).contains(k) <==> s.contains(k)),
        without(s, key).len() <= s.len(),
        !s.contains(key) ==> without(s, key) == s,
        s.no_duplicates() ==> without(s, key).no_duplicates(),
    decreases s.len(),
{
    reveal(Seq::filter);
    let pred = |k: Seq<u8>| k != key;
    if s.len() == 0 {
    } else {
        let init = s.drop_last();
        lemma_without(init, key);
        let sub = without(init, key);
        let out = without(s, key);
        assert(out == if pred(s.last()) { sub.push(s.last()) } else { sub });
        assert forall|k: Seq<u8>| k != key implies (#[trigger] out.contains(k) <==> s.contains(
            k,
        )) by {
            if out.contains(k) {
                let i = out.index_of(k);
                if i < sub.len() {
                    assert(sub[i] == k);
                    assert(sub.contains(k));
                    let j = init.index_of(k);
                    assert(s[j] == k);
                } else {
                    assert(s[s.len() - 1] == k);
                }
            }
            if s.contains(k) {
                let j = s.index_of(k);
                if j < init.len() {
                    assert(init[j] == k);
                    assert(init.contains(k));
                    assert(sub.contains(k));
                    let i = sub.index_of(k);
                    assert(out[i] == k);
                } else {
                    assert(out[out.len() - 1] == k);
                }
            }
        }
        if out.contains(key) {
            let i = out.index_of(key);
            if i < sub.len() {
                assert(sub[i] == key);
            }
        }
        if !s.contains(key) {
            assert forall|j: int| 0 <= j < init.len() implies init[j] != key by {
                assert(s[j] == init[j]);
            }
            assert(s[s.len() - 1] != key);
            assert(out =~= s);
        }
        if s.no_duplicates() {
            assert(init.no_duplicates());
            if pred(s.last()) {
                assert forall|i: int, j: int| 0 <= i < out.len() && 0 <= j < out.len() && i
                    != j implies out[i] != out[j] by {
                    if i < sub.len() && j < sub.len() {
                    } else if i < sub.len() {
                        assert(sub.contains(out[i]));
                        if out[i] == s.last() {
                            let a = init.index_of(out[i]);
                            assert(s[a] == s[s.len() - 1]);
                        }
                    } else {
                        assert(sub.contains(out[j]));
                        if out[j] == s.last() {
                            let a = init.index_of(out[j]);
                            assert(s[a] == s[s.len() - 1]);
                        }
                    }
                }
            }
        }
    }
}

/// In a sequence without duplicates, removing the one occurrence of a key
/// is removing every occurrence.
pub proof fn lemma_remove_is_without(s: Seq<Seq<u8>>, i: int)
    requires
        0 <= i < s.len(),
        forall|j: int| 0 <= j < s.len() && j != i ==> s[j] != s[i],
    ensures
        s.remove(i) == without(s, s[i]),
    decreases s.len(),
{
    reveal(Seq::filter);
    let key = s[i];
    let init = s.drop_last();
    if i == s.len() - 1 {
        assert(!init.contains(key)) by {
            if init.contains(key) {
                let j = init.index_of(key);
                assert(s[j] == key);
            }
        }
        lemma_without(init, key);
        assert(s.remove(i) =~= init);
    } else {
        assert forall|j: int| 0 <= j < init.len() && j != i implies init[j] != init[i] by {
            assert(init[j] == s[j]);
        }
        lemma_remove_is_without(init, i);
        assert(s.remove(i) =~= init.remove(i).push(s.last()));
    }
}

/// In a list without duplicates, taking a member out makes it one shorter.
pub proof fn lemma_without_member(s: Seq<Seq<u8>>, key: Seq<u8>)
    requires
        s.no_duplicates(),
        s.contains(key),
    ensures
        without(s, key).len() == s.len() - 1,
{
    let i = s.index_of(key);
    lemma_remove_is_without(s, i);
}

impl View for KeyQueue {
    type V = Seq<Seq<u8>>;

    closed spec fn view(&self) -> Seq<Seq<u8>> {
        key_views(self.items@)
    }
}

impl KeyQueue {
    pub fn new() -> (q: KeyQueue)
        ensures
            q@ == Seq::<Seq<u8>>::empty(),
    {
        let q = KeyQueue { items: VecDeque::new() };
        assert(q@ =~= Seq::<Seq<u8>>::empty());
        q
    }

    pub fn len(&self) -> (n: usize)
        ensures
            n == self@.len(),
    {
        self.items.len()
    }

    /// The index of the first occurrence of `key`.
    pub fn position(&self, key: &[u8]) -> (r: Option<usize>)
        ensures
            match r {
                Some(i) => i < self@.len() && self@[i as int] == key@ && forall|j: int|
                    0 <= j < i ==> self@[j] != key@,
                None => !self@.contains(key@),
            },
    {
        let mut i: usize = 0;
        while i < self.items.len()
            invariant
                i <= self.items.len(),
                forall|j: int| 0 <= j < i ==> self@[j] != key@,
            decreases self.items.len() - i,
        {
            assert(self@[i as int] == self.items@[i as int]@);
            if bytes_eq(self.items[i].as_slice(), key) {
                return Some(i);
            }
            i += 1;
        }
        None
    }

    pub fn contains(&self, key: &[u8]) -> (r: bool)
        ensures
            r == self@.contains(key@),
    {
        self.position(key).is_some()
    }

    /// Appends `key` at the back.
    pub fn push_back(&mut self, key: Vec<u8>)
        ensures
            final(self)@ == old(self)@.push(key@),
    {
        self.items.push_back(key);
        assert(self@ =~= old(self)@.push(key@));
    }

    /// Takes the oldest key off the front.
    pub fn pop_front(&mut self) -> (r: Option<Vec<u8>>)
        ensures
            match r {
                Some(k) => {
                    &&& old(self)@.len() > 0
                    &&& k@ == old(self)@[0]
                    &&& final(self)@ == old(self)@.drop_first()
                },
                None => old(self)@.len() == 0 && final(self)@ == old(self)@,
            },
    {
        let r = self.items.pop_front();
        proof {
            if r.is_some() {
                assert(self@ =~= old(self)@.drop_first());
            }
        }
        r
    }

    /// Takes the key at index `i` out of the queue.
    pub fn remove_at(&mut self, i: usize) -> (k: Vec<u8>)
        requires
            i < old(self)@.len(),
        ensures
            k@ == old(self)@[i as int],
            final(self)@ == old(self)@.remove(i as int),
    {
        let r = self.items.remove(i);
        assert(self@ =~= old(self)@.remove(i as int));
        match r {
            Some(k) => k,
            None => Vec::new(),
        }
    }

    /// Takes every occurrence of `key` out of the queue.
    pub fn remove_all(&mut self, key: &[u8])
        ensures
            final(self)@ == without(old(self)@, key@),
    {
        let ghost before = self@;
        let ghost pred = |k: Seq<u8>| k != key@;
        let mut kept: VecDeque<Vec<u8>> = VecDeque::new();
        let ghost mut done: int = 0;
        assert(before.take(0) =~= Seq::<Seq<u8>>::empty());
        assert(key_views(kept@) =~= Seq::<Seq<u8>>::empty());
        proof {
            reveal(Seq::filter);
        }
        while self.items.len() > 0
            invariant
                0 <= done <= before.len(),
                self@ == before.skip(done),
                key_views(kept@) == before.take(done).filter(pred),
                pred == |k: Seq<u8>| k != key@,
            decreases self.items.len(),
        {
            let ghost rest = self@;
            assert(rest.len() == self.items@.len());
            assert(rest.len() == before.len() - done);
            assert(rest[0] == before[done]);
            let front = self.items.pop_front();
            match front {
                Some(k) => {
                    proof {
                        assert(k@ == rest[0]);
                        assert(rest[0] == before[done]);
                        assert(self@ =~= rest.drop_first());
                        assert(rest.drop_first() =~= before.skip(done + 1));
                        assert(before.take(done + 1) =~= before.take(done).push(before[done]));
                        before.take(done).lemma_filter_push(before[done], pred);
                    }
                    let ghost kept_before = key_views(kept@);
                    if !bytes_eq(k.as_slice(), key) {
                        kept.push_back(k);
                        assert(key_views(kept@) =~= kept_before.push(before[done]));
                    }
                    proof {
                        done = done + 1;
                    }
                },
                None => {},
            }
        }
        assert(before.take(done) =~= before);
        self.items = kept;
    }
}

} // verus!
