//! Strings: comparison, and tables keyed by strings.

use vstd::prelude::*;
use vstd::string::StrSliceExecFns;
use vstd::string::StringSliceAdditionalSpecFns;
use vstd::utf8::encode_utf8_decode_utf8;
use crate::bytes::bytes_eq;

verus! {

/// Exact comparison of two strings.
pub fn str_eq(a: &str, b: &str) -> (r: bool)
    ensures
        r == (a@ == b@),
{
    proof {
        encode_utf8_decode_utf8(a@);
        encode_utf8_decode_utf8(b@);
    }
    bytes_eq(a.as_bytes(), b.as_bytes())
}

/// Whether `s` begins with `prefix`.
pub fn starts_with_str(s: &str, prefix: &str) -> (r: bool)
    ensures
        r == prefix@.is_prefix_of(s@),
{
    let k = prefix.unicode_len();
    if k > s.unicode_len() {
        return false;
    }
    str_eq(s.substring_char(0, k), prefix)
}

/// The number that a series of decimal digits writes.
pub open spec fn digits_value(digits: Seq<u8>) -> nat
    decreases digits.len(),
{
    if digits.len() == 0 {
        0
    } else {
        digits_value(digits.drop_last()) * 10 + (digits.last() - 0x30) as nat
    }
}

/// Every byte is a decimal digit.
pub open spec fn all_digits(digits: Seq<u8>) -> bool {
    forall|i: int| 0 <= i < digits.len() ==> 0x30 <= #[trigger] digits[i] <= 0x39
}

/// The number that `text` writes in decimal, if it is one and fits in
/// sixteen bits: one or more digits, after at most one plus sign.
pub open spec fn decimal_u16(text: Seq<u8>) -> Option<u16> {
    let digits = if text.len() > 0 && text[0] == 0x2b {
        text.drop_first()
    } else {
        text
    };
    if digits.len() > 0 && all_digits(digits) && digits_value(digits) <= 0xffff {
        Some(digits_value(digits) as u16)
    } else {
        None
    }
}

/// More digits do not write a smaller number.
proof fn lemma_digits_value_grows(digits: Seq<u8>, n: int)
    requires
        0 <= n <= digits.len(),
        all_digits(digits),
    ensures
        digits_value(digits.take(n)) <= digits_value(digits),
    decreases digits.len() - n,
{
    if n < digits.len() {
        lemma_digits_value_grows(digits.drop_last(), n);
        assert(digits.drop_last().take(n) =~= digits.take(n));
        assert(0x30 <= digits[digits.len() - 1]);
    } else {
        assert(digits.take(n) =~= digits);
    }
}

/// Reads a decimal number of at most sixteen bits.
pub fn parse_u16(text: &str) -> (r: Option<u16>)
    ensures
        r == decimal_u16(text.spec_bytes()),
{
    let bytes = text.as_bytes();
    let start: usize = if bytes.len() > 0 && bytes[0] == 0x2b {
        1
    } else {
        0
    };
    if start == bytes.len() {
        return None;
    }
    let ghost digits = bytes@.skip(start as int);
    assert(digits =~= if bytes@.len() > 0 && bytes@[0] == 0x2b {
        bytes@.drop_first()
    } else {
        bytes@
    });
    let mut value: u32 = 0;
    let mut i: usize = start;
    while i < bytes.len()
        invariant
            start <= i <= bytes.len(),
            bytes@ == text.spec_bytes(),
            digits == bytes@.skip(start as int),
            digits.len() > 0,
            digits == (if bytes@.len() > 0 && bytes@[0] == 0x2b {
                bytes@.drop_first()
            } else {
                bytes@
            }),
            all_digits(digits.take(i - start)),
            value == digits_value(digits.take(i - start)),
            value <= 0xffff,
        decreases bytes.len() - i,
    {
        let b = bytes[i];
        let ghost seen = digits.take(i - start + 1);
        proof {
            assert(seen.drop_last() =~= digits.take(i - start));
            assert(seen.last() == b);
        }
        if b < 0x30 || b > 0x39 {
            assert(!all_digits(digits)) by {
                assert(digits[i - start] == b);
            }
            return None;
        }
        let next: u32 = value * 10 + (b - 0x30) as u32;
        if next > 0xffff {
            proof {
                if all_digits(digits) {
                    lemma_digits_value_grows(digits, i - start + 1);
                }
            }
            return None;
        }
        value = next;
        i += 1;
    }
    assert(digits.take(i - start) =~= digits);
    Some(value as u16)
}

/// A copy of a list of headers.
pub fn copy_pairs(pairs: &Vec<(String, String)>) -> (r: Vec<(String, String)>)
    ensures
        pair_texts(r@) == pair_texts(pairs@),
{
    let mut r: Vec<(String, String)> = Vec::new();
    let mut i: usize = 0;
    while i < pairs.len()
        invariant
            i <= pairs.len(),
            r@.len() == i,
            forall|j: int| 0 <= j < i ==> r@[j].0@ == pairs@[j].0@ && r@[j].1@ == pairs@[j].1@,
        decreases pairs.len() - i,
    {
        r.push((pairs[i].0.clone(), pairs[i].1.clone()));
        i += 1;
    }
    assert(pair_texts(r@) =~= pair_texts(pairs@));
    r
}

/// The texts of a list of pairs of strings.
pub open spec fn pair_texts(pairs: Seq<(String, String)>) -> Seq<(Seq<char>, Seq<char>)> {
    pairs.map_values(|p: (String, String)| (p.0@, p.1@))
}

/// `std::boxed::Box::leak` on the boxed form of `s`: the same text, kept
/// for the rest of the program's run.
#[verifier::external_body]
pub(crate) fn leak(s: String) -> (r: &'static str)
    ensures
        r@ == s@,
{
    Box::leak(s.into_boxed_str())
}

/// A table from string keys to values, kept as a list in which no key
/// occurs twice.
pub struct Table<V> {
    keys: Vec<String>,
    values: Vec<V>,
}

/// The texts of a list of keys.
spec fn key_texts(keys: Seq<String>) -> Seq<Seq<char>> {
    keys.map_values(|k: String| k@)
}

impl<V> View for Table<V> {
    type V = Map<Seq<char>, V>;

    closed spec fn view(&self) -> Map<Seq<char>, V> {
        let texts = key_texts(self.keys@);
        Map::new(|k: Seq<char>| texts.contains(k), |k: Seq<char>| self.values@[texts.index_of(k)])
    }
}

impl<V> Table<V> {
    /// The lists are of one length and no key occurs twice.
    pub closed spec fn wf(&self) -> bool {
        &&& self.keys@.len() == self.values@.len()
        &&& key_texts(self.keys@).no_duplicates()
    }

    proof fn lemma_view_at(&self, i: int)
        requires
            self.wf(),
            0 <= i < self.keys@.len(),
        ensures
            self@.contains_key(self.keys@[i]@),
            self@[self.keys@[i]@] == self.values@[i],
    {
        let texts = key_texts(self.keys@);
        assert(texts[i] == self.keys@[i]@);
        let j = texts.index_of(texts[i]);
        assert(0 <= j < texts.len() && texts[j] == texts[i]);
    }

    /// An empty table.
    pub fn new() -> (t: Table<V>)
        ensures
            t.wf(),
            t@ == Map::<Seq<char>, V>::empty(),
    {
        let t = Table { keys: Vec::new(), values: Vec::new() };
        assert(t@ =~= Map::<Seq<char>, V>::empty());
        t
    }

    fn position(&self, key: &str) -> (r: Option<usize>)
        requires
            self.wf(),
        ensures
            match r {
                Some(i) => i < self.keys@.len() && self.keys@[i as int]@ == key@,
                None => !key_texts(self.keys@).contains(key@),
            },
    {
        let mut i: usize = 0;
        while i < self.keys.len()
            invariant
                i <= self.keys.len(),
                forall|j: int| 0 <= j < i ==> self.keys@[j]@ != key@,
            decreases self.keys.len() - i,
        {
            if str_eq(self.keys[i].as_str(), key) {
                return Some(i);
            }
            i += 1;
        }
        proof {
            let texts = key_texts(self.keys@);
            assert forall|j: int| 0 <= j < texts.len() implies texts[j] != key@ by {
                assert(texts[j] == self.keys@[j]@);
            }
        }
        None
    }

    /// Whether the table has a value under `key`.
    pub fn contains_key(&self, key: &str) -> (r: bool)
        requires
            self.wf(),
        ensures
            r == self@.contains_key(key@),
    {
        match self.position(key) {
            Some(i) => {
                proof {
                    self.lemma_view_at(i as int);
                }
                true
            },
            None => false,
        }
    }

    /// The value under `key`.
    pub fn get(&self, key: &str) -> (r: Option<&V>)
        requires
            self.wf(),
        ensures
            match r {
                Some(v) => self@.contains_key(key@) && *v == self@[key@],
                None => !self@.contains_key(key@),
            },
    {
        match self.position(key) {
            Some(i) => {
                proof {
                    self.lemma_view_at(i as int);
                }
                Some(&self.values[i])
            },
            None => None,
        }
    }

    /// Puts `value` under `key`, in place of what was there.
    pub fn insert(&mut self, key: String, value: V)
        requires
            old(self).wf(),
        ensures
            final(self).wf(),
            final(self)@ == old(self)@.insert(key@, value),
    {
        let ghost before = *self;
        match self.position(key.as_str()) {
            Some(i) => {
                self.values[i] = value;
                proof {
                    let texts = key_texts(self.keys@);
                    assert forall|k: Seq<char>| texts.contains(k) implies #[trigger] self@[k]
                        == before@.insert(key@, value)[k] by {
                        let j = texts.index_of(k);
                        assert(texts[j] == self.keys@[j]@);
                        assert(texts[i as int] == key@);
                    }
                    assert(texts.contains(key@)) by {
                        assert(texts[i as int] == key@);
                    }
                    assert(self@ =~= before@.insert(key@, value));
                }
            },
            None => {
                self.keys.push(key);
                self.values.push(value);
                proof {
                    let old_texts = key_texts(before.keys@);
                    let texts = key_texts(self.keys@);
                    assert(texts =~= old_texts.push(key@));
                    assert forall|k: Seq<char>| #[trigger]
                        texts.contains(k) <==> (old_texts.contains(k) || k == key@) by {
                        if old_texts.contains(k) {
                            let j = old_texts.index_of(k);
                            assert(texts[j] == k);
                        }
                        if k == key@ {
                            assert(texts[texts.len() - 1] == k);
                        }
                    }
                    assert forall|k: Seq<char>| texts.contains(k) implies #[trigger] self@[k]
                        == before@.insert(key@, value)[k] by {
                        let j = texts.index_of(k);
                        if k != key@ {
                            let j0 = old_texts.index_of(k);
                            assert(texts[j0] == k);
                        }
                    }
                    assert(self@ =~= before@.insert(key@, value));
                }
            },
        }
    }
}

} // verus!
