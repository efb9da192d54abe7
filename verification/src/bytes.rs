//! Byte strings: exact and case-blind comparison, search, and copies.

use vstd::prelude::*;

verus! {

/// The lower-case form of an ASCII letter; any other byte is itself.
pub open spec fn ascii_lower(b: u8) -> u8 {
    if 0x41 <= b <= 0x5a {
        (b + 0x20) as u8
    } else {
        b
    }
}

/// `s` with every ASCII letter in lower case.
pub open spec fn lowered(s: Seq<u8>) -> Seq<u8> {
    Seq::new(s.len(), |i: int| ascii_lower(s[i]))
}

/// `a` and `b` are equal up to the case of ASCII letters.
pub open spec fn same_ignoring_case(a: Seq<u8>, b: Seq<u8>) -> bool {
    lowered(a) == lowered(b)
}

/// `needle` stands in `hay` at offset `at`.
pub open spec fn occurs_at(needle: Seq<u8>, hay: Seq<u8>, at: int) -> bool {
    &&& 0 <= at
    &&& at + needle.len() <= hay.len()
    &&& hay.subrange(at, at + needle.len()) == needle
}

/// `needle` stands somewhere in `hay`.
pub open spec fn occurs_in(needle: Seq<u8>, hay: Seq<u8>) -> bool {
    exists|at: int| occurs_at(needle, hay, at)
}

/// `prefix` stands at the start of `s`.
pub open spec fn starts_with(s: Seq<u8>, prefix: Seq<u8>) -> bool {
    occurs_at(prefix, s, 0)
}

/// `suffix` stands at the end of `s`.
pub open spec fn ends_with(s: Seq<u8>, suffix: Seq<u8>) -> bool {
    occurs_at(suffix, s, s.len() - suffix.len())
}

/// The lower-case form of an ASCII letter; any other byte is itself.
pub fn to_ascii_lower(b: u8) -> (r: u8)
    ensures
        r == ascii_lower(b),
{
    if 0x41 <= b && b <= 0x5a {
        b + 0x20
    } else {
        b
    }
}

/// Exact comparison of two byte strings.
pub fn bytes_eq(a: &[u8], b: &[u8]) -> (r: bool)
    ensures
        r == (a@ == b@),
{
    if a.len() != b.len() {
        return false;
    }
    let mut i: usize = 0;
    while i < a.len()
        invariant
            i <= a.len(),
            a.len() == b.len(),
            forall|j: int| 0 <= j < i ==> a@[j] == b@[j],
        decreases a.len() - i,
    {
        if a[i] != b[i] {
            return false;
        }
        i += 1;
    }
    assert(a@ =~= b@);
    true
}

/// An owned copy of a byte string.
pub fn to_owned_bytes(a: &[u8]) -> (v: Vec<u8>)
    ensures
        v@ == a@,
{
    let mut v: Vec<u8> = Vec::with_capacity(a.len());
    let mut i: usize = 0;
    while i < a.len()
        invariant
            i <= a.len(),
            v@ == a@.take(i as int),
        decreases a.len() - i,
    {
        v.push(a[i]);
        assert(a@.take(i as int + 1) =~= a@.take(i as int).push(a@[i as int]));
        i += 1;
    }
    assert(a@.take(a.len() as int) =~= a@);
    v
}

/// `s` as a search sees it: lowered when the search is blind to case.
pub open spec fn seen(s: Seq<u8>, fold: bool) -> Seq<u8> {
    if fold {
        lowered(s)
    } else {
        s
    }
}

/// Whether `needle` stands in `hay` at offset `at`, exactly or up to the
/// case of ASCII letters.
fn matches_at(hay: &[u8], needle: &[u8], at: usize, fold: bool) -> (r: bool)
    requires
        at + needle.len() <= hay.len(),
    ensures
        r == occurs_at(seen(needle@, fold), seen(hay@, fold), at as int),
{
    let n = needle.len();
    let ghost h = seen(hay@, fold);
    let ghost nd = seen(needle@, fold);
    let mut j: usize = 0;
    while j < n
        invariant
            j <= n,
            n == needle.len(),
            at + n <= hay.len(),
            h == seen(hay@, fold),
            nd == seen(needle@, fold),
            forall|k: int| 0 <= k < j ==> h[at + k] == nd[k],
        decreases n - j,
    {
        let same = if fold {
            to_ascii_lower(hay[at + j]) == to_ascii_lower(needle[j])
        } else {
            hay[at + j] == needle[j]
        };
        if !same {
            proof {
                let window = h.subrange(at as int, at + n);
                assert(window[j as int] != nd[j as int]);
            }
            return false;
        }
        j += 1;
    }
    assert(h.subrange(at as int, at + n) =~= nd);
    true
}

/// Whether `needle` stands somewhere in `hay`, exactly or up to the case of
/// ASCII letters. The empty needle stands in every byte string.
fn search(hay: &[u8], needle: &[u8], fold: bool) -> (r: bool)
    ensures
        r == occurs_in(seen(needle@, fold), seen(hay@, fold)),
{
    let n = needle.len();
    let ghost h = seen(hay@, fold);
    let ghost nd = seen(needle@, fold);
    if n == 0 {
        assert(h.subrange(0, 0) =~= nd);
        assert(occurs_at(nd, h, 0));
        return true;
    }
    if n > hay.len() {
        return false;
    }
    let last = hay.len() - n;
    let mut i: usize = 0;
    while i <= last
        invariant
            i <= last + 1,
            last + n == hay.len(),
            0 < n == needle.len(),
            h == seen(hay@, fold),
            nd == seen(needle@, fold),
            forall|k: int| 0 <= k < i ==> !occurs_at(nd, h, k),
        decreases last + 1 - i,
    {
        if matches_at(hay, needle, i, fold) {
            assert(occurs_at(nd, h, i as int));
            return true;
        }
        i += 1;
    }
    false
}

/// Whether `needle` stands somewhere in `hay`.
pub fn contains(hay: &[u8], needle: &[u8]) -> (r: bool)
    ensures
        r == occurs_in(needle@, hay@),
{
    search(hay, needle, false)
}

/// Whether `needle` stands somewhere in `hay`, up to the case of ASCII
/// letters.
pub fn find_subslice_ci(hay: &[u8], needle: &[u8]) -> (r: bool)
    ensures
        r == occurs_in(lowered(needle@), lowered(hay@)),
{
    search(hay, needle, true)
}

/// Whether two byte strings are equal up to the case of ASCII letters.
pub fn eq_ci_bytes(a: &[u8], b: &[u8]) -> (r: bool)
    ensures
        r == same_ignoring_case(a@, b@),
{
    if a.len() != b.len() {
        assert(lowered(a@).len() != lowered(b@).len());
        return false;
    }
    let r = matches_at(a, b, 0, true);
    proof {
        assert(lowered(a@).subrange(0, a.len() as int) =~= lowered(a@));
    }
    r
}

/// Whether `prefix` stands at the start of `s`, up to the case of ASCII
/// letters.
pub fn has_prefix_ci(s: &[u8], prefix: &[u8]) -> (r: bool)
    ensures
        r == starts_with(lowered(s@), lowered(prefix@)),
{
    prefix.len() <= s.len() && matches_at(s, prefix, 0, true)
}

/// Whether `suffix` stands at the end of `s`, up to the case of ASCII
/// letters.
pub fn has_suffix_ci(s: &[u8], suffix: &[u8]) -> (r: bool)
    ensures
        r == ends_with(lowered(s@), lowered(suffix@)),
{
    suffix.len() <= s.len() && matches_at(s, suffix, s.len() - suffix.len(), true)
}

} // verus!
