use olwsx::cache::l1::L1;
use olwsx::cache::l2::L2;
use olwsx::cache::l3::L3;
use olwsx::cache::{Cache, CacheError, Entry};

const SEC: u128 = 1_000_000_000;

fn exercise<C: Cache>(tier: &mut C) {
    assert_eq!(tier.lookup(b"k"), Err(CacheError::NotFound));
    assert_eq!(tier.invalidate(b"k"), Err(CacheError::NotFound));
    assert_eq!(tier.insert(b"k", Entry::new(b"one".to_vec(), 0x11, 60 * SEC)), Ok(()));
    let e = tier.lookup(b"k").unwrap();
    assert_eq!(e.value, b"one".to_vec());
    assert_eq!(e.flags, 0x11);
    assert_eq!(e.ttl, 60 * SEC);
    assert_eq!(tier.insert(b"k", Entry::new(b"two".to_vec(), 0x22, 60 * SEC)), Ok(()));
    let e = tier.lookup(b"k").unwrap();
    assert_eq!(e.value, b"two".to_vec());
    assert_eq!(e.flags, 0x22);
    assert_eq!(tier.insert(b"other", Entry::new(b"x".to_vec(), 0, 60 * SEC)), Ok(()));
    assert_eq!(tier.invalidate(b"k"), Ok(()));
    assert_eq!(tier.lookup(b"k"), Err(CacheError::NotFound));
    assert_eq!(tier.invalidate(b"k"), Err(CacheError::NotFound));
    assert_eq!(tier.lookup(b"other").unwrap().value, b"x".to_vec());
}

#[test]
fn every_tier_keeps_the_shared_contract() {
    exercise(&mut L1::new());
    exercise(&mut L2::new());
    exercise(&mut L3::new());
}

#[test]
fn tiers_do_not_share_entries() {
    let mut first = L1::new();
    let mut second = L2::new();
    let mut third = L3::new();
    first.insert(b"k", Entry::new(vec![1], 0, 60 * SEC)).unwrap();
    assert_eq!(second.lookup(b"k"), Err(CacheError::NotFound));
    assert_eq!(third.lookup(b"k"), Err(CacheError::NotFound));
    third.insert(b"k", Entry::new(vec![3], 0, 60 * SEC)).unwrap();
    assert_eq!(first.lookup(b"k").unwrap().value, vec![1]);
    assert_eq!(third.lookup(b"k").unwrap().value, vec![3]);
    assert_eq!(first.invalidate(b"k"), Ok(()));
    assert_eq!(third.lookup(b"k").unwrap().value, vec![3]);
}

#[test]
fn a_returned_entry_is_a_copy() {
    let mut tier = L3::new();
    tier.insert(b"k", Entry::new(vec![1, 2, 3], 0, 60 * SEC)).unwrap();
    let mut e = tier.lookup(b"k").unwrap();
    e.value.push(4);
    e.flags = 9;
    let again = tier.lookup(b"k").unwrap();
    assert_eq!(again.value, vec![1, 2, 3]);
    assert_eq!(again.flags, 0);
}
