use olwsx::cache::l1::{L1, MAX_ENTRIES};
use olwsx::cache::{Cache, CacheError, Entry};

const MS: u128 = 1_000_000;
const SEC: u128 = 1_000_000_000;

fn spin_for(nanos: u128) {
    let start = std::time::Instant::now();
    while start.elapsed().as_nanos() <= nanos {
        std::hint::spin_loop();
    }
}

#[test]
fn l1_insert_then_lookup_returns_value_and_flags() {
    let mut t = L1::new();
    t.insert_at(b"a", Entry::new(b"alpha".to_vec(), 0x0002_0001, 60 * SEC), 100).unwrap();
    let e = t.lookup_at(b"a", 100).unwrap();
    assert_eq!(e.value, b"alpha".to_vec());
    assert_eq!(e.flags, 0x0002_0001);
    assert_eq!(e.created_at, 100);
    assert_eq!(e.ttl, 60 * SEC);
    let again = t.lookup_at(b"a", 100 + 60 * SEC).unwrap();
    assert_eq!(again, e);
}

#[test]
fn l1_insert_then_lookup_with_its_own_clock() {
    let mut t = L1::new();
    t.insert(b"a", Entry::new(b"alpha".to_vec(), 5, 60 * SEC)).unwrap();
    let e = t.lookup(b"a").unwrap();
    assert_eq!(e.value, b"alpha".to_vec());
    assert_eq!(e.flags, 5);
    assert!(e.created_at <= t.now());
}

#[test]
fn l1_lookup_of_unknown_key_is_not_found() {
    let mut t = L1::new();
    assert_eq!(t.lookup_at(b"nope", 0), Err(CacheError::NotFound));
    t.insert_at(b"a", Entry::new(vec![1], 0, SEC), 0).unwrap();
    assert_eq!(t.lookup_at(b"b", 0), Err(CacheError::NotFound));
    assert_eq!(t.lookup_at(b"", 0), Err(CacheError::NotFound));
    assert_eq!(t.lookup(b"A"), Err(CacheError::NotFound));
    assert_eq!(t.len(), 1);
}

#[test]
fn l1_keys_are_exact_bytes() {
    let mut t = L1::new();
    t.insert_at(b"Key", Entry::new(vec![1], 0, SEC), 0).unwrap();
    t.insert_at(b"key", Entry::new(vec![2], 0, SEC), 0).unwrap();
    t.insert_at(b"", Entry::new(vec![3], 0, SEC), 0).unwrap();
    assert_eq!(t.lookup_at(b"Key", 0).unwrap().value, vec![1]);
    assert_eq!(t.lookup_at(b"key", 0).unwrap().value, vec![2]);
    assert_eq!(t.lookup_at(b"", 0).unwrap().value, vec![3]);
    assert_eq!(t.lookup_at(b"key ", 0), Err(CacheError::NotFound));
}

#[test]
fn l1_expired_then_not_found() {
    let mut t = L1::new();
    t.insert_at(b"x", Entry::new(b"v".to_vec(), 0, MS), 0).unwrap();
    assert_eq!(t.lookup_at(b"x", MS).unwrap().value, b"v".to_vec());
    assert_eq!(t.lookup_at(b"x", 5 * MS), Err(CacheError::Expired));
    assert_eq!(t.lookup_at(b"x", 5 * MS), Err(CacheError::NotFound));
    assert_eq!(t.len(), 0);
}

#[test]
fn l1_expiration_scenario_with_its_own_clock() {
    let mut t = L1::new();
    t.insert(b"x", Entry::new(b"v".to_vec(), 0, MS)).unwrap();
    spin_for(5 * MS);
    assert_eq!(t.lookup(b"x"), Err(CacheError::Expired));
    assert_eq!(t.lookup(b"x"), Err(CacheError::NotFound));
}

#[test]
fn l1_overwrite_resets_the_timestamp() {
    let mut t = L1::new();
    t.insert_at(b"x", Entry::new(b"old".to_vec(), 1, 10), 0).unwrap();
    t.insert_at(b"x", Entry::new(b"new".to_vec(), 2, 10), 100).unwrap();
    let e = t.lookup_at(b"x", 105).unwrap();
    assert_eq!(e.value, b"new".to_vec());
    assert_eq!(e.flags, 2);
    assert_eq!(e.created_at, 100);
    assert_eq!(t.len(), 1);
}

#[test]
fn l1_evicts_the_oldest_of_1025_keys() {
    let mut t = L1::new();
    let mut i: usize = 0;
    while i < 1025 {
        let key = format!("k{}", i);
        t.insert_at(key.as_bytes(), Entry::new(key.clone().into_bytes(), i as u32, 60 * SEC), 0).unwrap();
        assert!(t.len() <= 1024);
        i += 1;
    }
    assert_eq!(t.len(), MAX_ENTRIES);
    assert_eq!(t.lookup_at(b"k0", 0), Err(CacheError::NotFound));
    let last = t.lookup_at(b"k1024", 0).unwrap();
    assert_eq!(last.value, b"k1024".to_vec());
    assert_eq!(last.flags, 1024);
    assert_eq!(t.lookup_at(b"k1", 0).unwrap().value, b"k1".to_vec());
}

#[test]
fn l1_overwrite_does_not_requeue() {
    let mut t = L1::new();
    let mut i: usize = 0;
    while i < 1024 {
        let key = format!("k{}", i);
        t.insert_at(key.as_bytes(), Entry::new(vec![0], 0, 60 * SEC), 0).unwrap();
        i += 1;
    }
    t.insert_at(b"k0", Entry::new(vec![1], 0, 60 * SEC), 0).unwrap();
    assert_eq!(t.len(), 1024);
    t.insert_at(b"fresh", Entry::new(vec![2], 0, 60 * SEC), 0).unwrap();
    assert_eq!(t.lookup_at(b"k0", 0), Err(CacheError::NotFound));
    assert_eq!(t.lookup_at(b"k1", 0).unwrap().value, vec![0]);
    assert_eq!(t.lookup_at(b"fresh", 0).unwrap().value, vec![2]);
}

#[test]
fn l1_expired_key_keeps_its_place_in_the_history() {
    let mut t = L1::new();
    t.insert_at(b"k0", Entry::new(vec![0], 0, 10), 0).unwrap();
    let mut i: usize = 1;
    while i < 1024 {
        let key = format!("k{}", i);
        t.insert_at(key.as_bytes(), Entry::new(vec![0], 0, 60 * SEC), 0).unwrap();
        i += 1;
    }
    assert_eq!(t.lookup_at(b"k0", 11), Err(CacheError::Expired));
    assert_eq!(t.len(), 1023);
    // The history is still full: the key joins it again and leaves at once,
    // taking the new entry with it.
    t.insert_at(b"k0", Entry::new(vec![7], 0, 60 * SEC), 20).unwrap();
    assert_eq!(t.lookup_at(b"k0", 20), Err(CacheError::NotFound));
    assert_eq!(t.lookup_at(b"k1", 20).unwrap().value, vec![0]);
    assert_eq!(t.len(), 1023);
}

#[test]
fn l1_invalidate_removes_a_present_key() {
    let mut t = L1::new();
    t.insert_at(b"a", Entry::new(vec![1], 0, SEC), 0).unwrap();
    t.insert_at(b"b", Entry::new(vec![2], 0, SEC), 0).unwrap();
    assert_eq!(t.invalidate(b"a"), Ok(()));
    assert_eq!(t.lookup_at(b"a", 0), Err(CacheError::NotFound));
    assert_eq!(t.lookup_at(b"b", 0).unwrap().value, vec![2]);
    assert_eq!(t.len(), 1);
}

#[test]
fn l1_invalidate_of_absent_key_is_not_found() {
    let mut t = L1::new();
    assert_eq!(t.invalidate(b"a"), Err(CacheError::NotFound));
    t.insert_at(b"a", Entry::new(vec![1], 0, 10), 0).unwrap();
    assert_eq!(t.invalidate(b"b"), Err(CacheError::NotFound));
    assert_eq!(t.lookup_at(b"a", 0).unwrap().value, vec![1]);
    assert_eq!(t.invalidate(b"a"), Ok(()));
    assert_eq!(t.invalidate(b"a"), Err(CacheError::NotFound));
    t.insert_at(b"c", Entry::new(vec![1], 0, 10), 0).unwrap();
    assert_eq!(t.lookup_at(b"c", 11), Err(CacheError::Expired));
    assert_eq!(t.invalidate(b"c"), Err(CacheError::NotFound));
}

#[test]
fn l1_invalidate_frees_the_place_in_the_history() {
    let mut t = L1::new();
    let mut i: usize = 0;
    while i < 1024 {
        let key = format!("k{}", i);
        t.insert_at(key.as_bytes(), Entry::new(vec![0], 0, 60 * SEC), 0).unwrap();
        i += 1;
    }
    assert_eq!(t.invalidate(b"k5"), Ok(()));
    t.insert_at(b"fresh", Entry::new(vec![2], 0, 60 * SEC), 0).unwrap();
    assert_eq!(t.lookup_at(b"k0", 0).unwrap().value, vec![0]);
    assert_eq!(t.len(), 1024);
}

#[test]
fn l1_distinct_inserts_in_any_order_are_all_kept() {
    let mut t = L1::new();
    let order: [usize; 8] = [5, 2, 7, 0, 3, 6, 1, 4];
    for i in order.iter() {
        let key = format!("key-{}", i);
        t.insert_at(key.as_bytes(), Entry::new(vec![*i as u8], *i as u32, SEC), *i as u128).unwrap();
    }
    let mut i: usize = 0;
    while i < 8 {
        let key = format!("key-{}", i);
        let e = t.lookup_at(key.as_bytes(), 10).unwrap();
        assert_eq!(e.value, vec![i as u8]);
        assert_eq!(e.flags, i as u32);
        assert_eq!(e.created_at, i as u128);
        i += 1;
    }
    assert_eq!(t.len(), 8);
}
