use olwsx::cache::l3::L3;
use olwsx::cache::{Cache, CacheError, Entry};

const MS: u128 = 1_000_000;
const SEC: u128 = 1_000_000_000;

fn wait_out(nanos: u128) {
    let start = std::time::Instant::now();
    while start.elapsed().as_nanos() <= nanos {
        std::hint::spin_loop();
    }
}

#[test]
fn l3_insert_then_lookup_returns_value_and_flags() {
    let mut t = L3::new();
    t.insert_at(b"a", Entry::new(b"alpha".to_vec(), 0x0008_0000, 60 * SEC), 7).unwrap();
    let e = t.lookup_at(b"a", 8).unwrap();
    assert_eq!(e.value, b"alpha".to_vec());
    assert_eq!(e.flags, 0x0008_0000);
    assert_eq!(e.created_at, 7);
    let mut u = L3::new();
    u.insert(b"a", Entry::new(b"beta".to_vec(), 1, 60 * SEC)).unwrap();
    assert_eq!(u.lookup(b"a").unwrap().value, b"beta".to_vec());
    assert!(u.now() >= u.lookup(b"a").unwrap().created_at);
}

#[test]
fn l3_lookup_of_unknown_key_is_not_found() {
    let mut t = L3::new();
    assert_eq!(t.lookup_at(b"nope", 0), Err(CacheError::NotFound));
    assert_eq!(t.lookup(b"nope"), Err(CacheError::NotFound));
    assert_eq!(t.len(), 0);
}

#[test]
fn l3_expired_then_not_found() {
    let mut t = L3::new();
    t.insert_at(b"x", Entry::new(b"v".to_vec(), 0, MS), 0).unwrap();
    assert_eq!(t.lookup_at(b"x", 5 * MS), Err(CacheError::Expired));
    assert_eq!(t.lookup_at(b"x", 5 * MS), Err(CacheError::NotFound));
}

#[test]
fn l3_expiration_scenario_with_its_own_clock() {
    let mut t = L3::new();
    t.insert(b"x", Entry::new(b"v".to_vec(), 0, MS)).unwrap();
    wait_out(5 * MS);
    assert_eq!(t.lookup(b"x"), Err(CacheError::Expired));
    assert_eq!(t.lookup(b"x"), Err(CacheError::NotFound));
}

#[test]
fn l3_invalidate_present_and_absent() {
    let mut t = L3::new();
    assert_eq!(t.invalidate(b"a"), Err(CacheError::NotFound));
    t.insert_at(b"a", Entry::new(vec![1], 0, SEC), 0).unwrap();
    t.insert_at(b"b", Entry::new(vec![2], 0, SEC), 0).unwrap();
    assert_eq!(t.invalidate(b"a"), Ok(()));
    assert_eq!(t.lookup_at(b"a", 0), Err(CacheError::NotFound));
    assert_eq!(t.invalidate(b"a"), Err(CacheError::NotFound));
    assert_eq!(t.lookup_at(b"b", 0).unwrap().value, vec![2]);
    assert_eq!(t.len(), 1);
}

#[test]
fn l3_holds_more_than_the_other_tiers_cap() {
    let mut t = L3::new();
    let mut i: usize = 0;
    while i < 3000 {
        let key = format!("k{}", i);
        t.insert_at(key.as_bytes(), Entry::new(vec![(i % 251) as u8], 0, SEC), 0).unwrap();
        i += 1;
    }
    assert_eq!(t.len(), 3000);
    assert_eq!(t.lookup_at(b"k0", 0).unwrap().value, vec![0]);
    assert_eq!(t.lookup_at(b"k2999", 0).unwrap().value, vec![(2999 % 251) as u8]);
}

#[test]
fn l3_accepts_large_values() {
    let mut t = L3::new();
    let big = vec![0u8; 65 * 1024 * 1024];
    assert_eq!(t.insert_at(b"big", Entry::new(big, 0, 60 * SEC), 0), Ok(()));
    assert_eq!(t.lookup_at(b"big", 0).unwrap().value.len(), 65 * 1024 * 1024);
}
