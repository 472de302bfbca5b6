use early_alloc::hash::{HashMap, SimpleHasher};

#[test]
fn insert_and_get() {
    let mut m: HashMap<u32> = HashMap::new();
    assert_eq!(m.get(&1), None);
    m.insert(1, 10);
    m.insert(2, 20);
    assert_eq!(m.get(&1), Some(&10));
    assert_eq!(m.get(&2), Some(&20));
    assert_eq!(m.get(&3), None);
}

#[test]
fn insert_replaces_existing_value() {
    let mut m: HashMap<u32> = HashMap::new();
    m.insert(7, 1);
    m.insert(7, 2);
    assert_eq!(m.get(&7), Some(&2));
    let pairs = m.iter();
    assert_eq!(pairs.len(), 1);
    assert_eq!(pairs[0], (7, 2));
}

#[test]
fn growth_through_resize_keeps_entries() {
    let mut m: HashMap<u64> = HashMap::new();
    // Well past count > 2 * 16, so at least one doubling happens.
    for k in 0..100u64 {
        m.insert(k, k * k);
    }
    for k in 0..100u64 {
        assert_eq!(m.get(&k), Some(&(k * k)));
    }
    assert_eq!(m.get(&100), None);
}

#[test]
fn single_bucket_chains_collisions() {
    let mut m: HashMap<u8> = HashMap::with_capacity(1);
    m.insert(0, 0);
    m.insert(1, 1);
    m.insert(2, 2);
    assert_eq!(m.get(&0), Some(&0));
    assert_eq!(m.get(&1), Some(&1));
    assert_eq!(m.get(&2), Some(&2));
}

#[test]
fn iter_returns_every_pair() {
    let mut m: HashMap<u64> = HashMap::new();
    for k in 0..10u64 {
        m.insert(k, 1000 + k);
    }
    let mut pairs = m.iter();
    pairs.sort();
    let expected: Vec<(u64, u64)> = (0..10u64).map(|k| (k, 1000 + k)).collect();
    assert_eq!(pairs, expected);
}

#[test]
fn hasher_folds_bytes() {
    let mut h = SimpleHasher::new(12345);
    assert_eq!(h.finish(), 0);
    h.write(&[1, 2]);
    // 31 * (31 * 0 + 1) + 2
    assert_eq!(h.finish(), 33);
    h.write(&[0]);
    assert_eq!(h.finish(), 33 * 31);
}

#[test]
fn hasher_seed_does_not_change_the_fold() {
    let mut h1 = SimpleHasher::new(0);
    let mut h2 = SimpleHasher::new(u64::MAX);
    h1.write(&[9, 8, 7]);
    h2.write(&[9, 8, 7]);
    assert_eq!(h1.finish(), h2.finish());
}

#[test]
fn hasher_wraps_modulo_two_to_the_64() {
    let mut h = SimpleHasher::new(0);
    h.write(&[0xff; 16]);
    let mut expected: u64 = 0;
    for _ in 0..16 {
        expected = expected.wrapping_mul(31).wrapping_add(0xff);
    }
    assert_eq!(h.finish(), expected);
}
