use bst::lru_cache::LRUCache;

#[test]
fn stores_and_finds() {
    let mut c = LRUCache::new(2);
    assert_eq!(c.insert(1, "one"), None);
    assert_eq!(c.insert(2, "two"), None);
    assert_eq!(c.get(&1), Some(&"one"));
    assert_eq!(c.get(&2), Some(&"two"));
    assert_eq!(c.get(&3), None);
}

#[test]
fn replaces_a_cached_value() {
    let mut c = LRUCache::new(2);
    assert_eq!(c.insert(1, 10), None);
    assert_eq!(c.insert(1, 11), Some(10));
    assert_eq!(c.get(&1), Some(&11));
    assert_eq!(c.insert(2, 20), None);
    assert_eq!(c.get(&1), Some(&11));
    assert_eq!(c.get(&2), Some(&20));
}

#[test]
fn drives_out_the_longest_unused() {
    let mut c = LRUCache::new(2);
    c.insert(1, 1);
    c.insert(2, 2);
    c.insert(3, 3);
    assert_eq!(c.get(&1), None);
    assert_eq!(c.get(&2), Some(&2));
    assert_eq!(c.get(&3), Some(&3));
}

#[test]
fn a_lookup_counts_as_a_use() {
    let mut c = LRUCache::new(2);
    c.insert(1, 1);
    c.insert(2, 2);
    assert_eq!(c.get(&1), Some(&1));
    c.insert(3, 3);
    assert_eq!(c.get(&2), None);
    assert_eq!(c.get(&1), Some(&1));
    assert_eq!(c.get(&3), Some(&3));
}

#[test]
fn a_replacement_counts_as_a_use() {
    let mut c = LRUCache::new(2);
    c.insert("a", 1);
    c.insert("b", 2);
    assert_eq!(c.insert("a", 3), Some(1));
    c.insert("c", 4);
    assert_eq!(c.get(&"b"), None);
    assert_eq!(c.get(&"a"), Some(&3));
    assert_eq!(c.get(&"c"), Some(&4));
}

#[test]
fn a_failed_lookup_is_no_use() {
    let mut c = LRUCache::new(1);
    c.insert(1, 1);
    assert_eq!(c.get(&2), None);
    assert_eq!(c.get(&1), Some(&1));
    c.insert(2, 2);
    assert_eq!(c.get(&1), None);
    assert_eq!(c.get(&2), Some(&2));
}

#[test]
fn long_run_against_a_plain_list() {
    let mut c = LRUCache::new(3);
    let mut plain: Vec<(u64, u64)> = Vec::new();
    let mut x: u64 = 99;
    for step in 0..500u64 {
        x = x.wrapping_mul(6364136223846793005).wrapping_add(1442695040888963407);
        let k = (x >> 40) % 6;
        if step % 2 == 0 {
            let want = plain.iter().position(|e| e.0 == k).map(|i| plain.remove(i));
            assert_eq!(c.get(&k), want.as_ref().map(|e| &e.1));
            if let Some(e) = want {
                plain.push(e);
            }
        } else {
            let had = plain.iter().position(|e| e.0 == k).map(|i| plain.remove(i).1);
            if had.is_none() && plain.len() == 3 {
                plain.remove(0);
            }
            plain.push((k, step));
            assert_eq!(c.insert(k, step), had);
        }
    }
}
