use bst::node::Node;
use bst::tree::AVLTreeMap;

fn keys_in_order(map: &AVLTreeMap<i32, i32>) -> Vec<i32> {
    let mut keys = Vec::new();
    for i in 0..map.len() {
        let (k, _) = map.nth_key_value(i).unwrap();
        keys.push(*k);
    }
    keys
}

fn true_height(node: &Option<Box<Node<i32, i32>>>) -> usize {
    match node {
        None => 0,
        Some(n) => 1 + true_height(&n.left).max(true_height(&n.right)),
    }
}

fn true_count(node: &Option<Box<Node<i32, i32>>>) -> usize {
    match node {
        None => 0,
        Some(n) => 1 + true_count(&n.left) + true_count(&n.right),
    }
}

fn collect(node: &Option<Box<Node<i32, i32>>>, out: &mut Vec<i32>) {
    if let Some(n) = node {
        collect(&n.left, out);
        out.push(n.key);
        collect(&n.right, out);
    }
}

fn check_node(n: &Node<i32, i32>) {
    let mut left = Vec::new();
    collect(&n.left, &mut left);
    let mut right = Vec::new();
    collect(&n.right, &mut right);
    assert!(left.iter().all(|k| *k < n.key));
    assert!(right.iter().all(|k| n.key < *k));
    let hl = true_height(&n.left);
    let hr = true_height(&n.right);
    assert!(hl <= hr + 1 && hr <= hl + 1);
    assert_eq!(n.height, 1 + hl.max(hr));
    assert_eq!(n.nodes_count, 1 + true_count(&n.left) + true_count(&n.right));
    if let Some(l) = &n.left {
        check_node(l);
    }
    if let Some(r) = &n.right {
        check_node(r);
    }
}

fn check_map(map: &AVLTreeMap<i32, i32>) {
    match map.root() {
        Some(n) => {
            check_node(n);
            assert_eq!(map.len(), n.nodes_count);
        }
        None => assert_eq!(map.len(), 0),
    }
}

fn root_height(map: &AVLTreeMap<i32, i32>) -> usize {
    match map.root() {
        Some(n) => n.height,
        None => 0,
    }
}

#[test]
fn node_new_is_a_leaf() {
    let n = Node::new(7, "seven");
    assert_eq!(*n.key(), 7);
    assert_eq!(*n.value(), "seven");
    assert_eq!(n.height, 1);
    assert_eq!(n.nodes_count, 1);
    assert!(n.left.is_none());
    assert!(n.right.is_none());
}

#[test]
fn new_map_is_empty() {
    let map: AVLTreeMap<i32, i32> = AVLTreeMap::new();
    assert!(map.is_empty());
    assert_eq!(map.len(), 0);
    assert!(map.root().is_none());
    assert_eq!(map.get(&1), None);
    assert_eq!(map.nth_key_value(0), None);
    let other: AVLTreeMap<i32, i32> = AVLTreeMap::default();
    assert!(other.is_empty());
}

#[test]
fn mixed_inserts_come_out_in_order() {
    let mut map = AVLTreeMap::new();
    for k in [5, 3, 8, 1, 4, 7, 9] {
        assert_eq!(map.insert(k, k * 10), None);
        check_map(&map);
    }
    assert_eq!(keys_in_order(&map), vec![1, 3, 4, 5, 7, 8, 9]);
    assert_eq!(map.len(), 7);
    assert!(root_height(&map) <= 5);
    assert_eq!(root_height(&map), 3);
}

#[test]
fn upsert_returns_previous_value() {
    let mut map = AVLTreeMap::new();
    assert_eq!(map.insert("a", 1), None);
    assert_eq!(map.insert("a", 2), Some(1));
    assert_eq!(map.get(&"a"), Some(&2));
    assert_eq!(map.len(), 1);
}

#[test]
fn upsert_keeps_the_shape() {
    let mut map = AVLTreeMap::new();
    for k in [4, 2, 6, 1, 3, 5, 7] {
        map.insert(k, 0);
    }
    let mut before = Vec::new();
    let top = map.root().unwrap();
    before.push((top.key, top.height, top.nodes_count));
    before.push((top.left.as_ref().unwrap().key, top.left.as_ref().unwrap().height, 3));
    assert_eq!(map.insert(3, 33), Some(0));
    let top = map.root().unwrap();
    assert_eq!((top.key, top.height, top.nodes_count), before[0]);
    assert_eq!(top.left.as_ref().unwrap().key, before[1].0);
    assert_eq!(top.left.as_ref().unwrap().right.as_ref().unwrap().key, 3);
    assert_eq!(top.left.as_ref().unwrap().right.as_ref().unwrap().value, 33);
    assert_eq!(map.len(), 7);
    check_map(&map);
}

#[test]
fn remove_on_empty_map() {
    let mut map: AVLTreeMap<&str, i32> = AVLTreeMap::new();
    assert_eq!(map.remove(&"x"), None);
    assert_eq!(map.len(), 0);
    assert!(map.is_empty());
    assert_eq!(map.remove_entry(&"x"), None);
}

#[test]
fn ascending_inserts_stay_shallow() {
    let mut map = AVLTreeMap::new();
    for k in [10, 20, 30, 40, 50] {
        map.insert(k, 0);
        check_map(&map);
    }
    assert!(root_height(&map) <= 3);
    assert_eq!(true_height(&map.root().unwrap().left) + 1, 2);
    assert_eq!(map.root().unwrap().key, 20);
    assert_eq!(keys_in_order(&map), vec![10, 20, 30, 40, 50]);
}

#[test]
fn descending_inserts_stay_shallow() {
    let mut map = AVLTreeMap::new();
    for k in (1..=100).rev() {
        map.insert(k, 0);
        check_map(&map);
    }
    assert_eq!(map.len(), 100);
    assert!(root_height(&map) <= 8);
}

#[test]
fn positional_lookup() {
    let mut map = AVLTreeMap::new();
    for k in 1..=7 {
        map.insert(k, k + 100);
    }
    assert_eq!(map.nth_key_value(0), Some((&1, &101)));
    assert_eq!(map.nth_key_value(6), Some((&7, &107)));
    assert_eq!(map.nth_key_value(7), None);
    assert_eq!(map.nth_key_value(8), None);
    assert_eq!(map.nth_key_value(3), Some((&4, &104)));
}

#[test]
fn positions_are_strictly_increasing() {
    let mut map = AVLTreeMap::new();
    for k in [50, 20, 80, 10, 30, 70, 90, 25, 35, 60] {
        map.insert(k, -k);
    }
    let keys = keys_in_order(&map);
    assert_eq!(keys.len(), map.len());
    for w in keys.windows(2) {
        assert!(w[0] < w[1]);
    }
    let mut walked = Vec::new();
    let top = map.root().unwrap();
    collect(&top.left, &mut walked);
    walked.push(top.key);
    collect(&top.right, &mut walked);
    assert_eq!(keys, walked);
}

#[test]
fn remove_root_splices_successor() {
    let mut map = AVLTreeMap::new();
    map.insert(2, 20);
    map.insert(1, 10);
    map.insert(3, 30);
    let top = map.root().unwrap();
    assert_eq!(top.key, 2);
    assert_eq!(top.left.as_ref().unwrap().key, 1);
    assert_eq!(top.right.as_ref().unwrap().key, 3);
    assert_eq!(map.remove(&2), Some(20));
    let top = map.root().unwrap();
    assert_eq!(top.key, 3);
    assert_eq!(top.value, 30);
    assert_eq!(top.left.as_ref().unwrap().key, 1);
    assert!(top.right.is_none());
    assert_eq!(map.len(), 2);
    check_map(&map);
}

#[test]
fn remove_node_without_right_child() {
    let mut map = AVLTreeMap::new();
    map.insert(2, 20);
    map.insert(1, 10);
    assert_eq!(map.remove_entry(&2), Some((2, 20)));
    let top = map.root().unwrap();
    assert_eq!(top.key, 1);
    assert_eq!(top.height, 1);
    assert!(top.left.is_none() && top.right.is_none());
}

#[test]
fn remove_only_key_empties_the_map() {
    let mut map = AVLTreeMap::new();
    map.insert(1, 1);
    assert_eq!(map.remove(&1), Some(1));
    assert!(map.is_empty());
    assert!(map.root().is_none());
}

#[test]
fn remove_absent_key_changes_nothing() {
    let mut map = AVLTreeMap::new();
    for k in [5, 3, 8, 1, 4] {
        map.insert(k, k);
    }
    let before = keys_in_order(&map);
    let top_before = map.root().unwrap().key;
    assert_eq!(map.remove(&6), None);
    assert_eq!(map.remove_entry(&0), None);
    assert_eq!(map.len(), 5);
    assert_eq!(keys_in_order(&map), before);
    assert_eq!(map.root().unwrap().key, top_before);
    check_map(&map);
}

#[test]
fn insert_then_remove_everything() {
    let keys = [13, 2, 21, 8, 1, 34, 5, 3, 55, 89, 144, 0];
    let orders: [[usize; 12]; 3] = [
        [0, 1, 2, 3, 4, 5, 6, 7, 8, 9, 10, 11],
        [11, 10, 9, 8, 7, 6, 5, 4, 3, 2, 1, 0],
        [5, 0, 7, 11, 2, 9, 1, 4, 10, 3, 8, 6],
    ];
    for order in orders {
        let mut map = AVLTreeMap::new();
        for k in keys {
            assert_eq!(map.insert(k, k * 2), None);
        }
        assert_eq!(map.len(), 12);
        let mut left = 12;
        for i in order {
            assert_eq!(map.remove(&keys[i]), Some(keys[i] * 2));
            left -= 1;
            assert_eq!(map.len(), left);
            check_map(&map);
        }
        assert!(map.is_empty());
    }
}

#[test]
fn removals_rebalance() {
    let mut map = AVLTreeMap::new();
    for k in 1..=64 {
        map.insert(k, k);
    }
    for k in 1..=48 {
        assert_eq!(map.remove_entry(&k), Some((k, k)));
        check_map(&map);
    }
    assert_eq!(map.len(), 16);
    assert!(root_height(&map) <= 5);
    assert_eq!(keys_in_order(&map), (49..=64).collect::<Vec<i32>>());
}

#[test]
fn lookups_find_what_was_stored() {
    let mut map = AVLTreeMap::new();
    for k in [5, 3, 8] {
        map.insert(k, k * 11);
    }
    assert_eq!(map.get(&3), Some(&33));
    assert_eq!(map.get(&4), None);
    assert_eq!(map.get_key_value(&8), Some((&8, &88)));
    assert_eq!(map.get_key_value(&9), None);
    assert!(map.contains_key(&5));
    assert!(!map.contains_key(&6));
    assert!(!map.is_empty());
}

#[test]
fn double_rotations() {
    let mut map = AVLTreeMap::new();
    for k in [10, 30, 20] {
        map.insert(k, 0);
    }
    let top = map.root().unwrap();
    assert_eq!(top.key, 20);
    assert_eq!(top.left.as_ref().unwrap().key, 10);
    assert_eq!(top.right.as_ref().unwrap().key, 30);
    assert_eq!(top.height, 2);
    assert_eq!(top.nodes_count, 3);

    let mut map = AVLTreeMap::new();
    for k in [30, 10, 20] {
        map.insert(k, 0);
    }
    let top = map.root().unwrap();
    assert_eq!(top.key, 20);
    assert_eq!(top.left.as_ref().unwrap().key, 10);
    assert_eq!(top.right.as_ref().unwrap().key, 30);
}
