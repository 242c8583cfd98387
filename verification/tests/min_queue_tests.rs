use bst::min_queue::MinQueue;

#[test]
fn empty_queue() {
    let mut q: MinQueue<i32> = MinQueue::new();
    assert!(q.is_empty());
    assert_eq!(q.len(), 0);
    assert_eq!(q.front(), None);
    assert_eq!(q.min(), None);
    assert_eq!(q.pop(), None);
    let d: MinQueue<i32> = MinQueue::default();
    assert!(d.is_empty());
}

#[test]
fn first_in_first_out() {
    let mut q = MinQueue::new();
    for v in [3, 1, 2] {
        q.push(v);
    }
    assert_eq!(q.len(), 3);
    assert_eq!(q.front(), Some(&3));
    assert_eq!(q.pop(), Some(3));
    assert_eq!(q.front(), Some(&1));
    q.push(5);
    assert_eq!(q.pop(), Some(1));
    assert_eq!(q.pop(), Some(2));
    assert_eq!(q.front(), Some(&5));
    assert_eq!(q.pop(), Some(5));
    assert_eq!(q.pop(), None);
    assert!(q.is_empty());
}

#[test]
fn min_follows_the_contents() {
    let mut q = MinQueue::new();
    q.push(4);
    assert_eq!(q.min(), Some(&4));
    q.push(2);
    assert_eq!(q.min(), Some(&2));
    q.push(7);
    assert_eq!(q.min(), Some(&2));
    assert_eq!(q.pop(), Some(4));
    assert_eq!(q.min(), Some(&2));
    q.push(1);
    assert_eq!(q.min(), Some(&1));
    assert_eq!(q.pop(), Some(2));
    assert_eq!(q.min(), Some(&1));
    assert_eq!(q.pop(), Some(7));
    assert_eq!(q.min(), Some(&1));
    assert_eq!(q.pop(), Some(1));
    assert_eq!(q.min(), None);
}

#[test]
fn min_over_both_stacks() {
    let mut q = MinQueue::new();
    for v in [5, 9, 8] {
        q.push(v);
    }
    assert_eq!(q.pop(), Some(5));
    q.push(6);
    assert_eq!(q.min(), Some(&6));
    assert_eq!(q.len(), 3);
    q.push(10);
    assert_eq!(q.pop(), Some(9));
    assert_eq!(q.min(), Some(&6));
    assert_eq!(q.pop(), Some(8));
    assert_eq!(q.min(), Some(&6));
    assert_eq!(q.front(), Some(&6));
}

#[test]
fn min_against_a_plain_scan() {
    let mut q = MinQueue::new();
    let mut plain: Vec<u64> = Vec::new();
    let mut x: u64 = 12345;
    for step in 0..400 {
        x = x.wrapping_mul(6364136223846793005).wrapping_add(1442695040888963407);
        if step % 3 == 2 {
            let got = q.pop();
            let want = if plain.is_empty() { None } else { Some(plain.remove(0)) };
            assert_eq!(got, want);
        } else {
            let v = (x >> 33) % 50;
            q.push(v);
            plain.push(v);
        }
        assert_eq!(q.len(), plain.len());
        assert_eq!(q.min(), plain.iter().min());
        assert_eq!(q.front(), plain.first());
    }
}
