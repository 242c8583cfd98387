use bst::pstack::{PStack, PStackIter};

#[test]
fn empty_stack() {
    let s: PStack<i32> = PStack::new();
    assert!(s.is_empty());
    assert_eq!(s.len(), 0);
    assert!(s.pop().is_none());
    assert!(s.iter().next().is_none());
    let d: PStack<i32> = PStack::default();
    assert!(d.is_empty());
}

#[test]
fn push_leaves_the_old_stack_alone() {
    let empty = PStack::new();
    let one = empty.push(1);
    let two = one.push(2);
    let other = one.push(3);
    assert_eq!(empty.len(), 0);
    assert_eq!(one.len(), 1);
    assert_eq!(two.len(), 2);
    assert_eq!(other.len(), 2);
    let (top, rest) = two.pop().unwrap();
    assert_eq!(*top, 2);
    assert_eq!(rest.len(), 1);
    let (top, _) = other.pop().unwrap();
    assert_eq!(*top, 3);
    let (top, rest) = one.pop().unwrap();
    assert_eq!(*top, 1);
    assert!(rest.is_empty());
    assert!(!two.is_empty());
}

#[test]
fn walk_goes_from_the_top_down() {
    let mut s = PStack::new();
    for v in 0..5 {
        s = s.push(v);
    }
    let mut walk = s.iter();
    let mut seen = Vec::new();
    while let Some(v) = walk.next() {
        seen.push(*v);
    }
    assert_eq!(seen, vec![4, 3, 2, 1, 0]);
    assert!(walk.next().is_none());
    assert_eq!(s.len(), 5);
}

#[test]
fn walk_made_from_a_stack() {
    let s = PStack::new().push("a").push("b");
    let mut walk = PStackIter::new(s.clone());
    assert_eq!(*walk.next().unwrap(), "b");
    assert_eq!(*walk.next().unwrap(), "a");
    assert!(walk.next().is_none());
    assert_eq!(s.len(), 2);
}

#[test]
fn handles_share_the_value() {
    let s = PStack::new().push(String::from("shared"));
    let (a, _) = s.pop().unwrap();
    let b = a.clone();
    assert_eq!(*a, "shared");
    assert_eq!(*b, "shared");
    assert!(std::ptr::eq(&*a, &*b));
}

#[test]
fn clone_is_the_same_stack() {
    let s = PStack::new().push(1).push(2).push(3);
    let c = s.clone();
    assert_eq!(c.len(), 3);
    let mut a = s.iter();
    let mut b = c.iter();
    for _ in 0..3 {
        assert_eq!(*a.next().unwrap(), *b.next().unwrap());
    }
}
