use vstd::prelude::*;
use std::collections::VecDeque;
use crate::order::{
    key_lt, total_order, less_than_agrees, clone_is_exact, lemma_less_than, lemma_clone,
    lemma_lt_asymmetric, lemma_lt_transitive, lemma_lt_connected, lemma_lt_irreflexive,
};

verus! {

/// A first-in first-out queue that also tells the least value it holds.
///
/// Values are pushed onto one stack and popped from another; each stack entry
/// carries, beside its value, the least value from the bottom of its stack up to it.
pub struct MinQueue<T> {
    s1: VecDeque<(T, T)>,
    s2: VecDeque<(T, T)>,
}

/// The entry `i` of `stack` carries the lesser of its own value and what the entry
/// below it carries; where neither sorts before the other, its own value.
pub open spec fn carries_least<T: Ord>(stack: Seq<(T, T)>, i: int) -> bool {
    stack[i].1 == if i > 0 && key_lt(stack[i - 1].1, stack[i].0) {
        stack[i - 1].1
    } else {
        stack[i].0
    }
}

/// Every entry of `stack` carries the least value of the stack up to it.
pub open spec fn tracks_least<T: Ord>(stack: Seq<(T, T)>) -> bool {
    forall|i: int| 0 <= i < stack.len() ==> #[trigger] carries_least(stack, i)
}

/// `least` occurs among the values of `stack[0..=top]` and none of them sorts before it.
pub open spec fn least_up_to<T: Ord>(stack: Seq<(T, T)>, top: int, least: T) -> bool {
    &&& exists|j: int| 0 <= j <= top && (#[trigger] stack[j]).0 == least
    &&& forall|j: int| 0 <= j <= top ==> !key_lt((#[trigger] stack[j]).0, least)
}

/// What an entry of a tracking stack carries is the least value up to that entry.
pub proof fn lemma_carried_is_least<T: Ord>(stack: Seq<(T, T)>, top: int)
    requires
        total_order::<T>(),
        tracks_least(stack),
        0 <= top < stack.len(),
    ensures
        least_up_to(stack, top, stack[top].1),
    decreases top,
{
    let val = stack[top].0;
    assert(carries_least(stack, top));
    lemma_lt_irreflexive(val);
    if top > 0 {
        lemma_carried_is_least(stack, top - 1);
        let below = stack[top - 1].1;
        let j = choose|j: int| 0 <= j <= top - 1 && (#[trigger] stack[j]).0 == below;
        if key_lt(below, val) {
            assert(stack[j].0 == stack[top].1);
            lemma_lt_asymmetric(below, val);
        } else {
            assert(stack[top].0 == stack[top].1);
            assert forall|j: int| 0 <= j <= top implies !key_lt((#[trigger] stack[j]).0, val) by {
                if j < top && key_lt(stack[j].0, val) {
                    if below != val {
                        lemma_lt_connected(below, val);
                        lemma_lt_transitive(stack[j].0, val, below);
                    }
                }
            }
        }
    } else {
        assert(stack[0].0 == stack[top].1);
    }
}

/// `least` occurs in `s` and nothing in `s` sorts before it.
pub open spec fn is_least<T: Ord>(s: Seq<T>, least: T) -> bool {
    &&& s.contains(least)
    &&& forall|i: int| 0 <= i < s.len() ==> !key_lt(#[trigger] s[i], least)
}

/// What `T` must offer: a total order that `<` agrees with, and exact clones.
pub open spec fn orderly<T: Clone + Ord>() -> bool {
    &&& total_order::<T>()
    &&& less_than_agrees::<T>()
    &&& clone_is_exact::<T>()
}

impl<T: Clone + Ord> View for MinQueue<T> {
    type V = Seq<T>;

    /// The queued values, the oldest first.
    closed spec fn view(&self) -> Seq<T> {
        Seq::new(
            self.s2@.len() + self.s1@.len(),
            |i: int|
                if i < self.s2@.len() {
                    self.s2@[self.s2@.len() - 1 - i].0
                } else {
                    self.s1@[i - self.s2@.len()].0
                },
        )
    }
}

impl<T: Clone + Ord> Default for MinQueue<T> {
    fn default() -> (q: Self)
        ensures
            q@ == Seq::<T>::empty(),
            q.well_formed(),
    {
        Self::new()
    }
}

impl<T: Clone + Ord> MinQueue<T> {
    /// Both stacks carry their least values.
    pub closed spec fn well_formed(self) -> bool {
        &&& tracks_least(self.s1@)
        &&& tracks_least(self.s2@)
    }

    pub fn new() -> (q: Self)
        ensures
            q@ == Seq::<T>::empty(),
            q.well_formed(),
    {
        let q = MinQueue { s1: VecDeque::new(), s2: VecDeque::new() };
        proof {
            assert(q@ =~= Seq::<T>::empty());
        }
        q
    }

    /// Appends `val` at the back.
    pub fn push(&mut self, val: T)
        requires
            orderly::<T>(),
            old(self).well_formed(),
        ensures
            final(self).well_formed(),
            final(self)@ == old(self)@.push(val),
    {
        let ghost before = self.s1@;
        let mut min = val.clone();
        proof {
            lemma_clone(val, min);
        }
        if self.s1.len() != 0 {
            let top = &self.s1[self.s1.len() - 1].1;
            proof {
                lemma_less_than(*top, min);
            }
            if *top < min {
                min = top.clone();
                proof {
                    lemma_clone(*top, min);
                }
            }
        }
        self.s1.push_back((val, min));
        proof {
            assert forall|i: int| 0 <= i < self.s1@.len() implies #[trigger] carries_least(
                self.s1@,
                i,
            ) by {
                if i < before.len() {
                    assert(carries_least(before, i));
                }
            }
            assert(self@ =~= old(self)@.push(val));
        }
    }

    /// Takes the oldest value out.
    pub fn pop(&mut self) -> (front: Option<T>)
        requires
            orderly::<T>(),
            old(self).well_formed(),
        ensures
            final(self).well_formed(),
            old(self)@.len() == 0 ==> front is None && final(self)@ == old(self)@,
            old(self)@.len() > 0 ==> front == Some(old(self)@[0]) && final(self)@ == old(
                self,
            )@.drop_first(),
    {
        if self.s2.len() == 0 {
            let ghost queued = self@;
            while self.s1.len() != 0
                invariant
                    orderly::<T>(),
                    self.well_formed(),
                    self.s1@.len() + self.s2@.len() == queued.len(),
                    forall|i: int| 0 <= i < self.s1@.len() ==> (#[trigger] self.s1@[i]).0 == queued[i],
                    forall|i: int|
                        0 <= i < self.s2@.len() ==> (#[trigger] self.s2@[i]).0 == queued[queued.len()
                            - 1 - i],
                decreases self.s1@.len(),
            {
                let ghost from = self.s1@;
                let ghost onto = self.s2@;
                let el = self.s1.pop_back().unwrap().0;
                let mut min = el.clone();
                proof {
                    lemma_clone(el, min);
                }
                if self.s2.len() != 0 {
                    let tmp = self.s2[self.s2.len() - 1].1.clone();
                    proof {
                        lemma_clone(onto[onto.len() - 1].1, tmp);
                        lemma_less_than(tmp, min);
                    }
                    if tmp < min {
                        min = tmp;
                    }
                }
                self.s2.push_back((el, min));
                proof {
                    assert forall|i: int| 0 <= i < self.s1@.len() implies #[trigger] carries_least(
                        self.s1@,
                        i,
                    ) by {
                        assert(carries_least(from, i));
                    }
                    assert forall|i: int| 0 <= i < self.s2@.len() implies #[trigger] carries_least(
                        self.s2@,
                        i,
                    ) by {
                        if i < onto.len() {
                            assert(carries_least(onto, i));
                        }
                    }
                }
            }
            proof {
                assert(self@ =~= queued);
            }
        }
        let ghost from = self.s2@;
        let ghost view = self@;
        if let Some(res) = self.s2.pop_back() {
            proof {
                assert forall|i: int| 0 <= i < self.s2@.len() implies #[trigger] carries_least(
                    self.s2@,
                    i,
                ) by {
                    assert(carries_least(from, i));
                }
                assert(self@ =~= view.drop_first());
            }
            Some(res.0)
        } else {
            None
        }
    }

    /// The oldest value.
    pub fn front(&self) -> (front: Option<&T>)
        ensures
            self@.len() == 0 ==> front is None,
            self@.len() > 0 ==> front == Some(&self@[0]),
    {
        if self.is_empty() {
            return None;
        }
        if self.s2.len() == 0 {
            Some(&self.s1[0].0)
        } else {
            Some(&self.s2[self.s2.len() - 1].0)
        }
    }

    /// The least of the queued values.
    pub fn min(&self) -> (least: Option<&T>)
        requires
            orderly::<T>(),
            self.well_formed(),
        ensures
            self@.len() == 0 ==> least is None,
            self@.len() > 0 ==> least is Some && is_least(self@, *least.unwrap()),
    {
        let n1 = self.s1.len();
        let n2 = self.s2.len();
        if n1 != 0 && n2 != 0 {
            let a = &self.s1[n1 - 1].1;
            let b = &self.s2[n2 - 1].1;
            proof {
                lemma_less_than(*b, *a);
                lemma_carried_is_least(self.s1@, n1 - 1);
                lemma_carried_is_least(self.s2@, n2 - 1);
                let ja = choose|j: int| 0 <= j <= n1 - 1 && (#[trigger] self.s1@[j]).0 == *a;
                let jb = choose|j: int| 0 <= j <= n2 - 1 && (#[trigger] self.s2@[j]).0 == *b;
                assert(self@[n2 + ja] == *a);
                assert(self@[n2 - 1 - jb] == *b);
                if key_lt(*b, *a) {
                    assert forall|i: int| 0 <= i < self@.len() implies !key_lt(
                        #[trigger] self@[i],
                        *b,
                    ) by {
                        if i < n2 {
                            assert(self@[i] == self.s2@[n2 - 1 - i].0);
                        } else {
                            assert(self@[i] == self.s1@[i - n2].0);
                            if key_lt(self@[i], *b) {
                                lemma_lt_transitive(self@[i], *b, *a);
                            }
                        }
                    }
                } else {
                    assert forall|i: int| 0 <= i < self@.len() implies !key_lt(
                        #[trigger] self@[i],
                        *a,
                    ) by {
                        if i < n2 {
                            assert(self@[i] == self.s2@[n2 - 1 - i].0);
                            if key_lt(self@[i], *a) {
                                if *a != *b {
                                    lemma_lt_connected(*a, *b);
                                    lemma_lt_transitive(self@[i], *a, *b);
                                }
                            }
                        } else {
                            assert(self@[i] == self.s1@[i - n2].0);
                        }
                    }
                }
            }
            return Some(if *b < *a { b } else { a });
        }
        if n1 != 0 {
            let a = &self.s1[n1 - 1].1;
            proof {
                lemma_carried_is_least(self.s1@, n1 - 1);
                let ja = choose|j: int| 0 <= j <= n1 - 1 && (#[trigger] self.s1@[j]).0 == *a;
                assert(self@[ja] == *a);
                assert forall|i: int| 0 <= i < self@.len() implies !key_lt(#[trigger] self@[i], *a) by {
                    assert(self@[i] == self.s1@[i].0);
                }
            }
            return Some(a);
        }
        if n2 != 0 {
            let b = &self.s2[n2 - 1].1;
            proof {
                lemma_carried_is_least(self.s2@, n2 - 1);
                let jb = choose|j: int| 0 <= j <= n2 - 1 && (#[trigger] self.s2@[j]).0 == *b;
                assert(self@[n2 - 1 - jb] == *b);
                assert forall|i: int| 0 <= i < self@.len() implies !key_lt(#[trigger] self@[i], *b) by {
                    assert(self@[i] == self.s2@[n2 - 1 - i].0);
                }
            }
            return Some(b);
        }
        None
    }

    pub fn len(&self) -> (n: usize)
        requires
            self@.len() <= usize::MAX,
        ensures
            n == self@.len(),
    {
        self.s1.len() + self.s2.len()
    }

    pub fn is_empty(&self) -> (empty: bool)
        ensures
            empty == (self@.len() == 0),
    {
        self.s1.len() == 0 && self.s2.len() == 0
    }
}

} // verus!
