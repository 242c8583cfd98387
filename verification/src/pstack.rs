use vstd::prelude::*;
use std::rc::Rc;

verus! {

/// `Rc::clone`: a second handle to the allocation that `handle` points to, so both
/// hold the same value.
#[verifier::external_body]
fn share<T>(handle: &Rc<T>) -> (other: Rc<T>)
    ensures
        other == *handle,
{
    Rc::clone(handle)
}

/// A shared handle to a value kept in a stack.
pub struct PRef<T> {
    data: Rc<T>,
}

impl<T> PRef<T> {
    /// The value that the handle points to.
    pub closed spec fn value(self) -> T {
        *self.data
    }
}

impl<T> std::ops::Deref for PRef<T> {
    type Target = T;

    fn deref(&self) -> (v: &T)
        ensures
            *v == self.value(),
    {
        &self.data
    }
}

impl<T> Clone for PRef<T> {
    fn clone(&self) -> (other: Self)
        ensures
            other == *self,
    {
        Self { data: share(&self.data) }
    }
}

/// An immutable stack: pushing and popping make new stacks that share their
/// common part with the old one.
pub struct PStack<T> {
    data: Option<PRef<T>>,
    prev: Option<Rc<PStack<T>>>,
    len: usize,
}

impl<T> View for PStack<T> {
    type V = Seq<T>;

    /// The values from the top of the stack down.
    closed spec fn view(&self) -> Seq<T> {
        self.items()
    }
}

impl<T> Default for PStack<T> {
    fn default() -> (stack: Self)
        ensures
            stack@ == Seq::<T>::empty(),
    {
        Self::new()
    }
}

impl<T> Clone for PStack<T> {
    fn clone(&self) -> (other: Self)
        ensures
            other == *self,
    {
        proof {
            use_type_invariant(self);
        }
        Self {
            data: match &self.data {
                Some(r) => Some(PRef { data: share(&r.data) }),
                None => None,
            },
            prev: match &self.prev {
                Some(p) => Some(share(p)),
                None => None,
            },
            len: self.len,
        }
    }
}

impl<T> PStack<T> {
    spec fn items(self) -> Seq<T>
        decreases self,
    {
        match self.data {
            None => Seq::empty(),
            Some(d) => seq![d.value()] + match self.prev {
                Some(p) => p.items(),
                None => Seq::empty(),
            },
        }
    }

    #[verifier::type_invariant]
    spec fn counted(self) -> bool
        decreases self,
    {
        &&& self.len == self.items().len()
        &&& match self.prev {
            Some(p) => self.data is Some && p.counted(),
            None => true,
        }
    }

    pub fn new() -> (stack: Self)
        ensures
            stack@ == Seq::<T>::empty(),
    {
        Self { data: None, prev: None, len: 0 }
    }

    /// The stack with `value` on top of this one.
    pub fn push(&self, value: T) -> (stack: Self)
        requires
            self@.len() < usize::MAX,
        ensures
            stack@ == seq![value] + self@,
    {
        proof {
            use_type_invariant(self);
        }
        let below = self.clone();
        let new = PStack {
            data: Some(PRef { data: Rc::new(value) }),
            prev: Some(Rc::new(below)),
            len: self.len + 1,
        };
        new
    }

    /// The value on top and the stack below it.
    pub fn pop(&self) -> (popped: Option<(PRef<T>, Self)>)
        ensures
            self@.len() == 0 ==> popped is None,
            self@.len() > 0 ==> popped is Some && popped.unwrap().0.value() == self@[0]
                && popped.unwrap().1@ == self@.drop_first(),
    {
        proof {
            use_type_invariant(self);
        }
        match &self.data {
            Some(data) => {
                let tmp = PRef { data: share(&data.data) };
                let new = match &self.prev {
                    Some(stack) => {
                        let below = (**stack).clone();
                        proof {
                            assert(self@.drop_first() =~= below@);
                        }
                        below
                    },
                    None => {
                        proof {
                            assert(self@.drop_first() =~= Seq::<T>::empty());
                        }
                        PStack::new()
                    },
                };

                Some((tmp, new))
            },
            None => None,
        }
    }

    pub fn len(&self) -> (n: usize)
        ensures
            n == self@.len(),
    {
        proof {
            use_type_invariant(self);
        }
        self.len
    }

    pub fn is_empty(&self) -> (empty: bool)
        ensures
            empty == (self@.len() == 0),
    {
        self.len() == 0
    }

    /// A walk over the values from the top down.
    pub fn iter(&self) -> (walk: PStackIter<T>)
        ensures
            walk.remaining() == self@,
    {
        PStackIter::new(self.clone())
    }
}

/// A walk down a stack.
pub struct PStackIter<T> {
    stack: PStack<T>,
}

impl<T> PStackIter<T> {
    /// The values still to come, the next one first.
    pub closed spec fn remaining(self) -> Seq<T> {
        self.stack@
    }

    pub fn new(stack: PStack<T>) -> (walk: Self)
        ensures
            walk.remaining() == stack@,
    {
        Self { stack }
    }

    /// Hands out the next value, if any is left.
    pub fn next(&mut self) -> (item: Option<PRef<T>>)
        ensures
            old(self).remaining().len() == 0 ==> item is None && final(self).remaining() == old(
                self,
            ).remaining(),
            old(self).remaining().len() > 0 ==> item is Some && item.unwrap().value() == old(
                self,
            ).remaining()[0] && final(self).remaining() == old(self).remaining().drop_first(),
    {
        if self.stack.is_empty() {
            None
        } else {
            let (tmp, new) = self.stack.pop().unwrap();
            self.stack = new;
            Some(tmp)
        }
    }
}

} // verus!
