use vstd::prelude::*;
use std::cmp::Ordering;
use crate::node::{
    Node, subtree_height, subtree_count, subtree_entries, subtree_map, subtree_cached,
    subtree_ordered, subtree_balanced, subtree_wf, subtree_with_value,
};
use crate::height::{lemma_height_le_count, lemma_height_bound};
use crate::order::{
    key_lt, total_order, lemma_compare, lemma_lt_asymmetric, lemma_lt_irreflexive,
    lemma_lt_transitive,
};
use crate::shape::{
    refreshed, rotated_left, rotated_right, rebalanced, subtree_inserted, without_least,
    subtree_removed, nearly_balanced, lemma_rebalanced, lemma_rotated_left, lemma_rotated_right,
    lemma_entries_len, lemma_map_count,
};

verus! {

/// An ordered map kept as a height-balanced binary search tree.
pub struct AVLTreeMap<K: Ord, V> {
    root: Option<Box<Node<K, V>>>,
}

impl<K: Ord, V> View for AVLTreeMap<K, V> {
    type V = Map<K, V>;

    /// The stored entries as a map from key to value.
    open spec fn view(&self) -> Map<K, V> {
        subtree_map(self.tree())
    }
}

impl<K: Ord, V> Default for AVLTreeMap<K, V> {
    fn default() -> (map: Self)
        ensures
            map.tree() is None,
            map@ == Map::<K, V>::empty(),
            map.well_formed(),
    {
        Self::new()
    }
}

impl<K: Ord, V> AVLTreeMap<K, V> {
    #[verifier::type_invariant]
    spec fn inv(self) -> bool {
        subtree_wf(self.root)
    }

    /// The tree that stores the entries.
    pub closed spec fn tree(self) -> Option<Box<Node<K, V>>> {
        self.root
    }

    /// The stored tree is a search tree, is height-balanced, and caches exact
    /// heights and sizes.
    pub open spec fn well_formed(self) -> bool {
        subtree_wf(self.tree())
    }

    /// The entries in increasing key order.
    pub open spec fn entries(self) -> Seq<(K, V)> {
        subtree_entries(self.tree())
    }

    pub fn new() -> (map: Self)
        ensures
            map.tree() is None,
            map@ == Map::<K, V>::empty(),
            map.well_formed(),
    {
        Self { root: None }
    }

    /// The node at the top of the stored tree.
    pub fn root(&self) -> (top: Option<&Node<K, V>>)
        ensures
            top == match self.tree() {
                Some(node) => Some(&*node),
                None => None,
            },
            self.well_formed(),
    {
        proof {
            use_type_invariant(self);
        }
        match &self.root {
            Some(node) => Some(&**node),
            None => None,
        }
    }

    /// The number of entries.
    pub fn len(&self) -> (n: usize)
        ensures
            n == self.entries().len(),
            total_order::<K>() ==> n == self@.len(),
            self.well_formed(),
    {
        proof {
            use_type_invariant(self);
            lemma_entries_len(self.root);
            if total_order::<K>() {
                lemma_map_count(self.root);
            }
        }
        match &self.root {
            Some(node) => node.nodes_count,
            None => 0,
        }
    }

    pub fn is_empty(&self) -> (empty: bool)
        ensures
            empty == (self.tree() is None),
            empty == (self.entries().len() == 0),
            empty == (self@ == Map::<K, V>::empty()),
            self.well_formed(),
    {
        proof {
            use_type_invariant(self);
            lemma_entries_len(self.root);
            if self.root is Some {
                assert(subtree_map(self.root).contains_key(self.root.unwrap().key));
            }
        }
        self.root.is_none()
    }

    /// The value stored under `key`, if there is one.
    pub fn get(&self, key: &K) -> (found: Option<&V>)
        requires
            total_order::<K>(),
        ensures
            found == if self@.contains_key(*key) {
                Some(&self@[*key])
            } else {
                None
            },
    {
        let entry = self.get_entry(key);
        if let Some((_k, v)) = entry {
            Some(v)
        } else {
            None
        }
    }

    fn get_entry(&self, key: &K) -> (found: Option<(&K, &V)>)
        requires
            total_order::<K>(),
        ensures
            found == if self@.contains_key(*key) {
                Some((key, &self@[*key]))
            } else {
                None
            },
    {
        proof {
            use_type_invariant(self);
        }
        let mut curr_node = &self.root;
        loop
            invariant
                total_order::<K>(),
                subtree_ordered(*curr_node),
                subtree_map(*curr_node).contains_key(*key) == self@.contains_key(*key),
                self@.contains_key(*key) ==> subtree_map(*curr_node)[*key] == self@[*key],
            decreases *curr_node,
        {
            match curr_node {
                Some(node) => {
                    let curr_key = node.key();
                    proof {
                        lemma_compare(*key, node.key);
                    }
                    match key.cmp(curr_key) {
                        Ordering::Less => {
                            proof {
                                lemma_lt_asymmetric(*key, node.key);
                                assert(!subtree_map(node.right).contains_key(*key));
                            }
                            curr_node = &node.left;
                        },
                        Ordering::Equal => {
                            return Some((node.key(), node.value()));
                        },
                        Ordering::Greater => {
                            proof {
                                lemma_lt_asymmetric(node.key, *key);
                                assert(!subtree_map(node.left).contains_key(*key));
                            }
                            curr_node = &node.right;
                        },
                    }
                },
                None => {
                    return None;
                },
            }
        }
    }

    pub fn contains_key(&self, key: &K) -> (found: bool)
        requires
            total_order::<K>(),
        ensures
            found == self@.contains_key(*key),
    {
        self.get(key).is_some()
    }

    /// The stored key equal to `key` together with its value, if there is one.
    pub fn get_key_value(&self, key: &K) -> (found: Option<(&K, &V)>)
        requires
            total_order::<K>(),
        ensures
            found == if self@.contains_key(*key) {
                Some((key, &self@[*key]))
            } else {
                None
            },
    {
        return self.get_entry(key);
    }

    /// Stores `value` under `key`. A key that is already present keeps its node and
    /// only has its value replaced; the value it had is returned.
    pub fn insert(&mut self, key: K, value: V) -> (prev: Option<V>)
        requires
            total_order::<K>(),
            old(self)@.len() < usize::MAX,
        ensures
            final(self).well_formed(),
            final(self).tree() == Some(subtree_inserted(old(self).tree(), key, value)),
            final(self)@ == old(self)@.insert(key, value),
            prev == if old(self)@.contains_key(key) {
                Some(old(self)@[key])
            } else {
                None
            },
            final(self)@.len() == old(self)@.len() + if old(self)@.contains_key(key) {
                0nat
            } else {
                1nat
            },
            old(self)@.contains_key(key) ==> final(self).tree() == subtree_with_value(
                old(self).tree(),
                key,
                value,
            ),
    {
        proof {
            use_type_invariant(&*self);
            lemma_map_count(self.root);
        }
        let mut prev = None;
        let mut root = None;
        std::mem::swap(&mut root, &mut self.root);
        let top = Self::insert_rec(&mut root, key, value, &mut prev);
        proof {
            lemma_map_count(Some(top));
        }
        self.root = Some(top);
        prev
    }

    fn height(node: &Option<Box<Node<K, V>>>) -> (h: usize)
        ensures
            h == match *node {
                Some(v) => v.height,
                None => 0,
            },
            subtree_cached(*node) ==> h == subtree_height(*node),
    {
        match node {
            Some(v) => v.height,
            None => 0,
        }
    }

    fn nodes_count(node: &Option<Box<Node<K, V>>>) -> (c: usize)
        ensures
            c == match *node {
                Some(v) => v.nodes_count,
                None => 0,
            },
            subtree_cached(*node) ==> c == subtree_count(*node),
    {
        match node {
            Some(v) => v.nodes_count,
            None => 0,
        }
    }

    fn fix_height(node: &mut Box<Node<K, V>>)
        requires
            subtree_cached(old(node).left),
            subtree_cached(old(node).right),
            1 + subtree_count(old(node).left) + subtree_count(old(node).right) <= usize::MAX,
        ensures
            final(node).left == old(node).left,
            final(node).right == old(node).right,
            final(node).key == old(node).key,
            final(node).value == old(node).value,
            final(node).height == subtree_height(Some(*old(node))),
            final(node).nodes_count == subtree_count(Some(*old(node))),
            *final(node) == refreshed(**old(node)),
            subtree_cached(Some(*final(node))),
    {
        proof {
            lemma_height_le_count(node.left);
            lemma_height_le_count(node.right);
        }
        let r = Self::height(&node.right);
        let l = Self::height(&node.left);
        node.height = (if r >= l { r } else { l }) + 1;
        node.nodes_count = Self::nodes_count(&node.left) + Self::nodes_count(&node.right) + 1;
    }

    fn bfactor(node: &Box<Node<K, V>>) -> (bf: i32)
        requires
            subtree_cached(node.left),
            subtree_cached(node.right),
            subtree_balanced(node.left),
            subtree_balanced(node.right),
        ensures
            bf == subtree_height(node.right) - subtree_height(node.left),
    {
        proof {
            lemma_height_bound(node.left);
            lemma_height_bound(node.right);
        }
        let left = Self::height(&node.left) as i32;
        let right = Self::height(&node.right) as i32;
        right - left
    }

    fn rotate_left(node: Box<Node<K, V>>) -> (top: Box<Node<K, V>>)
        requires
            node.right is Some,
            subtree_cached(node.left),
            subtree_cached(node.right),
            subtree_count(Some(node)) <= usize::MAX,
        ensures
            top == rotated_left(*node),
            subtree_cached(Some(top)),
            subtree_count(Some(top)) == subtree_count(Some(node)),
    {
        proof {
            lemma_rotated_left(*node);
        }
        let mut node = node;
        let mut tmp = node.right.unwrap();
        node.right = tmp.left;
        Self::fix_height(&mut node);
        tmp.left = Some(node);
        Self::fix_height(&mut tmp);
        tmp
    }

    fn rotate_right(mut node: Box<Node<K, V>>) -> (top: Box<Node<K, V>>)
        requires
            node.left is Some,
            subtree_cached(node.left),
            subtree_cached(node.right),
            subtree_count(Some(node)) <= usize::MAX,
        ensures
            top == rotated_right(*node),
            subtree_cached(Some(top)),
            subtree_count(Some(top)) == subtree_count(Some(node)),
    {
        proof {
            lemma_rotated_right(*node);
        }
        let mut tmp = node.left.unwrap();
        node.left = tmp.right;
        Self::fix_height(&mut node);
        tmp.right = Some(node);
        Self::fix_height(&mut tmp);
        tmp
    }

    fn balance(mut node: Box<Node<K, V>>) -> (top: Box<Node<K, V>>)
        requires
            total_order::<K>(),
            nearly_balanced(*node),
        ensures
            top == rebalanced(*node),
            subtree_wf(Some(top)),
            subtree_map(Some(top)) == subtree_map(Some(node)),
            subtree_entries(Some(top)) == subtree_entries(Some(node)),
            subtree_count(Some(top)) == subtree_count(Some(node)),
            subtree_height(Some(top)) <= subtree_height(Some(node)) <= subtree_height(Some(top))
                + 1,
            subtree_balanced(Some(node)) ==> top == refreshed(*node),
    {
        proof {
            lemma_rebalanced(*node);
        }
        Self::fix_height(&mut node);
        let bf = Self::bfactor(&node);

        match bf {
            2 => {
                if Self::bfactor(node.right.as_ref().unwrap()) < 0 {
                    let inner = Self::rotate_right(node.right.take().unwrap());
                    node.right = Some(inner);
                }
                Self::rotate_left(node)
            },
            -2 => {
                if Self::bfactor(node.left.as_ref().unwrap()) > 0 {
                    let inner = Self::rotate_left(node.left.take().unwrap());
                    node.left = Some(inner);
                }
                Self::rotate_right(node)
            },
            _ => node,
        }
    }

    fn insert_rec(
        node: &mut Option<Box<Node<K, V>>>,
        key: K,
        value: V,
        prev: &mut Option<V>,
    ) -> (top: Box<Node<K, V>>)
        requires
            total_order::<K>(),
            subtree_wf(*old(node)),
            subtree_count(*old(node)) < usize::MAX,
        ensures
            *final(node) is None,
            top == subtree_inserted(*old(node), key, value),
            subtree_wf(Some(top)),
            subtree_map(Some(top)) == subtree_map(*old(node)).insert(key, value),
            subtree_map(*old(node)).contains_key(key) ==> {
                &&& *final(prev) == Some(subtree_map(*old(node))[key])
                &&& Some(top) == subtree_with_value(*old(node), key, value)
                &&& subtree_count(Some(top)) == subtree_count(*old(node))
                &&& subtree_height(Some(top)) == subtree_height(*old(node))
            },
            !subtree_map(*old(node)).contains_key(key) ==> {
                &&& *final(prev) == *old(prev)
                &&& subtree_count(Some(top)) == subtree_count(*old(node)) + 1
                &&& subtree_height(*old(node)) <= subtree_height(Some(top)) <= subtree_height(
                    *old(node),
                ) + 1
            },
        decreases *old(node),
    {
        let n = node.take();
        match n {
            Some(mut n) => {
                let ghost orig = n;
                proof {
                    lemma_compare(n.key, key);
                }
                match n.key().cmp(&key) {
                    Ordering::Greater => {
                        let mut left = n.left.take();
                        let grown = Self::insert_rec(&mut left, key, value, prev);
                        n.left = Some(grown);
                        proof {
                            lemma_lt_asymmetric(key, orig.key);
                            assert(!subtree_map(orig.right).contains_key(key)) by {
                                if subtree_map(orig.right).contains_key(key) {
                                    lemma_lt_asymmetric(orig.key, key);
                                }
                            }
                            assert(subtree_map(Some(n)) =~= subtree_map(Some(orig)).insert(
                                key,
                                value,
                            ));
                        }
                    },
                    Ordering::Equal => {
                        let mut value = value;
                        std::mem::swap(&mut n.value, &mut value);
                        *prev = Some(value);
                        proof {
                            assert(subtree_map(Some(n)) =~= subtree_map(Some(orig)).insert(
                                key,
                                n.value,
                            ));
                        }
                        return n;
                    },
                    Ordering::Less => {
                        let mut right = n.right.take();
                        let grown = Self::insert_rec(&mut right, key, value, prev);
                        n.right = Some(grown);
                        proof {
                            lemma_lt_asymmetric(orig.key, key);
                            assert(!subtree_map(orig.left).contains_key(key)) by {
                                if subtree_map(orig.left).contains_key(key) {
                                    lemma_lt_asymmetric(key, orig.key);
                                }
                            }
                            assert(subtree_map(Some(n)) =~= subtree_map(Some(orig)).insert(
                                key,
                                value,
                            ));
                        }
                    },
                };

                Self::balance(n)
            },
            None => Box::new(Node::new(key, value)),
        }
    }

    /// Removes `key` and returns the value it had. A key that is not stored leaves
    /// the tree as it is.
    pub fn remove(&mut self, key: &K) -> (removed: Option<V>)
        requires
            total_order::<K>(),
        ensures
            final(self).well_formed(),
            final(self).tree() == subtree_removed(old(self).tree(), *key),
            final(self)@ == old(self)@.remove(*key),
            removed == if old(self)@.contains_key(*key) {
                Some(old(self)@[*key])
            } else {
                None
            },
            final(self)@.len() == old(self)@.len() - if old(self)@.contains_key(*key) {
                1nat
            } else {
                0nat
            },
            !old(self)@.contains_key(*key) ==> final(self).tree() == old(self).tree(),
    {
        proof {
            use_type_invariant(&*self);
            lemma_map_count(self.root);
        }
        let mut deleted = None;
        let mut root = None;
        std::mem::swap(&mut root, &mut self.root);
        let rest = Self::remove_rec(&mut root, key, &mut deleted);
        proof {
            lemma_map_count(rest);
        }
        self.root = rest;

        if let Some((_k, v)) = deleted {
            Some(v)
        } else {
            None
        }
    }

    fn remove_rec(node: &mut Option<Box<Node<K, V>>>, key: &K, ret: &mut Option<(K, V)>) -> (rest:
        Option<Box<Node<K, V>>>)
        requires
            total_order::<K>(),
            subtree_wf(*old(node)),
        ensures
            *final(node) is None,
            rest == subtree_removed(*old(node), *key),
            subtree_wf(rest),
            subtree_map(rest) == subtree_map(*old(node)).remove(*key),
            subtree_map(*old(node)).contains_key(*key) ==> {
                &&& *final(ret) == Some((*key, subtree_map(*old(node))[*key]))
                &&& subtree_count(rest) + 1 == subtree_count(*old(node))
                &&& subtree_height(rest) <= subtree_height(*old(node)) <= subtree_height(rest)
                    + 1
            },
            !subtree_map(*old(node)).contains_key(*key) ==> {
                &&& *final(ret) == *old(ret)
                &&& rest == *old(node)
            },
        decreases *old(node),
    {
        let node = node.take();
        match node {
            Some(mut node) => {
                let ghost orig = node;
                proof {
                    lemma_compare(node.key, *key);
                }
                match node.key().cmp(key) {
                    Ordering::Less => {
                        let shrunk = Self::remove_rec(&mut node.right, key, ret);
                        node.right = shrunk;
                        proof {
                            lemma_lt_asymmetric(orig.key, *key);
                            assert(!subtree_map(orig.left).contains_key(*key));
                            assert(subtree_map(Some(node)) =~= subtree_map(Some(orig)).remove(
                                *key,
                            ));
                        }
                    },
                    Ordering::Equal => {
                        let right = node.right.take();

                        proof {
                            lemma_lt_irreflexive(orig.key);
                            assert(!subtree_map(orig.left).contains_key(*key));
                            assert(!subtree_map(orig.right).contains_key(*key));
                        }
                        if right.is_none() {
                            *ret = Some((node.key, node.value));
                            proof {
                                assert(subtree_map(orig.right) =~= Map::<K, V>::empty());
                                assert(subtree_count(orig.right) == 0);
                                assert(subtree_height(orig.right) == 0);
                                assert(subtree_map(orig.left) =~= subtree_map(Some(orig)).remove(
                                    *key,
                                ));
                            }
                            return node.left;
                        }
                        let shrunk = Self::find_and_remove_min(right.unwrap(), &mut node, ret);
                        node.right = shrunk;
                        proof {
                            let least = node.key;
                            assert(key_lt(orig.key, least));
                            assert forall|k: K| #[trigger]
                                subtree_map(node.left).contains_key(k) implies key_lt(k, least) by {
                                lemma_lt_transitive(k, orig.key, least);
                            }
                            assert forall|k: K| #[trigger]
                                subtree_map(node.right).contains_key(k) implies key_lt(
                                least,
                                k,
                            ) by {
                                assert(subtree_map(orig.right).contains_key(k));
                            }
                            lemma_lt_asymmetric(orig.key, least);
                            assert(!subtree_map(orig.left).contains_key(least)) by {
                                if subtree_map(orig.left).contains_key(least) {
                                    lemma_lt_asymmetric(least, orig.key);
                                }
                            }
                            assert(subtree_map(Some(node)) =~= subtree_map(Some(orig)).remove(
                                *key,
                            ));
                        }
                    },
                    Ordering::Greater => {
                        let shrunk = Self::remove_rec(&mut node.left, key, ret);
                        node.left = shrunk;
                        proof {
                            lemma_lt_asymmetric(*key, orig.key);
                            assert(!subtree_map(orig.right).contains_key(*key));
                            assert(subtree_map(Some(node)) =~= subtree_map(Some(orig)).remove(
                                *key,
                            ));
                        }
                    },
                };

                Some(Self::balance(node))
            },
            None => None,
        }
    }

    /// Takes the least entry out of `node`, stores it in `tmp`, and hands out what
    /// `tmp` held before.
    fn find_and_remove_min(
        mut node: Box<Node<K, V>>,
        tmp: &mut Box<Node<K, V>>,
        deleted: &mut Option<(K, V)>,
    ) -> (rest: Option<Box<Node<K, V>>>)
        requires
            total_order::<K>(),
            subtree_wf(Some(node)),
        ensures
            rest == without_least(*node),
            subtree_wf(rest),
            final(tmp).left == old(tmp).left,
            final(tmp).right == old(tmp).right,
            final(tmp).height == old(tmp).height,
            final(tmp).nodes_count == old(tmp).nodes_count,
            *final(deleted) == Some((old(tmp).key, old(tmp).value)),
            subtree_map(Some(node)).contains_key(final(tmp).key),
            subtree_map(Some(node))[final(tmp).key] == final(tmp).value,
            forall|k: K| #[trigger]
                subtree_map(Some(node)).contains_key(k) ==> k == final(tmp).key || key_lt(
                    final(tmp).key,
                    k,
                ),
            subtree_map(rest) == subtree_map(Some(node)).remove(final(tmp).key),
            subtree_entries(Some(node)) == seq![(final(tmp).key, final(tmp).value)]
                + subtree_entries(rest),
            subtree_count(rest) + 1 == subtree_count(Some(node)),
            subtree_height(rest) <= subtree_height(Some(node)) <= subtree_height(rest) + 1,
        decreases node,
    {
        let ghost orig = node;
        if let Some(left) = node.left.take() {
            let shrunk = Self::find_and_remove_min(left, tmp, deleted);
            node.left = shrunk;
            proof {
                let least = tmp.key;
                assert(key_lt(least, orig.key));
                lemma_lt_asymmetric(least, orig.key);
                assert(!subtree_map(orig.right).contains_key(least)) by {
                    if subtree_map(orig.right).contains_key(least) {
                        lemma_lt_asymmetric(orig.key, least);
                    }
                }
                assert forall|k: K| #[trigger]
                    subtree_map(Some(orig)).contains_key(k) implies k == least || key_lt(
                    least,
                    k,
                ) by {
                    if subtree_map(orig.right).contains_key(k) {
                        lemma_lt_transitive(least, orig.key, k);
                    }
                }
                assert(subtree_map(Some(node)) =~= subtree_map(Some(orig)).remove(least));
                assert(subtree_entries(Some(orig)) =~= seq![(tmp.key, tmp.value)]
                    + subtree_entries(Some(node)));
            }
            Some(Self::balance(node))
        } else {
            std::mem::swap(&mut tmp.key, &mut node.key);
            std::mem::swap(&mut tmp.value, &mut node.value);
            *deleted = Some((node.key, node.value));
            proof {
                let least = orig.key;
                lemma_lt_irreflexive(least);
                assert(subtree_map(orig.left) =~= Map::<K, V>::empty());
                assert(subtree_entries(orig.left) =~= Seq::<(K, V)>::empty());
                assert(subtree_count(orig.left) == 0);
                assert(subtree_height(orig.left) == 0);
                assert(subtree_map(orig.right) =~= subtree_map(Some(orig)).remove(least));
                assert(subtree_entries(Some(orig)) =~= seq![(least, orig.value)]
                    + subtree_entries(orig.right));
            }

            let t = node.right;
            t
        }
    }

    /// The entry at position `k` when the entries are listed in increasing key
    /// order, counting from zero.
    pub fn nth_key_value(&self, k: usize) -> (found: Option<(&K, &V)>)
        ensures
            found == if k < self.entries().len() {
                Some((&self.entries()[k as int].0, &self.entries()[k as int].1))
            } else {
                None
            },
            self.well_formed(),
    {
        proof {
            use_type_invariant(self);
            lemma_entries_len(self.root);
        }
        if k > self.len() {
            return None;
        }
        let mut item = None;
        let mut cur_idx: usize = 0;
        Self::find_nth_rec(&self.root, &mut cur_idx, k, &mut item);
        return item;
    }

    /// Walks `node` in key order, counting entries from `cur_idx` on, and stores the
    /// entry whose number is `searched_idx` in `item`.
    fn find_nth_rec<'a>(
        node: &'a Option<Box<Node<K, V>>>,
        cur_idx: &mut usize,
        searched_idx: usize,
        item: &mut Option<(&'a K, &'a V)>,
    )
        requires
            *old(cur_idx) + subtree_count(*node) <= usize::MAX,
        ensures
            *final(cur_idx) == *old(cur_idx) + subtree_count(*node),
            *final(item) == if *old(cur_idx) <= searched_idx < *old(cur_idx) + subtree_count(
                *node,
            ) {
                let entry = subtree_entries(*node)[searched_idx - *old(cur_idx)];
                Some((&entry.0, &entry.1))
            } else {
                *old(item)
            },
        decreases *node,
    {
        if let Some(node) = node {
            proof {
                lemma_entries_len(node.left);
                lemma_entries_len(node.right);
            }
            Self::find_nth_rec(&node.left, cur_idx, searched_idx, item);
            if *cur_idx == searched_idx {
                *item = Some((&node.key, &node.value));
            }
            *cur_idx += 1;
            Self::find_nth_rec(&node.right, cur_idx, searched_idx, item);
        } else {
            return ;
        }
    }

    /// Removes `key` and returns the stored entry.
    pub fn remove_entry(&mut self, key: &K) -> (removed: Option<(K, V)>)
        requires
            total_order::<K>(),
        ensures
            final(self).well_formed(),
            final(self).tree() == subtree_removed(old(self).tree(), *key),
            final(self)@ == old(self)@.remove(*key),
            removed == if old(self)@.contains_key(*key) {
                Some((*key, old(self)@[*key]))
            } else {
                None
            },
            final(self)@.len() == old(self)@.len() - if old(self)@.contains_key(*key) {
                1nat
            } else {
                0nat
            },
            !old(self)@.contains_key(*key) ==> final(self).tree() == old(self).tree(),
    {
        proof {
            use_type_invariant(&*self);
            lemma_map_count(self.root);
        }
        let mut deleted = None;
        let mut root = None;
        std::mem::swap(&mut root, &mut self.root);
        let rest = Self::remove_rec(&mut root, key, &mut deleted);
        proof {
            lemma_map_count(rest);
        }
        self.root = rest;
        deleted
    }
}

} // verus!
