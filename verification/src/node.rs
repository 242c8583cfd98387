use vstd::prelude::*;
use crate::order::key_lt;

verus! {

/// One stored entry together with the two subtrees it owns and the cached
/// height and size of the subtree rooted here.
#[derive(Debug)]
pub struct Node<K, V> {
    pub left: Option<Box<Node<K, V>>>,
    pub right: Option<Box<Node<K, V>>>,
    pub key: K,
    pub value: V,
    pub height: usize,
    pub nodes_count: usize,
}

impl<K, V> Node<K, V> where K: Ord {
    /// A leaf holding `key` and `value`.
    pub fn new(key: K, value: V) -> (node: Self)
        ensures
            node == (Node { left: None, right: None, key, value, height: 1, nodes_count: 1 }),
    {
        Self { left: None, right: None, key, value, height: 1, nodes_count: 1 }
    }

    pub fn key(&self) -> (k: &K)
        ensures
            *k == self.key,
    {
        &self.key
    }

    pub fn value(&self) -> (v: &V)
        ensures
            *v == self.value,
    {
        &self.value
    }
}

/// Number of edges-plus-one on the longest path from the root of `t` down to a leaf;
/// zero for the absent subtree.
pub open spec fn subtree_height<K, V>(t: Option<Box<Node<K, V>>>) -> nat
    decreases t,
{
    match t {
        None => 0,
        Some(n) => {
            let l = subtree_height(n.left);
            let r = subtree_height(n.right);
            1 + if l >= r { l } else { r }
        },
    }
}

/// Number of nodes in `t`.
pub open spec fn subtree_count<K, V>(t: Option<Box<Node<K, V>>>) -> nat
    decreases t,
{
    match t {
        None => 0,
        Some(n) => 1 + subtree_count(n.left) + subtree_count(n.right),
    }
}

/// The entries of `t` in in-order: left subtree, then the root, then the right subtree.
pub open spec fn subtree_entries<K, V>(t: Option<Box<Node<K, V>>>) -> Seq<(K, V)>
    decreases t,
{
    match t {
        None => Seq::empty(),
        Some(n) => subtree_entries(n.left).push((n.key, n.value)) + subtree_entries(n.right),
    }
}

/// The entries of `t` as a map from key to value.
pub open spec fn subtree_map<K, V>(t: Option<Box<Node<K, V>>>) -> Map<K, V>
    decreases t,
{
    match t {
        None => Map::empty(),
        Some(n) => subtree_map(n.left).union_prefer_right(subtree_map(n.right)).insert(
            n.key,
            n.value,
        ),
    }
}

/// Every node of `t` caches the exact height and the exact size of its subtree.
pub open spec fn subtree_cached<K, V>(t: Option<Box<Node<K, V>>>) -> bool
    decreases t,
{
    match t {
        None => true,
        Some(n) => {
            &&& n.height == subtree_height(t)
            &&& n.nodes_count == subtree_count(t)
            &&& subtree_cached(n.left)
            &&& subtree_cached(n.right)
        },
    }
}

/// Search-tree ordering: at every node of `t`, each key of the left subtree sorts
/// before the node's key and each key of the right subtree sorts after it.
pub open spec fn subtree_ordered<K: Ord, V>(t: Option<Box<Node<K, V>>>) -> bool
    decreases t,
{
    match t {
        None => true,
        Some(n) => {
            &&& forall|k: K| #[trigger] subtree_map(n.left).contains_key(k) ==> key_lt(k, n.key)
            &&& forall|k: K| #[trigger] subtree_map(n.right).contains_key(k) ==> key_lt(n.key, k)
            &&& subtree_ordered(n.left)
            &&& subtree_ordered(n.right)
        },
    }
}

/// Height balance: at every node of `t` the heights of the two subtrees differ by at most one.
pub open spec fn subtree_balanced<K, V>(t: Option<Box<Node<K, V>>>) -> bool
    decreases t,
{
    match t {
        None => true,
        Some(n) => {
            &&& subtree_height(n.left) <= subtree_height(n.right) + 1
            &&& subtree_height(n.right) <= subtree_height(n.left) + 1
            &&& subtree_balanced(n.left)
            &&& subtree_balanced(n.right)
        },
    }
}

/// The tree `t` with `value` stored at the node holding `key`, everything else as it was.
pub open spec fn subtree_with_value<K: Ord, V>(t: Option<Box<Node<K, V>>>, key: K, value: V) -> Option<
    Box<Node<K, V>>,
>
    decreases t,
{
    match t {
        None => None,
        Some(n) => if n.key == key {
            Some(
                Box::new(
                    Node {
                        left: n.left,
                        right: n.right,
                        key: n.key,
                        value,
                        height: n.height,
                        nodes_count: n.nodes_count,
                    },
                ),
            )
        } else if key_lt(key, n.key) {
            Some(
                Box::new(
                    Node {
                        left: subtree_with_value(n.left, key, value),
                        right: n.right,
                        key: n.key,
                        value: n.value,
                        height: n.height,
                        nodes_count: n.nodes_count,
                    },
                ),
            )
        } else {
            Some(
                Box::new(
                    Node {
                        left: n.left,
                        right: subtree_with_value(n.right, key, value),
                        key: n.key,
                        value: n.value,
                        height: n.height,
                        nodes_count: n.nodes_count,
                    },
                ),
            )
        },
    }
}

/// The three invariants of a stored tree together.
pub open spec fn subtree_wf<K: Ord, V>(t: Option<Box<Node<K, V>>>) -> bool {
    &&& subtree_cached(t)
    &&& subtree_ordered(t)
    &&& subtree_balanced(t)
}

} // verus!
