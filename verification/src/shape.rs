use vstd::prelude::*;
use crate::node::{
    Node, subtree_map, subtree_ordered, subtree_entries, subtree_count, subtree_height,
    subtree_balanced, subtree_cached, subtree_wf,
};
use crate::height::lemma_height_le_count;
use vstd::set_lib::lemma_set_disjoint_lens;
use crate::order::{
    key_lt, total_order, lemma_lt_asymmetric, lemma_lt_transitive, lemma_lt_irreflexive,
};

verus! {

/// The in-order sequence of a tree has one entry for each node.
pub proof fn lemma_entries_len<K, V>(t: Option<Box<Node<K, V>>>)
    ensures
        subtree_entries(t).len() == subtree_count(t),
    decreases t,
{
    if let Some(n) = t {
        lemma_entries_len(n.left);
        lemma_entries_len(n.right);
    }
}

/// A search tree stores each key once: its map has as many keys as the tree has nodes.
pub proof fn lemma_map_count<K: Ord, V>(t: Option<Box<Node<K, V>>>)
    requires
        total_order::<K>(),
        subtree_ordered(t),
    ensures
        subtree_map(t).dom().finite(),
        subtree_map(t).len() == subtree_count(t),
    decreases t,
{
    if let Some(n) = t {
        lemma_map_count(n.left);
        lemma_map_count(n.right);
        let l = subtree_map(n.left).dom();
        let r = subtree_map(n.right).dom();
        assert(l.disjoint(r)) by {
            assert forall|k: K| !(l.contains(k) && r.contains(k)) by {
                if l.contains(k) && r.contains(k) {
                    lemma_lt_asymmetric(k, n.key);
                }
            }
        }
        lemma_set_disjoint_lens(l, r);
        assert(subtree_map(n.left).union_prefer_right(subtree_map(n.right)).dom() =~= l + r);
        assert(!(l + r).contains(n.key)) by {
            lemma_lt_irreflexive(n.key);
        }
        assert(subtree_map(t).dom() =~= (l + r).insert(n.key));
    }
}

/// `n` with the height and the size of its subtree written into its caches.
pub open spec fn refreshed<K, V>(n: Node<K, V>) -> Box<Node<K, V>> {
    Box::new(
        Node {
            left: n.left,
            right: n.right,
            key: n.key,
            value: n.value,
            height: subtree_height(Some(Box::new(n))) as usize,
            nodes_count: subtree_count(Some(Box::new(n))) as usize,
        },
    )
}

/// `n` with `left` and `right` as its subtrees.
pub open spec fn with_children<K, V>(
    n: Node<K, V>,
    left: Option<Box<Node<K, V>>>,
    right: Option<Box<Node<K, V>>>,
) -> Node<K, V> {
    Node { left, right, key: n.key, value: n.value, height: n.height, nodes_count: n.nodes_count }
}

/// Left rotation: the right child of `n` comes to the top, `n` becomes its left child
/// and takes over what was the right child's left subtree. The caches of both are
/// refreshed, those of `n` first.
pub open spec fn rotated_left<K, V>(n: Node<K, V>) -> Box<Node<K, V>> {
    let up = *n.right.unwrap();
    let down = refreshed(with_children(n, n.left, up.left));
    refreshed(with_children(up, Some(down), up.right))
}

/// Right rotation, the mirror image of the left one.
pub open spec fn rotated_right<K, V>(n: Node<K, V>) -> Box<Node<K, V>> {
    let up = *n.left.unwrap();
    let down = refreshed(with_children(n, up.right, n.right));
    refreshed(with_children(up, up.left, Some(down)))
}

/// Height of the right subtree of `n` less that of the left one.
pub open spec fn balance_factor<K, V>(n: Node<K, V>) -> int {
    subtree_height(n.right) - subtree_height(n.left)
}

/// Rebalancing at `n`: a node that is two levels heavier on one side is rotated
/// towards the other, after its heavy child has been rotated the other way where
/// that child leans inwards; any other node only has its caches refreshed.
pub open spec fn rebalanced<K, V>(n: Node<K, V>) -> Box<Node<K, V>> {
    if balance_factor(n) == 2 {
        let heavy = *n.right.unwrap();
        if balance_factor(heavy) < 0 {
            rotated_left(with_children(n, n.left, Some(rotated_right(heavy))))
        } else {
            rotated_left(n)
        }
    } else if balance_factor(n) == -2 {
        let heavy = *n.left.unwrap();
        if balance_factor(heavy) > 0 {
            rotated_right(with_children(n, Some(rotated_left(heavy)), n.right))
        } else {
            rotated_right(n)
        }
    } else {
        refreshed(n)
    }
}

/// The tree that insertion makes of `t`: a present key has its value replaced in
/// place; a new key becomes a leaf where the search for it ends, and every node on
/// the way back up is rebalanced.
pub open spec fn subtree_inserted<K: Ord, V>(t: Option<Box<Node<K, V>>>, key: K, value: V) -> Box<
    Node<K, V>,
>
    decreases t,
{
    match t {
        None => Box::new(
            Node { left: None, right: None, key, value, height: 1, nodes_count: 1 },
        ),
        Some(n) => if n.key == key {
            Box::new(
                Node {
                    left: n.left,
                    right: n.right,
                    key: n.key,
                    value,
                    height: n.height,
                    nodes_count: n.nodes_count,
                },
            )
        } else if key_lt(key, n.key) {
            rebalanced(with_children(*n, Some(subtree_inserted(n.left, key, value)), n.right))
        } else {
            rebalanced(with_children(*n, n.left, Some(subtree_inserted(n.right, key, value))))
        },
    }
}

/// The tree under `n` without its least entry: the leftmost node gives way to its
/// right subtree, and every node above it is rebalanced.
pub open spec fn without_least<K, V>(n: Node<K, V>) -> Option<Box<Node<K, V>>>
    decreases n,
{
    match n.left {
        Some(l) => Some(rebalanced(with_children(n, without_least(*l), n.right))),
        None => n.right,
    }
}

/// The tree that removal makes of `t`. A node without right subtree gives way to its
/// left subtree. Any other node stays and takes over the least entry of its right
/// subtree, which is removed there. Every node on the way back up is rebalanced. A key
/// that is not stored leaves the tree alone.
pub open spec fn subtree_removed<K: Ord, V>(t: Option<Box<Node<K, V>>>, key: K) -> Option<
    Box<Node<K, V>>,
>
    decreases t,
{
    match t {
        None => None,
        Some(n) => if n.key == key {
            match n.right {
                None => n.left,
                Some(r) => {
                    let least = subtree_entries(n.right)[0];
                    Some(
                        rebalanced(
                            Node {
                                left: n.left,
                                right: without_least(*r),
                                key: least.0,
                                value: least.1,
                                height: n.height,
                                nodes_count: n.nodes_count,
                            },
                        ),
                    )
                },
            }
        } else if key_lt(key, n.key) {
            Some(rebalanced(with_children(*n, subtree_removed(n.left, key), n.right)))
        } else {
            Some(rebalanced(with_children(*n, n.left, subtree_removed(n.right, key))))
        },
    }
}

/// The two nodes are one rotation apart.
///
/// `leaning_right` is a node with left subtree `a` whose right child carries the
/// subtrees `b` and `c`; `leaning_left` is that right child lifted to the top, with
/// the old node as its left child carrying `a` and `b`, and `c` as its right subtree.
/// A left rotation turns the first into the second, a right rotation the second into
/// the first. Cached heights and sizes are not compared.
pub open spec fn rotated<K, V>(leaning_right: Box<Node<K, V>>, leaning_left: Box<Node<K, V>>) -> bool {
    &&& leaning_right.right is Some
    &&& leaning_left.left is Some
    &&& leaning_left.left.unwrap().left == leaning_right.left
    &&& leaning_left.left.unwrap().right == leaning_right.right.unwrap().left
    &&& leaning_left.right == leaning_right.right.unwrap().right
    &&& leaning_left.left.unwrap().key == leaning_right.key
    &&& leaning_left.left.unwrap().value == leaning_right.value
    &&& leaning_left.key == leaning_right.right.unwrap().key
    &&& leaning_left.value == leaning_right.right.unwrap().value
}

/// The larger of two heights.
pub open spec fn higher(a: nat, b: nat) -> nat {
    if a >= b {
        a
    } else {
        b
    }
}

/// The height difference of `a` and `b` is at most one.
pub open spec fn level(a: nat, b: nat) -> bool {
    a <= b + 1 && b <= a + 1
}

/// Heights and balance of two nodes that are one rotation apart, in terms of the
/// three subtrees that the rotation moves.
pub proof fn lemma_rotated_heights<K, V>(leaning_right: Box<Node<K, V>>, leaning_left: Box<Node<K, V>>)
    requires
        rotated(leaning_right, leaning_left),
    ensures
        ({
            let a = leaning_right.left;
            let b = leaning_left.left.unwrap().right;
            let c = leaning_left.right;
            let (ha, hb, hc) = (subtree_height(a), subtree_height(b), subtree_height(c));
            let (ba, bb, bc) = (subtree_balanced(a), subtree_balanced(b), subtree_balanced(c));
            &&& subtree_height(leaning_right.right) == 1 + higher(hb, hc)
            &&& subtree_height(leaning_left.left) == 1 + higher(ha, hb)
            &&& subtree_height(Some(leaning_right)) == 1 + higher(ha, 1 + higher(hb, hc))
            &&& subtree_height(Some(leaning_left)) == 1 + higher(1 + higher(ha, hb), hc)
            &&& subtree_balanced(leaning_right.right) == (bb && bc && level(hb, hc))
            &&& subtree_balanced(leaning_left.left) == (ba && bb && level(ha, hb))
            &&& subtree_balanced(Some(leaning_right)) == (ba && bb && bc && level(hb, hc)
                && level(ha, 1 + higher(hb, hc)))
            &&& subtree_balanced(Some(leaning_left)) == (ba && bb && bc && level(ha, hb)
                && level(1 + higher(ha, hb), hc))
        }),
{
    reveal_with_fuel(subtree_height, 2);
    reveal_with_fuel(subtree_balanced, 2);
}

/// A rotation keeps the search-tree ordering and the stored entries.
pub proof fn lemma_rotation<K: Ord, V>(leaning_right: Box<Node<K, V>>, leaning_left: Box<Node<K, V>>)
    requires
        total_order::<K>(),
        rotated(leaning_right, leaning_left),
    ensures
        subtree_ordered(Some(leaning_right)) == subtree_ordered(Some(leaning_left)),
        subtree_ordered(Some(leaning_right)) ==> subtree_map(Some(leaning_left)) == subtree_map(
            Some(leaning_right),
        ),
{
    let x = leaning_right;
    let y = leaning_right.right.unwrap();
    let a = subtree_map(x.left);
    let b = subtree_map(y.left);
    let c = subtree_map(y.right);
    assert(subtree_map(x.right) == b.union_prefer_right(c).insert(y.key, y.value));
    assert(subtree_map(leaning_left.left) == a.union_prefer_right(b).insert(x.key, x.value));
    assert(subtree_ordered(x.right) == (subtree_ordered(y.left) && subtree_ordered(y.right)
        && (forall|k: K| #[trigger] b.contains_key(k) ==> key_lt(k, y.key))
        && (forall|k: K| #[trigger] c.contains_key(k) ==> key_lt(y.key, k))));
    assert(subtree_ordered(leaning_left.left) == (subtree_ordered(x.left) && subtree_ordered(y.left)
        && (forall|k: K| #[trigger] a.contains_key(k) ==> key_lt(k, x.key))
        && (forall|k: K| #[trigger] b.contains_key(k) ==> key_lt(x.key, k))));
    if subtree_ordered(Some(leaning_right)) {
        assert(subtree_map(x.right).contains_key(y.key));
        assert(key_lt(x.key, y.key));
        lemma_lt_asymmetric(x.key, y.key);
        assert forall|k: K| #[trigger] b.contains_key(k) implies key_lt(x.key, k) by {
            assert(subtree_map(x.right).contains_key(k));
        }
        assert forall|k: K| #[trigger] c.contains_key(k) implies key_lt(x.key, k) && k != x.key by {
            assert(subtree_map(x.right).contains_key(k));
            lemma_lt_asymmetric(x.key, k);
        }
        assert forall|k: K| #[trigger] subtree_map(leaning_left.left).contains_key(k) implies key_lt(
            k,
            y.key,
        ) by {
            if a.contains_key(k) {
                lemma_lt_transitive(k, x.key, y.key);
            }
        }
        assert(subtree_ordered(Some(leaning_left)));
        assert(subtree_map(Some(leaning_left)) =~= subtree_map(Some(leaning_right)));
    }
    if subtree_ordered(Some(leaning_left)) {
        assert(subtree_map(leaning_left.left).contains_key(x.key));
        assert(key_lt(x.key, y.key));
        assert forall|k: K| #[trigger] subtree_map(x.right).contains_key(k) implies key_lt(
            x.key,
            k,
        ) by {
            if c.contains_key(k) {
                lemma_lt_transitive(x.key, y.key, k);
            }
        }
        assert forall|k: K| #[trigger] b.contains_key(k) implies key_lt(k, y.key) by {
            assert(subtree_map(leaning_left.left).contains_key(k));
        }
        assert forall|k: K| #[trigger] a.contains_key(k) implies key_lt(k, x.key) by {
            assert(subtree_map(leaning_left.left).contains_key(k));
        }
        assert(subtree_ordered(Some(leaning_right)));
    }
}

/// What holds of a node when rebalancing reaches it: its keys are in search order,
/// both subtrees are balanced and carry exact caches, and the two heights differ by
/// two at most.
pub open spec fn nearly_balanced<K: Ord, V>(n: Node<K, V>) -> bool {
    &&& subtree_ordered(Some(Box::new(n)))
    &&& subtree_cached(n.left)
    &&& subtree_cached(n.right)
    &&& subtree_balanced(n.left)
    &&& subtree_balanced(n.right)
    &&& -2 <= balance_factor(n) <= 2
    &&& subtree_count(Some(Box::new(n))) <= usize::MAX
}

/// Refreshing the caches of a node over exact subtrees makes the whole tree exact
/// and changes nothing else.
pub proof fn lemma_refreshed<K, V>(n: Node<K, V>)
    requires
        subtree_cached(n.left),
        subtree_cached(n.right),
        subtree_count(Some(Box::new(n))) <= usize::MAX,
    ensures
        subtree_cached(Some(refreshed(n))),
        refreshed(n).left == n.left,
        refreshed(n).right == n.right,
        refreshed(n).key == n.key,
        refreshed(n).value == n.value,
        subtree_cached(Some(Box::new(n))) ==> refreshed(n) == Box::new(n),
{
    lemma_height_le_count(Some(Box::new(n)));
}

/// A left rotation of a node over exact subtrees yields an exact tree that is one
/// rotation away and lists the same entries.
pub proof fn lemma_rotated_left<K, V>(n: Node<K, V>)
    requires
        n.right is Some,
        subtree_cached(n.left),
        subtree_cached(n.right),
        subtree_count(Some(Box::new(n))) <= usize::MAX,
    ensures
        rotated(Box::new(n), rotated_left(n)),
        subtree_cached(Some(rotated_left(n))),
        subtree_entries(Some(rotated_left(n))) == subtree_entries(Some(Box::new(n))),
        subtree_count(Some(rotated_left(n))) == subtree_count(Some(Box::new(n))),
{
    let up = *n.right.unwrap();
    let low = with_children(n, n.left, up.left);
    lemma_refreshed(low);
    let top = with_children(up, Some(refreshed(low)), up.right);
    assert(subtree_count(Some(refreshed(low))) == subtree_count(Some(Box::new(low))));
    lemma_refreshed(top);
    reveal_with_fuel(subtree_entries, 3);
    assert(subtree_entries(Some(rotated_left(n))) =~= subtree_entries(Some(Box::new(n))));
    lemma_entries_len(Some(rotated_left(n)));
    lemma_entries_len(Some(Box::new(n)));
}

/// A right rotation of a node over exact subtrees yields an exact tree that is one
/// rotation away and lists the same entries.
pub proof fn lemma_rotated_right<K, V>(n: Node<K, V>)
    requires
        n.left is Some,
        subtree_cached(n.left),
        subtree_cached(n.right),
        subtree_count(Some(Box::new(n))) <= usize::MAX,
    ensures
        rotated(rotated_right(n), Box::new(n)),
        subtree_cached(Some(rotated_right(n))),
        subtree_entries(Some(rotated_right(n))) == subtree_entries(Some(Box::new(n))),
        subtree_count(Some(rotated_right(n))) == subtree_count(Some(Box::new(n))),
{
    let up = *n.left.unwrap();
    let low = with_children(n, up.right, n.right);
    lemma_refreshed(low);
    let top = with_children(up, up.left, Some(refreshed(low)));
    assert(subtree_count(Some(refreshed(low))) == subtree_count(Some(Box::new(low))));
    lemma_refreshed(top);
    reveal_with_fuel(subtree_entries, 3);
    assert(subtree_entries(Some(rotated_right(n))) =~= subtree_entries(Some(Box::new(n))));
    lemma_entries_len(Some(rotated_right(n)));
    lemma_entries_len(Some(Box::new(n)));
}

/// Rebalancing a nearly balanced node yields a well-formed tree with the same entries,
/// at most one level lower than the node was, and leaves a balanced node as it is but
/// for its caches.
pub proof fn lemma_rebalanced<K: Ord, V>(n: Node<K, V>)
    requires
        total_order::<K>(),
        nearly_balanced(n),
    ensures
        subtree_wf(Some(rebalanced(n))),
        subtree_map(Some(rebalanced(n))) == subtree_map(Some(Box::new(n))),
        subtree_entries(Some(rebalanced(n))) == subtree_entries(Some(Box::new(n))),
        subtree_count(Some(rebalanced(n))) == subtree_count(Some(Box::new(n))),
        subtree_height(Some(rebalanced(n))) <= subtree_height(Some(Box::new(n)))
            <= subtree_height(Some(rebalanced(n))) + 1,
        subtree_balanced(Some(Box::new(n))) ==> rebalanced(n) == refreshed(n),
{
    let whole = Some(Box::new(n));
    lemma_refreshed(n);
    assert(subtree_entries(Some(refreshed(n))) == subtree_entries(whole));
    assert(subtree_map(Some(refreshed(n))) == subtree_map(whole));
    assert(subtree_ordered(Some(refreshed(n))));
    assert(subtree_count(Some(refreshed(n))) == subtree_count(whole));
    assert(subtree_height(Some(refreshed(n))) == subtree_height(whole));
    if balance_factor(n) == 2 {
        assert(n.right is Some);
        let heavy = *n.right.unwrap();
        assert(subtree_ordered(n.right));
        if balance_factor(heavy) < 0 {
            assert(heavy.left is Some);
            lemma_rotated_right(heavy);
            let inner = rotated_right(heavy);
            lemma_rotation(inner, Box::new(heavy));
            lemma_rotated_heights(inner, Box::new(heavy));
            let bent = with_children(n, n.left, Some(inner));
            assert(subtree_ordered(Some(Box::new(bent))));
            assert(subtree_map(Some(Box::new(bent))) == subtree_map(whole));
            assert(subtree_entries(Some(Box::new(bent))) == subtree_entries(whole));
            assert(subtree_count(Some(Box::new(bent))) == subtree_count(whole));
            lemma_rotated_left(bent);
            lemma_rotation(Box::new(bent), rotated_left(bent));
            lemma_rotated_heights(Box::new(bent), rotated_left(bent));
        } else {
            lemma_rotated_left(n);
            lemma_rotation(Box::new(n), rotated_left(n));
            lemma_rotated_heights(Box::new(n), rotated_left(n));
        }
    } else if balance_factor(n) == -2 {
        assert(n.left is Some);
        let heavy = *n.left.unwrap();
        assert(subtree_ordered(n.left));
        if balance_factor(heavy) > 0 {
            assert(heavy.right is Some);
            lemma_rotated_left(heavy);
            let inner = rotated_left(heavy);
            lemma_rotation(Box::new(heavy), inner);
            lemma_rotated_heights(Box::new(heavy), inner);
            let bent = with_children(n, Some(inner), n.right);
            assert(subtree_ordered(Some(Box::new(bent))));
            assert(subtree_map(Some(Box::new(bent))) == subtree_map(whole));
            assert(subtree_entries(Some(Box::new(bent))) == subtree_entries(whole));
            assert(subtree_count(Some(Box::new(bent))) == subtree_count(whole));
            lemma_rotated_right(bent);
            lemma_rotation(rotated_right(bent), Box::new(bent));
            lemma_rotated_heights(rotated_right(bent), Box::new(bent));
        } else {
            lemma_rotated_right(n);
            lemma_rotation(rotated_right(n), Box::new(n));
            lemma_rotated_heights(rotated_right(n), Box::new(n));
        }
    }
}

} // verus!
