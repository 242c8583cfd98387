use vstd::prelude::*;
use crate::node::{
    Node, subtree_entries, subtree_map, subtree_ordered, subtree_wf, subtree_cached,
    subtree_height, subtree_count,
};
use crate::order::{key_lt, total_order, lemma_lt_asymmetric, lemma_lt_transitive};
use crate::shape::{lemma_entries_len, lemma_map_count};
use crate::tree::AVLTreeMap;

verus! {

/// `n` is a node of the tree `t`.
pub open spec fn is_node_of<K, V>(n: Box<Node<K, V>>, t: Option<Box<Node<K, V>>>) -> bool
    decreases t,
{
    match t {
        None => false,
        Some(top) => top == n || is_node_of(n, top.left) || is_node_of(n, top.right),
    }
}

/// The height that the top of `t` caches, zero for the absent tree.
pub open spec fn cached_height<K, V>(t: Option<Box<Node<K, V>>>) -> int {
    match t {
        None => 0,
        Some(n) => n.height as int,
    }
}

/// The size that the top of `t` caches, zero for the absent tree.
pub open spec fn cached_size<K, V>(t: Option<Box<Node<K, V>>>) -> int {
    match t {
        None => 0,
        Some(n) => n.nodes_count as int,
    }
}

/// The top of a tree with exact caches carries the tree's height and size.
pub proof fn lemma_cached_top<K, V>(t: Option<Box<Node<K, V>>>)
    requires
        subtree_cached(t),
    ensures
        cached_height(t) == subtree_height(t),
        cached_size(t) == subtree_count(t),
{
}

/// The invariants hold at every node of a well-formed tree: the keys to the left sort
/// before the node's key and those to the right after it; the cached heights of the
/// two subtrees differ by one at most; and the node caches one more than the greater
/// of the two heights and one more than the sum of the two sizes, which is the number
/// of entries below and at the node.
pub proof fn lemma_every_node<K: Ord, V>(t: Option<Box<Node<K, V>>>, n: Box<Node<K, V>>)
    requires
        subtree_wf(t),
        is_node_of(n, t),
    ensures
        forall|k: K| #[trigger] subtree_map(n.left).contains_key(k) ==> key_lt(k, n.key),
        forall|k: K| #[trigger] subtree_map(n.right).contains_key(k) ==> key_lt(n.key, k),
        -1 <= cached_height(n.right) - cached_height(n.left) <= 1,
        n.height == 1 + if cached_height(n.left) >= cached_height(n.right) {
            cached_height(n.left)
        } else {
            cached_height(n.right)
        },
        n.nodes_count == 1 + cached_size(n.left) + cached_size(n.right),
        n.nodes_count == subtree_entries(Some(n)).len(),
    decreases t,
{
    let top = t.unwrap();
    if top == n {
        lemma_entries_len(t);
        lemma_cached_top(n.left);
        lemma_cached_top(n.right);
    } else if is_node_of(n, top.left) {
        lemma_every_node(top.left, n);
    } else {
        lemma_every_node(top.right, n);
    }
}

/// The keys of `s` grow strictly from each position to the next.
pub open spec fn strictly_increasing<K: Ord, V>(s: Seq<(K, V)>) -> bool {
    forall|i: int, j: int| 0 <= i < j < s.len() ==> key_lt((#[trigger] s[i]).0, (#[trigger] s[j]).0)
}

/// `s` lists exactly the pairs of `m`.
pub open spec fn lists_map<K, V>(s: Seq<(K, V)>, m: Map<K, V>) -> bool {
    &&& forall|i: int|
        0 <= i < s.len() ==> m.contains_key((#[trigger] s[i]).0) && m[s[i].0] == s[i].1
    &&& forall|k: K| m.contains_key(k) ==> exists|i: int| 0 <= i < s.len() && (#[trigger] s[i]).0 == k
}

/// The in-order sequence of a search tree is strictly increasing and lists exactly
/// the pairs of the tree's map.
pub proof fn lemma_entries_sorted<K: Ord, V>(t: Option<Box<Node<K, V>>>)
    requires
        total_order::<K>(),
        subtree_ordered(t),
    ensures
        strictly_increasing(subtree_entries(t)),
        lists_map(subtree_entries(t), subtree_map(t)),
    decreases t,
{
    if let Some(n) = t {
        lemma_entries_sorted(n.left);
        lemma_entries_sorted(n.right);
        lemma_entries_len(n.left);
        lemma_entries_len(n.right);
        let el = subtree_entries(n.left);
        let er = subtree_entries(n.right);
        let e = subtree_entries(t);
        let ml = subtree_map(n.left);
        let mr = subtree_map(n.right);
        let m = subtree_map(t);
        let mid = el.len() as int;
        assert(e.len() == mid + 1 + er.len());
        assert forall|i: int| 0 <= i < e.len() implies m.contains_key((#[trigger] e[i]).0) && m[e[i].0]
            == e[i].1 by {
            if i < mid {
                let k = el[i].0;
                assert(e[i] == el[i]);
                assert(ml.contains_key(k));
                lemma_lt_asymmetric(k, n.key);
                if mr.contains_key(k) {
                    lemma_lt_asymmetric(n.key, k);
                }
            } else if i > mid {
                let k = er[i - mid - 1].0;
                assert(e[i] == er[i - mid - 1]);
                assert(mr.contains_key(k));
                lemma_lt_asymmetric(n.key, k);
            }
        }
        assert forall|k: K| m.contains_key(k) implies exists|i: int|
            0 <= i < e.len() && (#[trigger] e[i]).0 == k by {
            if k == n.key {
                assert(e[mid].0 == k);
            } else if mr.contains_key(k) {
                let j = choose|j: int| 0 <= j < er.len() && (#[trigger] er[j]).0 == k;
                assert(e[mid + 1 + j] == er[j]);
            } else {
                assert(ml.contains_key(k));
                let j = choose|j: int| 0 <= j < el.len() && (#[trigger] el[j]).0 == k;
                assert(e[j] == el[j]);
            }
        }
        assert forall|i: int, j: int| 0 <= i < j < e.len() implies key_lt(
            (#[trigger] e[i]).0,
            (#[trigger] e[j]).0,
        ) by {
            if i < mid {
                assert(e[i] == el[i]);
                assert(ml.contains_key(el[i].0));
            }
            if j > mid {
                assert(e[j] == er[j - mid - 1]);
                assert(mr.contains_key(er[j - mid - 1].0));
            }
            if j < mid {
                assert(e[j] == el[j]);
            } else if i > mid {
                assert(e[i] == er[i - mid - 1]);
            } else if i < mid && j > mid {
                lemma_lt_transitive(e[i].0, n.key, e[j].0);
            }
        }
    }
}

/// Rank ordering: the entries of a map, which positional lookup indexes, come in
/// strictly increasing key order and are exactly the pairs of the map's view.
pub proof fn lemma_rank_order<K: Ord, V>(map: AVLTreeMap<K, V>)
    requires
        total_order::<K>(),
        map.well_formed(),
    ensures
        strictly_increasing(map.entries()),
        lists_map(map.entries(), map@),
        map.entries().len() == map@.len(),
{
    lemma_entries_sorted(map.tree());
    lemma_entries_len(map.tree());
    lemma_map_count(map.tree());
}

/// `m` after storing the pairs of `pairs` one after the other.
pub open spec fn insert_all<K, V>(m: Map<K, V>, pairs: Seq<(K, V)>) -> Map<K, V>
    decreases pairs.len(),
{
    if pairs.len() == 0 {
        m
    } else {
        insert_all(m, pairs.drop_last()).insert(pairs.last().0, pairs.last().1)
    }
}

/// `m` after removing the keys of `keys` one after the other.
pub open spec fn remove_all<K, V>(m: Map<K, V>, keys: Seq<K>) -> Map<K, V>
    decreases keys.len(),
{
    if keys.len() == 0 {
        m
    } else {
        remove_all(m, keys.drop_last()).remove(keys.last())
    }
}

/// After a run of insertions a map holds no key but its old ones and the inserted ones.
pub proof fn lemma_insert_all_keys<K, V>(m: Map<K, V>, pairs: Seq<(K, V)>, k: K)
    requires
        insert_all(m, pairs).contains_key(k),
    ensures
        m.contains_key(k) || exists|i: int| 0 <= i < pairs.len() && (#[trigger] pairs[i]).0 == k,
    decreases pairs.len(),
{
    if pairs.len() > 0 {
        if pairs.last().0 == k {
            assert(pairs[pairs.len() - 1].0 == k);
        } else {
            lemma_insert_all_keys(m, pairs.drop_last(), k);
            if !m.contains_key(k) {
                let i = choose|i: int|
                    0 <= i < pairs.drop_last().len() && (#[trigger] pairs.drop_last()[i]).0 == k;
                assert(pairs[i].0 == k);
            }
        }
    }
}

/// After a run of removals a map holds its old keys but for the removed ones.
pub proof fn lemma_remove_all_keys<K, V>(m: Map<K, V>, keys: Seq<K>, k: K)
    ensures
        remove_all(m, keys).contains_key(k) == (m.contains_key(k) && !keys.contains(k)),
    decreases keys.len(),
{
    if keys.len() > 0 {
        lemma_remove_all_keys(m, keys.drop_last(), k);
        if keys.contains(k) {
            let i = choose|i: int| 0 <= i < keys.len() && keys[i] == k;
            if i < keys.len() - 1 {
                assert(keys.drop_last()[i] == k);
            }
        } else if keys.drop_last().contains(k) {
            let i = choose|i: int| 0 <= i < keys.drop_last().len() && keys.drop_last()[i] == k;
            assert(keys[i] == k);
        }
    }
}

/// Round trip: inserting any pairs into an empty map and then removing every
/// inserted key, in whatever order and however often, leaves the empty map.
pub proof fn lemma_insert_remove_round_trip<K, V>(pairs: Seq<(K, V)>, keys: Seq<K>)
    requires
        forall|i: int| 0 <= i < pairs.len() ==> keys.contains((#[trigger] pairs[i]).0),
    ensures
        remove_all(insert_all(Map::<K, V>::empty(), pairs), keys) == Map::<K, V>::empty(),
{
    let filled = insert_all(Map::<K, V>::empty(), pairs);
    let drained = remove_all(filled, keys);
    assert forall|k: K| !drained.contains_key(k) by {
        lemma_remove_all_keys(filled, keys, k);
        if filled.contains_key(k) {
            lemma_insert_all_keys(Map::<K, V>::empty(), pairs, k);
        }
    }
    assert(drained =~= Map::<K, V>::empty());
}

/// Upsert: storing a value under a key that is present changes that key's value
/// and nothing else, so the number of entries stays.
pub proof fn lemma_upsert<K, V>(m: Map<K, V>, key: K, value: V)
    requires
        m.dom().finite(),
        m.contains_key(key),
    ensures
        m.insert(key, value).len() == m.len(),
        m.insert(key, value).dom() == m.dom(),
        m.insert(key, value)[key] == value,
        forall|k: K| k != key && m.contains_key(k) ==> m.insert(key, value)[k] == m[k],
{
    assert(m.insert(key, value).dom() =~= m.dom());
}

/// Removing a key that is not stored changes nothing.
pub proof fn lemma_remove_absent<K, V>(m: Map<K, V>, key: K)
    requires
        !m.contains_key(key),
    ensures
        m.remove(key) == m,
{
    assert(m.remove(key) =~= m);
}

} // verus!
