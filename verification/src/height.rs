use vstd::prelude::*;
use vstd::arithmetic::power2::{pow2, lemma2_to64, lemma_pow2_unfold, lemma_pow2_strictly_increases};
use crate::node::{Node, subtree_height, subtree_count, subtree_balanced};

verus! {

/// The least number of nodes that a height-balanced tree of height `h` can have.
pub open spec fn min_nodes(h: nat) -> nat
    decreases h,
{
    if h == 0 {
        0
    } else if h == 1 {
        1
    } else {
        1 + min_nodes((h - 1) as nat) + min_nodes((h - 2) as nat)
    }
}

/// `min_nodes` never decreases as the height grows.
pub proof fn lemma_min_nodes_monotonic(a: nat, b: nat)
    requires
        a <= b,
    ensures
        min_nodes(a) <= min_nodes(b),
    decreases b,
{
    if a < b {
        lemma_min_nodes_monotonic(a, (b - 1) as nat);
    }
}

/// A balanced tree of even height `2k` has at least `2^k - 1` nodes.
pub proof fn lemma_min_nodes_doubles(k: nat)
    ensures
        min_nodes(2 * k) + 1 >= pow2(k),
    decreases k,
{
    if k == 0 {
        lemma2_to64();
    } else {
        let j = (k - 1) as nat;
        lemma_min_nodes_doubles(j);
        lemma_min_nodes_monotonic(2 * j, 2 * j + 1);
        lemma_pow2_unfold(k);
        assert(min_nodes(2 * k) == 1 + min_nodes((2 * j + 1) as nat) + min_nodes(2 * j));
    }
}

/// A tree never has fewer nodes than its height.
pub proof fn lemma_height_le_count<K, V>(t: Option<Box<Node<K, V>>>)
    ensures
        subtree_height(t) <= subtree_count(t),
    decreases t,
{
    if let Some(n) = t {
        lemma_height_le_count(n.left);
        lemma_height_le_count(n.right);
    }
}

/// A height-balanced tree of height `h` has at least `min_nodes(h)` nodes.
pub proof fn lemma_balanced_count<K, V>(t: Option<Box<Node<K, V>>>)
    requires
        subtree_balanced(t),
    ensures
        subtree_count(t) >= min_nodes(subtree_height(t)),
    decreases t,
{
    if let Some(n) = t {
        lemma_balanced_count(n.left);
        lemma_balanced_count(n.right);
        let l = subtree_height(n.left);
        let r = subtree_height(n.right);
        let h = subtree_height(t);
        if h >= 2 {
            if l >= r {
                lemma_min_nodes_monotonic((h - 2) as nat, r);
            } else {
                lemma_min_nodes_monotonic((h - 2) as nat, l);
            }
        }
    }
}

/// The height of a balanced tree is logarithmic in its size: a tree of height `h`
/// holds at least `2^(h / 2) - 1` entries.
pub proof fn lemma_height_logarithmic<K, V>(t: Option<Box<Node<K, V>>>)
    requires
        subtree_balanced(t),
    ensures
        subtree_count(t) + 1 >= pow2(subtree_height(t) / 2),
{
    let h = subtree_height(t);
    let k = h / 2;
    lemma_balanced_count(t);
    lemma_min_nodes_doubles(k);
    lemma_min_nodes_monotonic(2 * k, h);
}

/// A balanced tree whose size fits a machine word is less than 130 levels high.
pub proof fn lemma_height_bound<K, V>(t: Option<Box<Node<K, V>>>)
    requires
        subtree_balanced(t),
        subtree_count(t) <= usize::MAX,
    ensures
        subtree_height(t) < 130,
{
    let h = subtree_height(t);
    if h >= 130 {
        lemma_height_logarithmic(t);
        lemma2_to64();
        lemma_pow2_unfold(65);
        if h / 2 > 65 {
            lemma_pow2_strictly_increases(65, h / 2);
        }
        assert(pow2(h / 2) >= pow2(65));
        assert(false);
    }
}

} // verus!
