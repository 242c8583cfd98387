use vstd::prelude::*;
use vstd::std_specs::cmp::{OrdSpec, PartialOrdSpec};
use std::cmp::Ordering;

verus! {

/// `a` sorts strictly before `b` in the key order.
pub open spec fn key_lt<K: Ord>(a: K, b: K) -> bool {
    a.cmp_spec(&b) == Ordering::Less
}

/// Comparing `a` with `b` gives `Equal`.
pub open spec fn compares_equal<K: Ord>(a: K, b: K) -> bool {
    a.cmp_spec(&b) == Ordering::Equal
}

/// Comparing `a` with `b` gives `Greater`.
pub open spec fn compares_greater<K: Ord>(a: K, b: K) -> bool {
    a.cmp_spec(&b) == Ordering::Greater
}

/// `a < b` holds as the operator computes it.
pub open spec fn less_than<T: PartialOrd>(a: T, b: T) -> bool {
    a.partial_cmp_spec(&b) == Some(Ordering::Less)
}

/// The comparison of `K` is a strict total order whose `Equal` is equality of values.
#[verifier::opaque]
pub open spec fn total_order<K: Ord>() -> bool {
    &&& K::obeys_cmp_spec()
    &&& forall|a: K, b: K| #[trigger] a.cmp_spec(&b) == Ordering::Equal <==> a == b
    &&& forall|a: K, b: K| #[trigger] a.cmp_spec(&b) == Ordering::Greater <==> key_lt(b, a)
    &&& forall|a: K, b: K, c: K| #[trigger] key_lt(a, b) && #[trigger] key_lt(b, c) ==> key_lt(a, c)
}

/// The order of the unsigned 64-bit integers is such an order.
pub proof fn u64_total_order()
    ensures
        total_order::<u64>(),
{
    reveal(total_order);
}

/// The operator `<` of `T` is the strict order of its comparison.
#[verifier::opaque]
pub open spec fn less_than_agrees<T: Ord>() -> bool {
    &&& T::obeys_partial_cmp_spec()
    &&& forall|a: T, b: T| #[trigger] a.partial_cmp_spec(&b) == Some(Ordering::Less) <==> key_lt(a, b)
}

/// Every clone of a value of `T` equals the value.
#[verifier::opaque]
pub open spec fn clone_is_exact<T: Clone>() -> bool {
    forall|a: T, b: T| #[trigger] cloned(a, b) ==> a == b
}

/// The unsigned 64-bit integers compare with `<` as they do with their comparison,
/// and clone exactly.
pub proof fn u64_less_than_and_clone()
    ensures
        less_than_agrees::<u64>(),
        clone_is_exact::<u64>(),
{
    reveal(less_than_agrees);
    reveal(clone_is_exact);
}

/// What `a < b` computes.
pub proof fn lemma_less_than<T: Ord>(a: T, b: T)
    requires
        less_than_agrees::<T>(),
    ensures
        T::obeys_partial_cmp_spec(),
        less_than(a, b) <==> key_lt(a, b),
{
    reveal(less_than_agrees);
}

/// A clone equals what it was cloned from.
pub proof fn lemma_clone<T: Clone>(a: T, b: T)
    requires
        clone_is_exact::<T>(),
        cloned(a, b),
    ensures
        a == b,
{
    reveal(clone_is_exact);
}

/// What the three outcomes of comparing `a` with `b` mean.
pub proof fn lemma_compare<K: Ord>(a: K, b: K)
    requires
        total_order::<K>(),
    ensures
        K::obeys_cmp_spec(),
        compares_equal(a, b) <==> a == b,
        compares_greater(a, b) <==> key_lt(b, a),
{
    reveal(total_order);
}

/// No key sorts before itself.
pub proof fn lemma_lt_irreflexive<K: Ord>(a: K)
    requires
        total_order::<K>(),
    ensures
        !key_lt(a, a),
{
    reveal(total_order);
    assert(a.cmp_spec(&a) == Ordering::Equal);
}

/// Sorting before is transitive.
pub proof fn lemma_lt_transitive<K: Ord>(a: K, b: K, c: K)
    requires
        total_order::<K>(),
        key_lt(a, b),
        key_lt(b, c),
    ensures
        key_lt(a, c),
{
    reveal(total_order);
}

/// Of two keys at most one sorts before the other.
pub proof fn lemma_lt_asymmetric<K: Ord>(a: K, b: K)
    requires
        total_order::<K>(),
        key_lt(a, b),
    ensures
        !key_lt(b, a),
        a != b,
{
    lemma_lt_irreflexive(a);
    if key_lt(b, a) {
        lemma_lt_transitive(a, b, a);
    }
}

/// Two different keys are ordered one way or the other.
pub proof fn lemma_lt_connected<K: Ord>(a: K, b: K)
    requires
        total_order::<K>(),
        a != b,
    ensures
        key_lt(a, b) || key_lt(b, a),
{
    reveal(total_order);
    match a.cmp_spec(&b) {
        Ordering::Less => {},
        Ordering::Equal => {},
        Ordering::Greater => {},
    }
}

} // verus!
