//! Sums over the entries of a map.
use vstd::prelude::*;

verus! {

/// The sum of a quantity over all entries.
pub open spec fn sum_over<V>(map: Map<u64, V>, f: spec_fn(V) -> nat) -> nat
    decreases map.dom().len(),
    when map.dom().finite()
{
    if map.dom().len() == 0 {
        0
    } else {
        let k = map.dom().choose();
        f(map[k]) + sum_over(map.remove(k), f)
    }
}

pub proof fn lemma_sum_remove<V>(map: Map<u64, V>, f: spec_fn(V) -> nat, k: u64)
    requires
        map.dom().finite(),
        map.dom().contains(k),
    ensures
        sum_over(map, f) == f(map[k]) + sum_over(map.remove(k), f),
    decreases map.dom().len(),
{
    let c = map.dom().choose();
    assert(map.dom().contains(c));
    if c != k {
        lemma_sum_remove(map.remove(c), f, k);
        lemma_sum_remove(map.remove(k), f, c);
        assert(map.remove(c).remove(k) =~= map.remove(k).remove(c));
    }
}

pub proof fn lemma_sum_insert<V>(map: Map<u64, V>, f: spec_fn(V) -> nat, k: u64, value: V)
    requires
        map.dom().finite(),
    ensures
        sum_over(map.insert(k, value), f) == f(value) + sum_over(map.remove(k), f),
        map.dom().contains(k) ==> sum_over(map, f) == f(map[k]) + sum_over(map.remove(k), f),
        !map.dom().contains(k) ==> sum_over(map, f) == sum_over(map.remove(k), f),
{
    lemma_sum_remove(map.insert(k, value), f, k);
    assert(map.insert(k, value).remove(k) =~= map.remove(k));
    if map.dom().contains(k) {
        lemma_sum_remove(map, f, k);
    } else {
        assert(map.remove(k) =~= map);
    }
}

pub proof fn lemma_sum_empty<V>(f: spec_fn(V) -> nat)
    ensures
        sum_over(Map::<u64, V>::empty(), f) == 0,
{
    assert(Map::<u64, V>::empty().dom() =~= Set::empty());
}

} // verus!
