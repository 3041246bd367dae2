//! Counting the entries of a sequence.
use vstd::prelude::*;

verus! {

/// The sum of a quantity over the entries of a sequence.
pub open spec fn tally<T>(s: Seq<T>, f: spec_fn(T) -> nat) -> nat
    decreases s.len(),
{
    if s.len() == 0 {
        0
    } else {
        tally(s.drop_last(), f) + f(s.last())
    }
}

pub proof fn lemma_push<T>(s: Seq<T>, f: spec_fn(T) -> nat, x: T)
    ensures
        tally(s.push(x), f) == tally(s, f) + f(x),
{
    assert(s.push(x).drop_last() =~= s);
}

pub proof fn lemma_update<T>(s: Seq<T>, f: spec_fn(T) -> nat, i: int, x: T)
    requires
        0 <= i < s.len(),
    ensures
        tally(s.update(i, x), f) + f(s[i]) == tally(s, f) + f(x),
        tally(s, f) >= f(s[i]),
    decreases s.len(),
{
    let n = s.update(i, x);
    if i == s.len() - 1 {
        assert(n.drop_last() =~= s.drop_last());
    } else {
        assert(n.drop_last() =~= s.drop_last().update(i, x));
        lemma_update(s.drop_last(), f, i, x);
    }
}

pub proof fn lemma_first<T>(s: Seq<T>, f: spec_fn(T) -> nat)
    requires
        s.len() > 0,
    ensures
        tally(s, f) == f(s[0]) + tally(s.drop_first(), f),
    decreases s.len(),
{
    if s.len() == 1 {
        assert(s.drop_last() =~= Seq::<T>::empty());
        assert(s.drop_first() =~= Seq::<T>::empty());
    } else {
        lemma_first(s.drop_last(), f);
        assert(s.drop_last().drop_first() =~= s.drop_first().drop_last());
    }
}

/// Sequences whose entries weigh alike weigh alike.
pub proof fn lemma_alike<T>(a: Seq<T>, b: Seq<T>, f: spec_fn(T) -> nat)
    requires
        a.len() == b.len(),
        forall|i: int| 0 <= i < a.len() ==> f(#[trigger] a[i]) == f(b[i]),
    ensures
        tally(a, f) == tally(b, f),
    decreases a.len(),
{
    if a.len() > 0 {
        assert forall|i: int| 0 <= i < a.len() - 1 implies f(#[trigger] a.drop_last()[i]) == f(
            b.drop_last()[i],
        ) by {
            assert(f(a[i]) == f(b[i]));
        }
        lemma_alike(a.drop_last(), b.drop_last(), f);
        assert(f(a[a.len() - 1]) == f(b[a.len() - 1]));
    }
}

/// An entry that weighs something makes the whole weigh something.
pub proof fn lemma_member<T>(s: Seq<T>, f: spec_fn(T) -> nat, i: int)
    requires
        0 <= i < s.len(),
    ensures
        tally(s, f) >= f(s[i]),
{
    lemma_update(s, f, i, s[i]);
}

} // verus!
