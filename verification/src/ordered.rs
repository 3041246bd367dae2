//! Sorted collections over keys with a strict total order.
//!
//! `OrdSet` and `OrdMap` keep their keys ascending and distinct, so lookups are
//! binary searches and iteration order is the key order. `MultiIndex` maps a
//! key to a non-empty `OrdSet`.
use vstd::prelude::*;

verus! {

/// A key with a strict total order.
pub trait Key: Copy {
    spec fn lt(a: Self, b: Self) -> bool;

    proof fn lt_irreflexive(a: Self)
        ensures
            !Self::lt(a, a),
    ;

    proof fn lt_transitive(a: Self, b: Self, c: Self)
        requires
            Self::lt(a, b),
            Self::lt(b, c),
        ensures
            Self::lt(a, c),
    ;

    proof fn lt_total(a: Self, b: Self)
        ensures
            a == b || Self::lt(a, b) || Self::lt(b, a),
    ;

    fn less(&self, other: &Self) -> (r: bool)
        ensures
            r == Self::lt(*self, *other),
    ;
}

impl Key for u64 {
    open spec fn lt(a: Self, b: Self) -> bool {
        a < b
    }

    proof fn lt_irreflexive(a: Self) {
    }

    proof fn lt_transitive(a: Self, b: Self, c: Self) {
    }

    proof fn lt_total(a: Self, b: Self) {
    }

    fn less(&self, other: &Self) -> (r: bool) {
        *self < *other
    }
}

impl Key for u32 {
    open spec fn lt(a: Self, b: Self) -> bool {
        a < b
    }

    proof fn lt_irreflexive(a: Self) {
    }

    proof fn lt_transitive(a: Self, b: Self, c: Self) {
    }

    proof fn lt_total(a: Self, b: Self) {
    }

    fn less(&self, other: &Self) -> (r: bool) {
        *self < *other
    }
}

/// Keys in strictly ascending order.
pub open spec fn ascending<K: Key>(s: Seq<K>) -> bool {
    forall|i: int, j: int| 0 <= i < j < s.len() ==> K::lt(#[trigger] s[i], #[trigger] s[j])
}

/// The elements of a finite set in ascending order.
pub open spec fn sorted<K: Key>(s: Set<K>) -> Seq<K> {
    choose|q: Seq<K>| ascending(q) && q.to_set() == s
}

pub proof fn lemma_ascending_distinct<K: Key>(s: Seq<K>)
    requires
        ascending(s),
    ensures
        s.no_duplicates(),
{
    assert forall|i: int, j: int| 0 <= i < s.len() && 0 <= j < s.len() && i != j implies s[i] != s[j] by {
        if i < j {
            K::lt_irreflexive(s[i]);
        } else {
            K::lt_irreflexive(s[j]);
        }
    }
}

/// An ascending sequence is determined by its elements.
pub proof fn lemma_ascending_unique<K: Key>(a: Seq<K>, b: Seq<K>)
    requires
        ascending(a),
        ascending(b),
        a.to_set() == b.to_set(),
    ensures
        a == b,
    decreases a.len(),
{
    lemma_ascending_distinct(a);
    lemma_ascending_distinct(b);
    a.unique_seq_to_set();
    b.unique_seq_to_set();
    if a.len() > 0 {
        let x = a[0];
        let y = b[0];
        assert(a.to_set().contains(x));
        assert(b.to_set().contains(y));
        assert(a.contains(y) && b.contains(x));
        let i = choose|i: int| 0 <= i < a.len() && a[i] == y;
        let j = choose|j: int| 0 <= j < b.len() && b[j] == x;
        if x != y {
            K::lt_transitive(x, y, x);
            K::lt_irreflexive(x);
        }
        let ta = a.drop_first();
        let tb = b.drop_first();
        assert forall|i: int, j: int| 0 <= i < j < ta.len() implies K::lt(#[trigger] ta[i], #[trigger] ta[j]) by {
            assert(K::lt(a[i + 1], a[j + 1]));
        }
        assert forall|i: int, j: int| 0 <= i < j < tb.len() implies K::lt(#[trigger] tb[i], #[trigger] tb[j]) by {
            assert(K::lt(b[i + 1], b[j + 1]));
        }
        assert(ta.to_set() =~= a.to_set().remove(x)) by {
            assert forall|e: K| ta.to_set().contains(e) <==> a.to_set().remove(x).contains(e) by {
                if ta.contains(e) {
                    let k = choose|k: int| 0 <= k < ta.len() && ta[k] == e;
                    assert(a[k + 1] == e);
                }
                if a.to_set().remove(x).contains(e) {
                    let k = choose|k: int| 0 <= k < a.len() && a[k] == e;
                    assert(ta[k - 1] == e);
                }
            }
        }
        assert(tb.to_set() =~= b.to_set().remove(x)) by {
            assert forall|e: K| tb.to_set().contains(e) <==> b.to_set().remove(x).contains(e) by {
                if tb.contains(e) {
                    let k = choose|k: int| 0 <= k < tb.len() && tb[k] == e;
                    assert(b[k + 1] == e);
                }
                if b.to_set().remove(x).contains(e) {
                    let k = choose|k: int| 0 <= k < b.len() && b[k] == e;
                    assert(tb[k - 1] == e);
                }
            }
        }
        lemma_ascending_unique(ta, tb);
        assert(a =~= seq![x] + ta);
        assert(b =~= seq![y] + tb);
    } else {
        assert(b.len() == 0);
        assert(a =~= b);
    }
}

/// Any ascending listing of a set is `sorted` of it.
pub proof fn lemma_sorted_is<K: Key>(q: Seq<K>)
    requires
        ascending(q),
    ensures
        sorted(q.to_set()) == q,
{
    let s = sorted(q.to_set());
    assert(ascending(s) && s.to_set() == q.to_set());
    lemma_ascending_unique(s, q);
}

/// A set of keys, listed in ascending order.
pub struct OrdSet<K> {
    items: Vec<K>,
}

impl<K: Key> View for OrdSet<K> {
    type V = Set<K>;

    closed spec fn view(&self) -> Set<K> {
        self.items@.to_set()
    }
}

/// Where a key stands, or would stand, in an ascending list.
fn lower_bound<K: Key>(items: &Vec<K>, key: &K) -> (r: (usize, bool))
    requires
        ascending(items@),
    ensures
        r.0 <= items.len(),
        forall|i: int| 0 <= i < r.0 ==> K::lt(#[trigger] items@[i], *key),
        forall|i: int| r.0 <= i < items.len() ==> !K::lt(#[trigger] items@[i], *key),
        r.1 == (r.0 < items.len() && items@[r.0 as int] == *key),
        r.1 == items@.contains(*key),
{
    let mut lo: usize = 0;
    let mut hi: usize = items.len();
    while lo < hi
        invariant
            lo <= hi <= items.len(),
            ascending(items@),
            forall|i: int| 0 <= i < lo ==> K::lt(#[trigger] items@[i], *key),
            forall|i: int| hi <= i < items.len() ==> !K::lt(#[trigger] items@[i], *key),
        decreases hi - lo,
    {
        let mid: usize = lo + (hi - lo) / 2;
        if items[mid].less(key) {
            assert forall|i: int| 0 <= i < mid + 1 implies K::lt(#[trigger] items@[i], *key) by {
                if i < mid {
                    K::lt_transitive(items@[i], items@[mid as int], *key);
                }
            }
            lo = mid + 1;
        } else {
            assert forall|i: int| mid <= i < items.len() implies !K::lt(#[trigger] items@[i], *key) by {
                if mid < i && K::lt(items@[i], *key) {
                    K::lt_transitive(items@[mid as int], items@[i], *key);
                }
            }
            hi = mid;
        }
    }
    let found: bool = lo < items.len() && !key.less(&items[lo]);
    proof {
        if lo < items.len() {
            K::lt_total(items@[lo as int], *key);
            K::lt_irreflexive(*key);
        }
        if items@.contains(*key) {
            let k = choose|k: int| 0 <= k < items@.len() && items@[k] == *key;
            K::lt_irreflexive(*key);
            assert(k >= lo);
            if k > lo {
                assert(K::lt(items@[lo as int], items@[k]));
            }
        }
    }
    (lo, found)
}

proof fn lemma_insert_sorted<K: Key>(s: Seq<K>, at: int, key: K)
    requires
        ascending(s),
        0 <= at <= s.len(),
        forall|i: int| 0 <= i < at ==> K::lt(#[trigger] s[i], key),
        forall|i: int| at <= i < s.len() ==> !K::lt(#[trigger] s[i], key),
        !s.contains(key),
    ensures
        ascending(s.insert(at, key)),
        s.insert(at, key).to_set() == s.to_set().insert(key),
{
    let t = s.insert(at, key);
    assert forall|i: int, j: int| 0 <= i < j < t.len() implies K::lt(#[trigger] t[i], #[trigger] t[j]) by {
        let oi = if i < at { i } else { i - 1 };
        let oj = if j < at { j } else { j - 1 };
        if i == at {
            assert(t[j] == s[oj]);
            K::lt_total(s[oj], key);
            assert(s.contains(s[oj]));
        } else if j == at {
            assert(t[i] == s[oi]);
        } else {
            assert(t[i] == s[oi] && t[j] == s[oj]);
        }
    }
    assert(t.to_set() =~= s.to_set().insert(key)) by {
        assert forall|e: K| t.to_set().contains(e) <==> s.to_set().insert(key).contains(e) by {
            if t.contains(e) {
                let k = choose|k: int| 0 <= k < t.len() && t[k] == e;
                if k < at {
                    assert(s[k] == e);
                } else if k > at {
                    assert(s[k - 1] == e);
                }
            }
            if s.contains(e) {
                let k = choose|k: int| 0 <= k < s.len() && s[k] == e;
                if k < at {
                    assert(t[k] == e);
                } else {
                    assert(t[k + 1] == e);
                }
            }
            assert(t[at] == key);
        }
    }
}

proof fn lemma_remove_sorted<K: Key>(s: Seq<K>, at: int)
    requires
        ascending(s),
        0 <= at < s.len(),
    ensures
        ascending(s.remove(at)),
        s.remove(at).to_set() == s.to_set().remove(s[at]),
{
    lemma_ascending_distinct(s);
    let t = s.remove(at);
    assert forall|i: int, j: int| 0 <= i < j < t.len() implies K::lt(#[trigger] t[i], #[trigger] t[j]) by {
        let oi = if i < at { i } else { i + 1 };
        let oj = if j < at { j } else { j + 1 };
        assert(t[i] == s[oi] && t[j] == s[oj]);
    }
    assert(t.to_set() =~= s.to_set().remove(s[at])) by {
        assert forall|e: K| t.to_set().contains(e) <==> s.to_set().remove(s[at]).contains(e) by {
            if t.contains(e) {
                let k = choose|k: int| 0 <= k < t.len() && t[k] == e;
                let ok = if k < at { k } else { k + 1 };
                assert(s[ok] == e);
            }
            if s.to_set().remove(s[at]).contains(e) {
                let k = choose|k: int| 0 <= k < s.len() && s[k] == e;
                let nk = if k < at { k } else { k - 1 };
                assert(t[nk] == e);
            }
        }
    }
}

/// Where a key belongs in an ascending sequence.
spec fn place<K: Key>(s: Seq<K>, key: K) -> int
    decreases s.len(),
{
    if s.len() == 0 || K::lt(s.last(), key) {
        s.len() as int
    } else {
        place(s.drop_last(), key)
    }
}

proof fn lemma_place<K: Key>(s: Seq<K>, key: K)
    requires
        ascending(s),
    ensures
        0 <= place(s, key) <= s.len(),
        forall|i: int| 0 <= i < place(s, key) ==> K::lt(#[trigger] s[i], key),
        forall|i: int| place(s, key) <= i < s.len() ==> !K::lt(#[trigger] s[i], key),
    decreases s.len(),
{
    if s.len() > 0 {
        if K::lt(s.last(), key) {
            assert forall|i: int| 0 <= i < s.len() implies K::lt(#[trigger] s[i], key) by {
                if i < s.len() - 1 {
                    assert(K::lt(s[i], s[s.len() - 1]));
                    K::lt_transitive(s[i], s.last(), key);
                }
            }
        } else {
            let rest = s.drop_last();
            assert(ascending(rest)) by {
                assert forall|i: int, j: int| 0 <= i < j < rest.len() implies K::lt(
                    #[trigger] rest[i],
                    #[trigger] rest[j],
                ) by {
                    assert(K::lt(s[i], s[j]));
                }
            }
            lemma_place(rest, key);
            assert forall|i: int| 0 <= i < place(s, key) implies K::lt(#[trigger] s[i], key) by {
                assert(rest[i] == s[i]);
            }
            assert forall|i: int| place(s, key) <= i < s.len() implies !K::lt(
                #[trigger] s[i],
                key,
            ) by {
                if i < rest.len() {
                    assert(rest[i] == s[i]);
                }
            }
        }
    }
}

/// Every finite set can be listed in ascending order.
pub proof fn lemma_sorted_exists<K: Key>(s: Set<K>)
    requires
        s.finite(),
    ensures
        ascending(sorted(s)),
        sorted(s).to_set() == s,
        sorted(s).len() == s.len(),
    decreases s.len(),
{
    let q = if s.len() == 0 {
        let q = Seq::<K>::empty();
        assert(q.to_set() =~= s);
        q
    } else {
        let x = s.choose();
        lemma_sorted_exists(s.remove(x));
        let rest = sorted(s.remove(x));
        lemma_place(rest, x);
        assert(!rest.contains(x)) by {
            if rest.contains(x) {
                assert(rest.to_set().contains(x));
            }
        }
        lemma_insert_sorted(rest, place(rest, x), x);
        let q = rest.insert(place(rest, x), x);
        assert(q.to_set() =~= s);
        q
    };
    assert(ascending(q) && q.to_set() == s);
    let c = sorted(s);
    assert(ascending(c) && c.to_set() == s);
    lemma_ascending_distinct(c);
    c.unique_seq_to_set();
}

impl<K: Key> OrdSet<K> {
    pub closed spec fn wf(self) -> bool {
        ascending(self.items@)
    }

    /// The elements, ascending.
    pub closed spec fn listing(self) -> Seq<K> {
        self.items@
    }

    pub proof fn lemma_listing(self)
        requires
            self.wf(),
        ensures
            ascending(self.listing()),
            self.listing().to_set() == self@,
            self.listing() == sorted(self@),
            self.listing().no_duplicates(),
            self.listing().len() == self@.len(),
            self@.finite(),
    {
        lemma_sorted_is(self.items@);
        lemma_ascending_distinct(self.items@);
        self.items@.unique_seq_to_set();
    }

    pub fn new() -> (r: Self)
        ensures
            r.wf(),
            r@ == Set::<K>::empty(),
    {
        let r = OrdSet { items: Vec::new() };
        assert(r@ =~= Set::<K>::empty());
        r
    }

    pub fn len(&self) -> (n: usize)
        requires
            self.wf(),
        ensures
            n == self@.len(),
            self@.finite(),
    {
        proof {
            self.lemma_listing();
        }
        self.items.len()
    }

    pub fn is_empty(&self) -> (r: bool)
        requires
            self.wf(),
        ensures
            r == (self@ == Set::<K>::empty()),
    {
        proof {
            if self.items@.len() > 0 {
                assert(self@.contains(self.items@[0]));
            } else {
                assert(self@ =~= Set::<K>::empty());
            }
        }
        self.items.len() == 0
    }

    pub fn contains(&self, key: &K) -> (r: bool)
        requires
            self.wf(),
        ensures
            r == self@.contains(*key),
    {
        let (_at, found) = lower_bound(&self.items, key);
        found
    }

    /// Adds the key; whether it was new.
    pub fn insert(&mut self, key: K) -> (added: bool)
        requires
            old(self).wf(),
        ensures
            final(self).wf(),
            final(self)@ == old(self)@.insert(key),
            added == !old(self)@.contains(key),
    {
        let (at, found) = lower_bound(&self.items, &key);
        if found {
            assert(self@.insert(key) =~= self@);
            return false;
        }
        proof {
            lemma_insert_sorted(self.items@, at as int, key);
        }
        self.items.insert(at, key);
        true
    }

    /// Removes the key; whether it was there.
    pub fn remove(&mut self, key: &K) -> (removed: bool)
        requires
            old(self).wf(),
        ensures
            final(self).wf(),
            final(self)@ == old(self)@.remove(*key),
            removed == old(self)@.contains(*key),
    {
        let (at, found) = lower_bound(&self.items, key);
        if !found {
            assert(self@.remove(*key) =~= self@);
            return false;
        }
        proof {
            lemma_remove_sorted(self.items@, at as int);
        }
        let _gone = self.items.remove(at);
        true
    }

    pub fn at(&self, index: usize) -> (key: K)
        requires
            self.wf(),
            index < self@.len(),
        ensures
            key == self.listing()[index as int],
            self@.contains(key),
    {
        proof {
            self.lemma_listing();
            assert(self.items@.contains(self.items@[index as int]));
        }
        self.items[index]
    }

    pub fn first(&self) -> (key: Option<K>)
        requires
            self.wf(),
        ensures
            key is None <==> self@ == Set::<K>::empty(),
            key matches Some(k) ==> self@.contains(k) && sorted(self@)[0] == k && forall|o: K|
                #[trigger] self@.contains(o) ==> o == k || K::lt(k, o),
    {
        proof {
            self.lemma_listing();
            if self.items@.len() > 0 {
                assert(self@.contains(self.items@[0]));
                assert forall|o: K| #[trigger] self@.contains(o) implies o == self.items@[0] || K::lt(
                    self.items@[0],
                    o,
                ) by {
                    let i = choose|i: int| 0 <= i < self.items@.len() && self.items@[i] == o;
                    assert(self.items@[i] == o);
                }
            } else {
                assert(self@ =~= Set::<K>::empty());
            }
        }
        if self.items.len() == 0 {
            None
        } else {
            Some(self.items[0])
        }
    }

    /// A copy of the elements, ascending.
    pub fn to_vec(&self) -> (r: Vec<K>)
        requires
            self.wf(),
        ensures
            r@ == sorted(self@),
            r@ == self.listing(),
            ascending(r@),
            r@.to_set() == self@,
    {
        let mut r: Vec<K> = Vec::new();
        let mut i: usize = 0;
        while i < self.items.len()
            invariant
                i <= self.items.len(),
                r@ == self.items@.take(i as int),
            decreases self.items.len() - i,
        {
            r.push(self.items[i]);
            i += 1;
            assert(self.items@.take(i as int) =~= self.items@.take(i - 1).push(self.items@[i - 1]));
        }
        assert(self.items@.take(self.items.len() as int) =~= self.items@);
        proof {
            self.lemma_listing();
        }
        r
    }
}

/// A map from keys to values, listed in ascending key order.
pub struct OrdMap<K, V> {
    keys: Vec<K>,
    values: Vec<V>,
}

spec fn keyed<K, V>(keys: Seq<K>, values: Seq<V>) -> Map<K, V> {
    Map::new(|k: K| keys.contains(k), |k: K| values[keys.index_of(k)])
}

proof fn lemma_keyed_at<K: Key, V>(keys: Seq<K>, values: Seq<V>, i: int)
    requires
        ascending(keys),
        keys.len() == values.len(),
        0 <= i < keys.len(),
    ensures
        keyed(keys, values).dom().contains(keys[i]),
        keyed(keys, values)[keys[i]] == values[i],
        keys.index_of(keys[i]) == i,
{
    lemma_ascending_distinct(keys);
    assert(keys.contains(keys[i]));
    let j = keys.index_of(keys[i]);
    assert(0 <= j < keys.len() && keys[j] == keys[i]);
}

impl<K: Key, V> View for OrdMap<K, V> {
    type V = Map<K, V>;

    closed spec fn view(&self) -> Map<K, V> {
        keyed(self.keys@, self.values@)
    }
}

impl<K: Key, V> OrdMap<K, V> {
    pub closed spec fn wf(self) -> bool {
        &&& ascending(self.keys@)
        &&& self.keys@.len() == self.values@.len()
    }

    /// The keys, ascending.
    pub closed spec fn listing(self) -> Seq<K> {
        self.keys@
    }

    pub proof fn lemma_listing(self)
        requires
            self.wf(),
        ensures
            ascending(self.listing()),
            self.listing().to_set() == self@.dom(),
            self.listing() == sorted(self@.dom()),
            self.listing().no_duplicates(),
            self.listing().len() == self@.dom().len(),
            self@.dom().finite(),
            self@.len() == self@.dom().len(),
            forall|k: K| #[trigger] self@.dom().contains(k) <==> self.listing().contains(k),
    {
        assert(self.keys@.to_set() =~= self@.dom());
        lemma_sorted_is(self.keys@);
        lemma_ascending_distinct(self.keys@);
        self.keys@.unique_seq_to_set();
    }

    pub fn new() -> (r: Self)
        ensures
            r.wf(),
            r@ == Map::<K, V>::empty(),
    {
        let r = OrdMap { keys: Vec::new(), values: Vec::new() };
        assert(r@ =~= Map::<K, V>::empty());
        r
    }

    pub fn len(&self) -> (n: usize)
        requires
            self.wf(),
        ensures
            n == self@.dom().len(),
            n == self.listing().len(),
    {
        proof {
            self.lemma_listing();
        }
        self.keys.len()
    }

    pub fn is_empty(&self) -> (r: bool)
        requires
            self.wf(),
        ensures
            r == (self@ == Map::<K, V>::empty()),
    {
        proof {
            if self.keys@.len() > 0 {
                lemma_keyed_at(self.keys@, self.values@, 0);
            } else {
                assert(self@ =~= Map::<K, V>::empty());
            }
        }
        self.keys.len() == 0
    }

    pub fn contains_key(&self, key: &K) -> (r: bool)
        requires
            self.wf(),
        ensures
            r == self@.dom().contains(*key),
    {
        let (_at, found) = lower_bound(&self.keys, key);
        found
    }

    pub fn get(&self, key: &K) -> (r: Option<&V>)
        requires
            self.wf(),
        ensures
            match r {
                Some(v) => self@.dom().contains(*key) && *v == self@[*key],
                None => !self@.dom().contains(*key),
            },
    {
        let (at, found) = lower_bound(&self.keys, key);
        if found {
            proof {
                lemma_keyed_at(self.keys@, self.values@, at as int);
            }
            Some(&self.values[at])
        } else {
            None
        }
    }

    pub fn get_mut(&mut self, key: &K) -> (r: Option<&mut V>)
        requires
            old(self).wf(),
        ensures
            final(self).wf(),
            final(self).listing() == old(self).listing(),
            match r {
                Some(v) => {
                    &&& old(self)@.dom().contains(*key)
                    &&& *v == old(self)@[*key]
                    &&& final(self)@ == old(self)@.insert(*key, *final(v))
                },
                None => !old(self)@.dom().contains(*key) && final(self)@ == old(self)@,
            },
    {
        let (at, found) = lower_bound(&self.keys, key);
        if found {
            proof {
                let keys = self.keys@;
                let values = self.values@;
                lemma_keyed_at(keys, values, at as int);
                assert forall|v: V| keyed(keys, #[trigger] values.update(at as int, v)) == keyed(
                    keys,
                    values,
                ).insert(*key, v) by {
                    let n = values.update(at as int, v);
                    assert(keyed(keys, n) =~= keyed(keys, values).insert(*key, v)) by {
                        assert forall|k: K| keyed(keys, n).dom().contains(k) implies keyed(keys, n)[k]
                            == keyed(keys, values).insert(*key, v)[k] by {
                            let i = keys.index_of(k);
                            assert(0 <= i < keys.len() && keys[i] == k);
                            lemma_keyed_at(keys, n, i);
                            lemma_keyed_at(keys, values, i);
                        }
                    }
                }
            }
            Some(&mut self.values[at])
        } else {
            None
        }
    }

    pub fn insert(&mut self, key: K, value: V) -> (r: Option<V>)
        requires
            old(self).wf(),
        ensures
            final(self).wf(),
            final(self)@ == old(self)@.insert(key, value),
            match r {
                Some(v) => old(self)@.dom().contains(key) && v == old(self)@[key],
                None => !old(self)@.dom().contains(key),
            },
    {
        let (at, found) = lower_bound(&self.keys, &key);
        let ghost keys = self.keys@;
        let ghost values = self.values@;
        if found {
            proof {
                lemma_keyed_at(keys, values, at as int);
            }
            let mut prior: V = value;
            std::mem::swap(&mut prior, &mut self.values[at]);
            proof {
                let n = self.values@;
                assert(n =~= values.update(at as int, value));
                assert(keyed(keys, n) =~= keyed(keys, values).insert(key, value)) by {
                    assert forall|k: K| keyed(keys, n).dom().contains(k) implies keyed(keys, n)[k]
                        == keyed(keys, values).insert(key, value)[k] by {
                        let i = keys.index_of(k);
                        assert(0 <= i < keys.len() && keys[i] == k);
                        lemma_keyed_at(keys, n, i);
                        lemma_keyed_at(keys, values, i);
                    }
                }
            }
            Some(prior)
        } else {
            proof {
                lemma_insert_sorted(keys, at as int, key);
            }
            self.keys.insert(at, key);
            self.values.insert(at, value);
            proof {
                let nk = self.keys@;
                let nv = self.values@;
                assert(keyed(nk, nv) =~= keyed(keys, values).insert(key, value)) by {
                    assert(nk.to_set() =~= keys.to_set().insert(key));
                    assert forall|k: K| keyed(nk, nv).dom().contains(k) <==> keyed(
                        keys,
                        values,
                    ).insert(key, value).dom().contains(k) by {
                        assert(nk.to_set().contains(k) <==> keys.to_set().insert(key).contains(k));
                    }
                    assert forall|k: K| keyed(nk, nv).dom().contains(k) implies keyed(nk, nv)[k]
                        == keyed(keys, values).insert(key, value)[k] by {
                        let i = nk.index_of(k);
                        assert(0 <= i < nk.len() && nk[i] == k);
                        lemma_keyed_at(nk, nv, i);
                        if i < at {
                            lemma_keyed_at(keys, values, i);
                        } else if i > at {
                            lemma_keyed_at(keys, values, i - 1);
                        }
                    }
                }
            }
            None
        }
    }

    pub fn remove(&mut self, key: &K) -> (r: Option<V>)
        requires
            old(self).wf(),
        ensures
            final(self).wf(),
            final(self)@ == old(self)@.remove(*key),
            match r {
                Some(v) => old(self)@.dom().contains(*key) && v == old(self)@[*key],
                None => !old(self)@.dom().contains(*key) && final(self)@ == old(self)@,
            },
    {
        let (at, found) = lower_bound(&self.keys, key);
        let ghost keys = self.keys@;
        let ghost values = self.values@;
        if !found {
            assert(self@.remove(*key) =~= self@);
            return None;
        }
        proof {
            lemma_remove_sorted(keys, at as int);
            lemma_keyed_at(keys, values, at as int);
        }
        let _key = self.keys.remove(at);
        let value = self.values.remove(at);
        proof {
            let nk = self.keys@;
            let nv = self.values@;
            assert(keyed(nk, nv) =~= keyed(keys, values).remove(*key)) by {
                assert forall|k: K| keyed(nk, nv).dom().contains(k) <==> keyed(keys, values).remove(
                    *key,
                ).dom().contains(k) by {
                    assert(nk.to_set().contains(k) <==> keys.to_set().remove(*key).contains(k));
                }
                assert forall|k: K| keyed(nk, nv).dom().contains(k) implies keyed(nk, nv)[k] == keyed(
                    keys,
                    values,
                ).remove(*key)[k] by {
                    let i = nk.index_of(k);
                    assert(0 <= i < nk.len() && nk[i] == k);
                    lemma_keyed_at(nk, nv, i);
                    if i < at {
                        lemma_keyed_at(keys, values, i);
                    } else {
                        lemma_keyed_at(keys, values, i + 1);
                    }
                }
            }
        }
        Some(value)
    }

    pub fn key_at(&self, index: usize) -> (key: K)
        requires
            self.wf(),
            index < self.listing().len(),
        ensures
            key == self.listing()[index as int],
            self@.dom().contains(key),
    {
        proof {
            lemma_keyed_at(self.keys@, self.values@, index as int);
        }
        self.keys[index]
    }

    pub fn value_at(&self, index: usize) -> (value: &V)
        requires
            self.wf(),
            index < self.listing().len(),
        ensures
            self@.dom().contains(self.listing()[index as int]),
            *value == self@[self.listing()[index as int]],
    {
        proof {
            lemma_keyed_at(self.keys@, self.values@, index as int);
        }
        &self.values[index]
    }

    /// How many keys come before a key, and whether the key is there.
    pub fn position(&self, key: &K) -> (r: (usize, bool))
        requires
            self.wf(),
        ensures
            r.0 <= self.listing().len(),
            forall|i: int| 0 <= i < r.0 ==> K::lt(#[trigger] self.listing()[i], *key),
            forall|i: int| r.0 <= i < self.listing().len() ==> !K::lt(#[trigger] self.listing()[i], *key),
            r.1 == self@.dom().contains(*key),
            r.1 ==> r.0 < self.listing().len() && self.listing()[r.0 as int] == *key,
    {
        lower_bound(&self.keys, key)
    }

    /// A copy of the keys, ascending.
    pub fn keys(&self) -> (r: Vec<K>)
        requires
            self.wf(),
        ensures
            r@ == sorted(self@.dom()),
            r@ == self.listing(),
            ascending(r@),
            r@.to_set() == self@.dom(),
    {
        let mut r: Vec<K> = Vec::new();
        let mut i: usize = 0;
        while i < self.keys.len()
            invariant
                i <= self.keys.len(),
                r@ == self.keys@.take(i as int),
            decreases self.keys.len() - i,
        {
            r.push(self.keys[i]);
            i += 1;
            assert(self.keys@.take(i as int) =~= self.keys@.take(i - 1).push(self.keys@[i - 1]));
        }
        assert(self.keys@.take(self.keys.len() as int) =~= self.keys@);
        proof {
            self.lemma_listing();
        }
        r
    }
}

/// A relation from keys to items, indexed by key. No key has an empty set.
pub struct MultiIndex<K, I> {
    map: OrdMap<K, OrdSet<I>>,
}

impl<K: Key, I: Key> MultiIndex<K, I> {
    pub closed spec fn wf(self) -> bool {
        &&& self.map.wf()
        &&& forall|k: K| #[trigger]
            self.map@.dom().contains(k) ==> self.map@[k].wf() && self.map@[k]@ != Set::<I>::empty()
    }

    /// The items under a key.
    pub closed spec fn at(self, key: K) -> Set<I> {
        if self.map@.dom().contains(key) {
            self.map@[key]@
        } else {
            Set::empty()
        }
    }

    /// The keys that have an item.
    pub closed spec fn keys(self) -> Set<K> {
        self.map@.dom()
    }

    pub fn new() -> (r: Self)
        ensures
            r.wf(),
            forall|k: K| #[trigger] r.at(k) == Set::<I>::empty(),
    {
        MultiIndex { map: OrdMap::new() }
    }

    pub fn is_empty(&self) -> (r: bool)
        requires
            self.wf(),
        ensures
            r == (forall|k: K| #[trigger] self.at(k) == Set::<I>::empty()),
    {
        proof {
            if self.map@ != Map::<K, OrdSet<I>>::empty() {
                if self.map@.dom() =~= Set::<K>::empty() {
                    assert(self.map@ =~= Map::<K, OrdSet<I>>::empty());
                }
                let k = choose|k: K| self.map@.dom().contains(k);
                assert(self.at(k) != Set::<I>::empty());
            }
        }
        self.map.is_empty()
    }

    pub fn count(&self, key: &K) -> (n: usize)
        requires
            self.wf(),
        ensures
            n == self.at(*key).len(),
    {
        match self.map.get(key) {
            Some(set) => set.len(),
            None => 0,
        }
    }

    pub fn contains(&self, key: &K, item: &I) -> (r: bool)
        requires
            self.wf(),
        ensures
            r == self.at(*key).contains(*item),
    {
        match self.map.get(key) {
            Some(set) => set.contains(item),
            None => false,
        }
    }

    /// The items under a key, ascending.
    pub fn list(&self, key: &K) -> (r: Vec<I>)
        requires
            self.wf(),
        ensures
            r@ == sorted(self.at(*key)),
            ascending(r@),
            r@.to_set() == self.at(*key),
            r@.len() == self.at(*key).len(),
    {
        match self.map.get(key) {
            Some(set) => {
                proof {
                    set.lemma_listing();
                }
                set.to_vec()
            },
            None => {
                let r: Vec<I> = Vec::new();
                proof {
                    assert(r@.to_set() =~= Set::<I>::empty());
                    lemma_sorted_is(r@);
                }
                r
            },
        }
    }

    /// The least item under a key.
    pub fn front(&self, key: &K) -> (r: Option<I>)
        requires
            self.wf(),
        ensures
            r is None <==> self.at(*key) == Set::<I>::empty(),
            r matches Some(i) ==> self.at(*key).contains(i) && sorted(self.at(*key))[0] == i && forall|
                o: I,
            | #[trigger] self.at(*key).contains(o) ==> o == i || I::lt(i, o),
    {
        match self.map.get(key) {
            Some(set) => set.first(),
            None => None,
        }
    }

    pub fn insert(&mut self, key: K, item: I)
        requires
            old(self).wf(),
        ensures
            final(self).wf(),
            final(self).at(key) == old(self).at(key).insert(item),
            forall|k: K| k != key ==> #[trigger] final(self).at(k) == old(self).at(k),
    {
        match self.map.get_mut(&key) {
            Some(set) => {
                let _added = set.insert(item);
                assert(set@.contains(item));
            },
            None => {
                let mut set = OrdSet::new();
                let _added = set.insert(item);
                assert(set@.contains(item));
                let _prior = self.map.insert(key, set);
            },
        }
    }

    pub fn remove(&mut self, key: &K, item: &I)
        requires
            old(self).wf(),
        ensures
            final(self).wf(),
            final(self).at(*key) == old(self).at(*key).remove(*item),
            forall|k: K| k != *key ==> #[trigger] final(self).at(k) == old(self).at(k),
    {
        match self.map.remove(key) {
            Some(mut set) => {
                let _removed = set.remove(item);
                if !set.is_empty() {
                    let _none = self.map.insert(*key, set);
                }
            },
            None => {
                assert(old(self).at(*key).remove(*item) =~= Set::<I>::empty());
            },
        }
    }
}

} // verus!
