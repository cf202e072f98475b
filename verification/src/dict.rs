//! An association list that keeps its entries in insertion order.

use vstd::prelude::*;

verus! {

/// A key that can be compared for identity.
pub trait Id: Copy {
    fn same(&self, other: &Self) -> (r: bool)
        ensures
            r == (*self == *other),
    ;
}

impl Id for u32 {
    fn same(&self, other: &Self) -> (r: bool) {
        *self == *other
    }
}

impl Id for usize {
    fn same(&self, other: &Self) -> (r: bool) {
        *self == *other
    }
}

/// No key occurs twice in `s`.
pub open spec fn unique_keys<K, V>(s: Seq<(K, V)>) -> bool {
    forall|i: int, j: int| 0 <= i < j < s.len() ==> (#[trigger] s[i]).0 != (#[trigger] s[j]).0
}

/// Some entry of `s` is bound to `k`.
pub open spec fn has_key<K, V>(s: Seq<(K, V)>, k: K) -> bool {
    exists|i: int| 0 <= i < s.len() && (#[trigger] s[i]).0 == k
}

/// `i` is the first place of `s` that is bound to `k`.
pub open spec fn first_at<K, V>(s: Seq<(K, V)>, k: K, i: int) -> bool {
    &&& 0 <= i < s.len()
    &&& s[i].0 == k
    &&& forall|j: int| 0 <= j < i ==> (#[trigger] s[j]).0 != k
}

/// The place of the entry bound to `k`.
pub open spec fn key_pos<K, V>(s: Seq<(K, V)>, k: K) -> int {
    choose|i: int| first_at(s, k, i)
}

/// What `k` is bound to in `s`.
pub open spec fn lookup<K, V>(s: Seq<(K, V)>, k: K) -> Option<V> {
    if has_key(s, k) {
        Some(s[key_pos(s, k)].1)
    } else {
        None
    }
}

/// `s` with `k` bound to `v`: in place where `k` was bound before, else at the end.
pub open spec fn put<K, V>(s: Seq<(K, V)>, k: K, v: V) -> Seq<(K, V)> {
    if has_key(s, k) {
        s.update(key_pos(s, k), (k, v))
    } else {
        s.push((k, v))
    }
}

/// `s` without the entry bound to `k`.
pub open spec fn removed<K, V>(s: Seq<(K, V)>, k: K) -> Seq<(K, V)> {
    if has_key(s, k) {
        s.remove(key_pos(s, k))
    } else {
        s
    }
}

/// A key that is bound has a first place.
pub proof fn lemma_key_pos<K, V>(s: Seq<(K, V)>, k: K)
    requires
        has_key(s, k),
    ensures
        first_at(s, k, key_pos(s, k)),
{
    let i = choose|i: int| 0 <= i < s.len() && (#[trigger] s[i]).0 == k;
    lemma_first_exists(s, k, i);
}

proof fn lemma_first_exists<K, V>(s: Seq<(K, V)>, k: K, i: int)
    requires
        0 <= i < s.len(),
        s[i].0 == k,
    ensures
        exists|j: int| first_at(s, k, j),
    decreases i,
{
    if forall|j: int| 0 <= j < i ==> (#[trigger] s[j]).0 != k {
        assert(first_at(s, k, i));
    } else {
        let j = choose|j: int| 0 <= j < i && (#[trigger] s[j]).0 == k;
        lemma_first_exists(s, k, j);
    }
}

/// Where no key occurs twice, an entry is found at its own place.
pub proof fn lemma_lookup_at<K, V>(s: Seq<(K, V)>, i: int)
    requires
        unique_keys(s),
        0 <= i < s.len(),
    ensures
        has_key(s, s[i].0),
        key_pos(s, s[i].0) == i,
        lookup(s, s[i].0) == Some(s[i].1),
{
    lemma_key_pos(s, s[i].0);
}

/// Binding a key keeps keys unique, binds that key to the new value and leaves every other
/// binding as it was.
pub proof fn lemma_put<K, V>(s: Seq<(K, V)>, k: K, v: V)
    requires
        unique_keys(s),
    ensures
        unique_keys(put(s, k, v)),
        lookup(put(s, k, v), k) == Some(v),
        forall|q: K| q != k ==> #[trigger] lookup(put(s, k, v), q) == lookup(s, q),
{
    let t = put(s, k, v);
    if has_key(s, k) {
        lemma_key_pos(s, k);
    }
    assert(unique_keys(t));
    let p = if has_key(s, k) {
        key_pos(s, k)
    } else {
        s.len() as int
    };
    assert(t[p] == (k, v));
    lemma_lookup_at(t, p);
    assert forall|q: K| q != k implies #[trigger] lookup(t, q) == lookup(s, q) by {
        if has_key(s, q) {
            lemma_key_pos(s, q);
            let i = key_pos(s, q);
            assert(t[i] == s[i]);
            lemma_lookup_at(t, i);
        } else if has_key(t, q) {
            lemma_key_pos(t, q);
            let i = key_pos(t, q);
            assert(s[i] == t[i]);
        }
    }
}

/// Removing a key keeps keys unique, unbinds that key and leaves every other binding as it was.
pub proof fn lemma_removed<K, V>(s: Seq<(K, V)>, k: K)
    requires
        unique_keys(s),
    ensures
        unique_keys(removed(s, k)),
        !has_key(removed(s, k), k),
        forall|q: K| q != k ==> #[trigger] lookup(removed(s, k), q) == lookup(s, q),
{
    let t = removed(s, k);
    if has_key(s, k) {
        lemma_key_pos(s, k);
        let p = key_pos(s, k);
        assert forall|i: int| 0 <= i < t.len() implies #[trigger] t[i] == s[if i < p {
            i
        } else {
            i + 1
        }] by {}
        assert(unique_keys(t));
        assert forall|q: K| q != k implies #[trigger] lookup(t, q) == lookup(s, q) by {
            if has_key(s, q) {
                lemma_key_pos(s, q);
                let i = key_pos(s, q);
                let j = if i < p {
                    i
                } else {
                    i - 1
                };
                assert(t[j] == s[i]);
                lemma_lookup_at(t, j);
            } else if has_key(t, q) {
                lemma_key_pos(t, q);
                let i = key_pos(t, q);
                assert(s[if i < p {
                    i
                } else {
                    i + 1
                }] == t[i]);
            }
        }
    }
}

/// A key is bound to a value exactly if the pair is in the list, and to none exactly if no pair
/// with that key is.
pub proof fn law_lookup<K, V>(s: Seq<(K, V)>, k: K)
    requires
        unique_keys(s),
    ensures
        forall|v: V| (lookup(s, k) == Some(v)) <==> #[trigger] s.contains((k, v)),
        has_key(s, k) <==> exists|v: V| #[trigger] s.contains((k, v)),
        has_key(s, k) <==> lookup(s, k) is Some,
{
    if has_key(s, k) {
        lemma_key_pos(s, k);
        let p = key_pos(s, k);
        assert(s[p] == (k, s[p].1));
        assert(s.contains((k, s[p].1)));
    }
    assert forall|v: V| #[trigger] s.contains((k, v)) implies lookup(s, k) == Some(v) by {
        let i = choose|i: int| 0 <= i < s.len() && s[i] == (k, v);
        lemma_lookup_at(s, i);
    }
}

/// Once a key is bound to a value it is bound to that value only, and every other pair is there
/// exactly if it was there before.
pub proof fn law_put<K, V>(s: Seq<(K, V)>, k: K, v: V)
    requires
        unique_keys(s),
    ensures
        forall|q: K, w: V| #[trigger]
            put(s, k, v).contains((q, w)) <==> if q == k {
                w == v
            } else {
                s.contains((q, w))
            },
{
    lemma_put(s, k, v);
    let t = put(s, k, v);
    assert forall|q: K, w: V| #[trigger] t.contains((q, w)) <==> if q == k {
        w == v
    } else {
        s.contains((q, w))
    } by {
        law_lookup(t, q);
        law_lookup(s, q);
        assert(t.contains((q, w)) <==> lookup(t, q) == Some(w));
        assert(s.contains((q, w)) <==> lookup(s, q) == Some(w));
    }
}

/// Once a key is removed no pair with it is left, and every other pair is there exactly if it was
/// there before.
pub proof fn law_removed<K, V>(s: Seq<(K, V)>, k: K)
    requires
        unique_keys(s),
    ensures
        forall|q: K, w: V| #[trigger]
            removed(s, k).contains((q, w)) <==> q != k && s.contains((q, w)),
{
    lemma_removed(s, k);
    let t = removed(s, k);
    assert forall|q: K, w: V| #[trigger] t.contains((q, w)) <==> q != k && s.contains((q, w)) by {
        law_lookup(t, q);
        law_lookup(s, q);
        assert(t.contains((q, w)) <==> lookup(t, q) == Some(w));
        assert(s.contains((q, w)) <==> lookup(s, q) == Some(w));
        assert(!has_key(t, k));
    }
}

/// Bindings from keys to values, walked in the order in which the keys were first bound.
pub struct Dict<K, V> {
    pub entries: Vec<(K, V)>,
}

impl<K, V> View for Dict<K, V> {
    type V = Seq<(K, V)>;

    open spec fn view(&self) -> Seq<(K, V)> {
        self.entries@
    }
}

impl<K: Id, V: Copy> Dict<K, V> {
    pub fn new() -> (d: Self)
        ensures
            d@ == Seq::<(K, V)>::empty(),
    {
        Dict { entries: Vec::new() }
    }

    pub fn position(&self, k: K) -> (r: Option<usize>)
        ensures
            match r {
                Some(i) => has_key(self@, k) && i == key_pos(self@, k) && first_at(
                    self@,
                    k,
                    i as int,
                ),
                None => !has_key(self@, k),
            },
    {
        for i in 0..self.entries.len()
            invariant
                forall|j: int| 0 <= j < i ==> (#[trigger] self@[j]).0 != k,
        {
            if self.entries[i].0.same(&k) {
                assert(first_at(self@, k, i as int));
                proof {
                    lemma_key_pos(self@, k);
                }
                return Some(i);
            }
        }
        None
    }

    pub fn get(&self, k: K) -> (r: Option<V>)
        ensures
            r == lookup(self@, k),
    {
        match self.position(k) {
            Some(i) => Some(self.entries[i].1),
            None => None,
        }
    }

    pub fn contains_key(&self, k: K) -> (r: bool)
        ensures
            r == has_key(self@, k),
    {
        self.position(k).is_some()
    }

    pub fn insert(&mut self, k: K, v: V)
        ensures
            final(self)@ == put(old(self)@, k, v),
    {
        match self.position(k) {
            Some(i) => {
                self.entries[i] = (k, v);
            },
            None => {
                self.entries.push((k, v));
            },
        }
    }

    pub fn remove(&mut self, k: K) -> (r: Option<V>)
        ensures
            final(self)@ == removed(old(self)@, k),
            r == lookup(old(self)@, k),
    {
        match self.position(k) {
            Some(i) => {
                let e = self.entries.remove(i);
                Some(e.1)
            },
            None => None,
        }
    }
}

} // verus!
