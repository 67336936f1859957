//! An insertion-ordered map from text keys to values, the shape of every
//! index that the feeds are folded into. Its model is the sequence of
//! `(key, value)` pairs in the order in which the keys first appeared.

use crate::text::str_eq;
use vstd::prelude::*;

verus! {

/// Index of the first pair of `s` whose key is `k`, or `s.len()` when no pair
/// has that key.
pub open spec fn key_index<X>(s: Seq<(Seq<char>, X)>, k: Seq<char>) -> int
    decreases s.len(),
{
    if s.len() == 0 || s[0].0 == k {
        0
    } else {
        1 + key_index(s.drop_first(), k)
    }
}

/// Whether some pair of `s` has key `k`.
pub open spec fn assoc_has<X>(s: Seq<(Seq<char>, X)>, k: Seq<char>) -> bool {
    0 <= key_index(s, k) < s.len()
}

/// The value that `s` holds for `k`.
pub open spec fn assoc_get<X>(s: Seq<(Seq<char>, X)>, k: Seq<char>) -> Option<X> {
    if assoc_has(s, k) {
        Some(s[key_index(s, k)].1)
    } else {
        None
    }
}

/// `s` with `k` bound to `x`: the value is replaced where `k` is already a
/// key, keeping its place; otherwise the pair is appended.
pub open spec fn assoc_put<X>(s: Seq<(Seq<char>, X)>, k: Seq<char>, x: X) -> Seq<
    (Seq<char>, X),
> {
    if assoc_has(s, k) {
        s.update(key_index(s, k), (k, x))
    } else {
        s.push((k, x))
    }
}

/// No key occurs twice in `s`.
pub open spec fn distinct_keys<X>(s: Seq<(Seq<char>, X)>) -> bool {
    forall|i: int, j: int| 0 <= i < j < s.len() ==> (#[trigger] s[i]).0 != (#[trigger] s[j]).0
}

/// The keys of `s`, in order.
pub open spec fn assoc_keys<X>(s: Seq<(Seq<char>, X)>) -> Seq<Seq<char>> {
    Seq::new(s.len(), |i: int| s[i].0)
}

/// `key_index` lies within `s`, no pair before it has the key, and the pair
/// at it has the key unless it is the end of `s`.
pub proof fn lemma_key_index<X>(s: Seq<(Seq<char>, X)>, k: Seq<char>)
    ensures
        0 <= key_index(s, k) <= s.len(),
        forall|j: int| 0 <= j < key_index(s, k) ==> (#[trigger] s[j]).0 != k,
        key_index(s, k) < s.len() ==> s[key_index(s, k)].0 == k,
    decreases s.len(),
{
    if s.len() == 0 || s[0].0 == k {
    } else {
        let t = s.drop_first();
        lemma_key_index(t, k);
        assert forall|j: int| 0 <= j < key_index(s, k) implies (#[trigger] s[j]).0 != k by {
            if j > 0 {
                assert(s[j] == t[j - 1]);
            }
        }
        if key_index(s, k) < s.len() {
            assert(s[key_index(s, k)] == t[key_index(t, k)]);
        }
    }
}

/// A place before which no pair has the key, and at which a pair with the
/// key or the end of `s` stands, is `key_index`.
pub proof fn lemma_key_index_is<X>(s: Seq<(Seq<char>, X)>, k: Seq<char>, i: int)
    requires
        0 <= i <= s.len(),
        forall|j: int| 0 <= j < i ==> (#[trigger] s[j]).0 != k,
        i < s.len() ==> s[i].0 == k,
    ensures
        key_index(s, k) == i,
    decreases s.len(),
{
    if s.len() == 0 || s[0].0 == k {
        if i > 0 {
            assert(s[0].0 != k);
        }
    } else {
        let t = s.drop_first();
        assert forall|j: int| 0 <= j < i - 1 implies (#[trigger] t[j]).0 != k by {
            assert(t[j] == s[j + 1]);
        }
        if i < s.len() {
            assert(t[i - 1] == s[i]);
        }
        lemma_key_index_is(t, k, i - 1);
    }
}

/// Binding a key keeps the keys distinct, and the map then holds the new
/// value for that key and what it held before for every other key.
pub proof fn lemma_assoc_put<X>(s: Seq<(Seq<char>, X)>, k: Seq<char>, x: X)
    ensures
        assoc_get(assoc_put(s, k, x), k) == Some(x),
        forall|other: Seq<char>|
            other != k ==> assoc_get(assoc_put(s, k, x), other) == assoc_get(s, other),
        distinct_keys(s) ==> distinct_keys(assoc_put(s, k, x)),
{
    let p = assoc_put(s, k, x);
    let i = key_index(s, k);
    lemma_key_index(s, k);
    assert forall|j: int| 0 <= j < i implies (#[trigger] p[j]).0 != k by {
        assert(p[j] == s[j]);
    }
    lemma_key_index_is(p, k, i);
    assert forall|other: Seq<char>| other != k implies assoc_get(p, other) == assoc_get(
        s,
        other,
    ) by {
        let oi = key_index(s, other);
        lemma_key_index(s, other);
        assert forall|j: int| 0 <= j < oi && j < p.len() implies (#[trigger] p[j]).0 != other by {
            if j == i {
            } else {
                assert(p[j] == s[j]);
            }
        }
        if oi < s.len() {
            assert(oi != i);
            assert(p[oi] == s[oi]);
            lemma_key_index_is(p, other, oi);
        } else {
            assert forall|j: int| 0 <= j < p.len() implies (#[trigger] p[j]).0 != other by {
                if j < s.len() && j != i {
                    assert(p[j] == s[j]);
                }
            }
            lemma_key_index_is(p, other, p.len() as int);
        }
    }
    if distinct_keys(s) {
        assert forall|a: int, b: int| 0 <= a < b < p.len() implies (#[trigger] p[a]).0 != (
        #[trigger] p[b]).0 by {
            if i < s.len() {
                if a == i {
                    assert(p[b] == s[b]);
                    assert(s[i].0 != s[b].0);
                } else if b == i {
                    assert(p[a] == s[a]);
                    assert(s[a].0 != s[i].0);
                } else {
                    assert(p[a] == s[a] && p[b] == s[b]);
                }
            } else {
                if b == s.len() {
                    assert(p[a] == s[a]);
                } else {
                    assert(p[a] == s[a] && p[b] == s[b]);
                }
            }
        }
    }
}

/// Binding a key changes the pair at the key's place, or adds one there, and
/// no other pair.
pub proof fn lemma_assoc_put_pairs<X>(s: Seq<(Seq<char>, X)>, k: Seq<char>, x: X)
    ensures
        0 <= key_index(s, k) <= s.len(),
        assoc_put(s, k, x).len() == if assoc_has(s, k) {
            s.len()
        } else {
            s.len() + 1
        },
        forall|i: int|
            0 <= i < assoc_put(s, k, x).len() ==> #[trigger] assoc_put(s, k, x)[i] == if i
                == key_index(s, k) {
                (k, x)
            } else {
                s[i]
            },
{
    lemma_key_index(s, k);
}

/// One binding of an [`OrdMap`].
#[derive(Debug, Clone, PartialEq, Eq)]
pub struct Entry<V> {
    pub key: String,
    pub value: V,
}

/// A map from text keys to values that remembers the order in which its keys
/// were first bound. Lookups walk the bindings, so it is meant for the small
/// indices of the feeds. The order is part of the value: `==` holds of two
/// maps that hold the same bindings in the same order, and not of two that
/// hold them in different orders.
#[derive(Debug, Clone, PartialEq, Eq)]
pub struct OrdMap<V> {
    pub entries: Vec<Entry<V>>,
}

impl<V: DeepView> DeepView for OrdMap<V> {
    type V = Seq<(Seq<char>, V::V)>;

    open spec fn deep_view(&self) -> Seq<(Seq<char>, V::V)> {
        Seq::new(
            self.entries@.len(),
            |i: int| (self.entries@[i].key@, self.entries@[i].value.deep_view()),
        )
    }
}

impl<V: DeepView> OrdMap<V> {
    /// No key is bound twice.
    pub open spec fn wf(&self) -> bool {
        distinct_keys(self.deep_view())
    }

    /// The value bound to `key`.
    pub open spec fn spec_get(&self, key: Seq<char>) -> Option<V::V> {
        assoc_get(self.deep_view(), key)
    }

    /// The empty map.
    pub fn new() -> (m: Self)
        ensures
            m.deep_view() == Seq::<(Seq<char>, V::V)>::empty(),
            m.wf(),
    {
        let m = OrdMap { entries: Vec::new() };
        assert(m.deep_view() =~= Seq::<(Seq<char>, V::V)>::empty());
        m
    }

    /// The number of keys.
    pub fn len(&self) -> (n: usize)
        ensures
            n == self.deep_view().len(),
    {
        self.entries.len()
    }

    /// Whether the map has no key.
    pub fn is_empty(&self) -> (b: bool)
        ensures
            b == (self.deep_view().len() == 0),
    {
        self.entries.len() == 0
    }

    /// The place of `key` among the keys.
    pub fn position(&self, key: &str) -> (r: Option<usize>)
        ensures
            match r {
                Some(i) => i < self.entries@.len() && i == key_index(self.deep_view(), key@)
                    && self.entries@[i as int].key@ == key@,
                None => !assoc_has(self.deep_view(), key@),
            },
    {
        let mut i: usize = 0;
        while i < self.entries.len()
            invariant
                i <= self.entries@.len(),
                forall|j: int| 0 <= j < i ==> (#[trigger] self.deep_view()[j]).0 != key@,
            decreases self.entries@.len() - i,
        {
            if str_eq(self.entries[i].key.as_str(), key) {
                proof {
                    lemma_key_index_is(self.deep_view(), key@, i as int);
                }
                return Some(i);
            }
            i = i + 1;
        }
        proof {
            lemma_key_index_is(self.deep_view(), key@, self.entries@.len() as int);
        }
        None
    }

    /// Whether `key` is bound.
    pub fn contains_key(&self, key: &str) -> (b: bool)
        ensures
            b == assoc_has(self.deep_view(), key@),
    {
        self.position(key).is_some()
    }

    /// The value bound to `key`, if any.
    pub fn get(&self, key: &str) -> (r: Option<&V>)
        ensures
            r.deep_view() == self.spec_get(key@),
            r matches Some(v) ==> assoc_has(self.deep_view(), key@) && *v
                == self.entries@[key_index(self.deep_view(), key@)].value,
    {
        match self.position(key) {
            Some(i) => Some(&self.entries[i].value),
            None => None,
        }
    }

    /// The keys, in order of first binding.
    pub fn keys(&self) -> (r: Vec<String>)
        ensures
            r.deep_view() == assoc_keys(self.deep_view()),
    {
        let mut keys: Vec<String> = Vec::new();
        let mut i: usize = 0;
        while i < self.entries.len()
            invariant
                i <= self.entries@.len(),
                keys@.len() == i,
                forall|j: int| 0 <= j < i ==> (#[trigger] keys@[j])@ == self.entries@[j].key@,
            decreases self.entries@.len() - i,
        {
            keys.push(self.entries[i].key.clone());
            i = i + 1;
        }
        assert(keys.deep_view() =~= assoc_keys(self.deep_view()));
        keys
    }

    /// The key at place `i`.
    pub fn key_at(&self, i: usize) -> (k: &String)
        requires
            i < self.deep_view().len(),
        ensures
            k@ == self.deep_view()[i as int].0,
    {
        &self.entries[i].key
    }

    /// The value at place `i`.
    pub fn value_at(&self, i: usize) -> (v: &V)
        requires
            i < self.deep_view().len(),
        ensures
            v.deep_view() == self.deep_view()[i as int].1,
            *v == self.entries@[i as int].value,
    {
        &self.entries[i].value
    }

    /// Appends a binding without looking for the key.
    pub fn push_entry(&mut self, key: String, value: V)
        ensures
            final(self).deep_view() == old(self).deep_view().push((key@, value.deep_view())),
            final(self).entries@ == old(self).entries@.push(Entry { key, value }),
    {
        self.entries.push(Entry { key, value });
        assert(self.deep_view() =~= old(self).deep_view().push((key@, value.deep_view())));
    }

    /// Binds `key` to `value`, replacing what it was bound to.
    pub fn insert(&mut self, key: String, value: V)
        ensures
            final(self).deep_view() == assoc_put(
                old(self).deep_view(),
                key@,
                value.deep_view(),
            ),
            old(self).wf() ==> final(self).wf(),
    {
        proof {
            lemma_assoc_put(self.deep_view(), key@, value.deep_view());
        }
        match self.position(key.as_str()) {
            Some(i) => {
                self.entries[i].value = value;
                assert(self.deep_view() =~= old(self).deep_view().update(
                    i as int,
                    (key@, value.deep_view()),
                ));
            },
            None => {
                self.push_entry(key, value);
            },
        }
    }
}

/// What changing the value at one place does to the model: that pair's value
/// changes, and nothing else.
pub proof fn lemma_value_replaced<V: DeepView>(before: OrdMap<V>, after: OrdMap<V>, i: int)
    requires
        0 <= i < before.entries@.len(),
        after.entries@.len() == before.entries@.len(),
        after.entries@[i].key == before.entries@[i].key,
        forall|j: int|
            0 <= j < before.entries@.len() && j != i ==> after.entries@[j] == before.entries@[j],
    ensures
        after.deep_view() == before.deep_view().update(
            i,
            (before.entries@[i].key@, after.entries@[i].value.deep_view()),
        ),
{
    assert(after.deep_view() =~= before.deep_view().update(
        i,
        (before.entries@[i].key@, after.entries@[i].value.deep_view()),
    ));
}

} // verus!
