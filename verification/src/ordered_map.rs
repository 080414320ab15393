//! A map kept as a vector of entries in strictly ascending key order. Every
//! replicated type stores its per-node and per-element state in one of these,
//! so equal states have equal representations.

use crate::element::Element;
use crate::wire::{
    decode_list, encode_list, lemma_parse_list, list_encodable, list_encoding, parse_list,
};
use vstd::prelude::*;

verus! {

/// Keys stand in strictly ascending order.
pub open spec fn keys_ascend<K: Element, V>(s: Seq<(K::V, V)>) -> bool {
    forall|i: int, j: int| #![trigger s[i], s[j]] 0 <= i < j < s.len() ==> K::lt(s[i].0, s[j].0)
}

/// The values of a sequence stand in strictly ascending order.
pub open spec fn ascends<K: Element>(s: Seq<K::V>) -> bool {
    forall|i: int, j: int| #![trigger s[i], s[j]] 0 <= i < j < s.len() ==> K::lt(s[i], s[j])
}

/// Some entry has the key `k`.
pub open spec fn has_key<K, V>(s: Seq<(K, V)>, k: K) -> bool {
    exists|i: int| #![trigger s[i]] 0 <= i < s.len() && s[i].0 == k
}

/// The place of an entry with the key `k`.
pub open spec fn index_of<K, V>(s: Seq<(K, V)>, k: K) -> int {
    choose|i: int| #![trigger s[i]] 0 <= i < s.len() && s[i].0 == k
}

/// The map that a sequence of entries stands for.
pub open spec fn as_map<K, V>(s: Seq<(K, V)>) -> Map<K, V> {
    Map::new(|k: K| has_key(s, k), |k: K| s[index_of(s, k)].1)
}

/// In ascending order no key occurs twice.
pub proof fn lemma_keys_distinct<K: Element, V>(s: Seq<(K::V, V)>, i: int, j: int)
    requires
        keys_ascend::<K, V>(s),
        0 <= i < s.len(),
        0 <= j < s.len(),
        s[i].0 == s[j].0,
    ensures
        i == j,
{
    K::lemma_lt_irreflexive(s[i].0);
    if i < j {
        assert(K::lt(s[i].0, s[j].0));
    } else if j < i {
        assert(K::lt(s[j].0, s[i].0));
    }
}

/// The map holds each entry under its key.
pub proof fn lemma_lookup<K: Element, V>(s: Seq<(K::V, V)>, i: int)
    requires
        keys_ascend::<K, V>(s),
        0 <= i < s.len(),
    ensures
        has_key(s, s[i].0),
        index_of(s, s[i].0) == i,
        as_map(s).contains_key(s[i].0),
        as_map(s)[s[i].0] == s[i].1,
{
    let k = s[i].0;
    assert(has_key(s, k));
    lemma_keys_distinct::<K, V>(s, i, index_of(s, k));
}

/// A key of the map is the key of some entry.
pub proof fn lemma_entry_of<K: Element, V>(s: Seq<(K::V, V)>, k: K::V) -> (i: int)
    requires
        keys_ascend::<K, V>(s),
        as_map(s).contains_key(k),
    ensures
        0 <= i < s.len(),
        s[i].0 == k,
        s[i].1 == as_map(s)[k],
{
    index_of(s, k)
}

/// Putting an entry in at its place puts it into the map.
pub proof fn lemma_insert_at<K: Element, V>(s: Seq<(K::V, V)>, p: int, e: (K::V, V))
    requires
        keys_ascend::<K, V>(s),
        0 <= p <= s.len(),
        forall|j: int| 0 <= j < p ==> K::lt(#[trigger] s[j].0, e.0),
        forall|j: int| p <= j < s.len() ==> K::lt(e.0, #[trigger] s[j].0),
    ensures
        keys_ascend::<K, V>(s.insert(p, e)),
        as_map(s.insert(p, e)) == as_map(s).insert(e.0, e.1),
{
    let t = s.insert(p, e);
    assert forall|i: int, j: int| #![trigger t[i], t[j]] 0 <= i < j < t.len() implies K::lt(
        t[i].0,
        t[j].0,
    ) by {
        let si = if i < p { i } else { i - 1 };
        let sj = if j < p { j } else { j - 1 };
        if i != p && j != p {
            assert(t[i] == s[si]);
            assert(t[j] == s[sj]);
        } else if i == p {
            assert(t[j] == s[sj]);
        } else {
            assert(t[i] == s[si]);
        }
    }
    let m = as_map(s).insert(e.0, e.1);
    assert forall|k: K::V| as_map(t).contains_key(k) == m.contains_key(k) by {
        if as_map(t).contains_key(k) {
            let i = index_of(t, k);
            if i != p {
                let si = if i < p { i } else { i - 1 };
                assert(t[i] == s[si]);
                assert(has_key(s, k));
            }
        }
        if m.contains_key(k) {
            if k == e.0 {
                assert(t[p] == e);
                assert(has_key(t, k));
            } else {
                let si = index_of(s, k);
                let i = if si < p { si } else { si + 1 };
                assert(t[i] == s[si]);
                assert(has_key(t, k));
            }
        }
    }
    assert forall|k: K::V| as_map(t).contains_key(k) implies as_map(t)[k] == m[k] by {
        let i = index_of(t, k);
        lemma_lookup::<K, V>(t, i);
        if i == p {
            assert(t[p] == e);
        } else {
            let si = if i < p { i } else { i - 1 };
            assert(t[i] == s[si]);
            lemma_lookup::<K, V>(s, si);
            K::lemma_lt_irreflexive(e.0);
        }
    }
    assert(as_map(t) =~= m);
}

/// Replacing the value of an entry replaces it in the map.
pub proof fn lemma_update_at<K: Element, V>(s: Seq<(K::V, V)>, p: int, v: V)
    requires
        keys_ascend::<K, V>(s),
        0 <= p < s.len(),
    ensures
        keys_ascend::<K, V>(s.update(p, (s[p].0, v))),
        as_map(s.update(p, (s[p].0, v))) == as_map(s).insert(s[p].0, v),
{
    let e = (s[p].0, v);
    let t = s.update(p, e);
    assert forall|i: int, j: int| #![trigger t[i], t[j]] 0 <= i < j < t.len() implies K::lt(
        t[i].0,
        t[j].0,
    ) by {
        assert(t[i].0 == s[i].0);
        assert(t[j].0 == s[j].0);
    }
    let m = as_map(s).insert(e.0, e.1);
    assert forall|k: K::V| as_map(t).contains_key(k) == m.contains_key(k) by {
        if as_map(t).contains_key(k) {
            let i = index_of(t, k);
            assert(t[i].0 == s[i].0);
            assert(has_key(s, k));
        }
        if m.contains_key(k) {
            if k == e.0 {
                assert(t[p] == e);
                assert(has_key(t, k));
            } else {
                let i = index_of(s, k);
                assert(t[i].0 == s[i].0);
                assert(has_key(t, k));
            }
        }
    }
    assert forall|k: K::V| as_map(t).contains_key(k) implies as_map(t)[k] == m[k] by {
        let i = index_of(t, k);
        lemma_lookup::<K, V>(t, i);
        if i != p {
            assert(t[i] == s[i]);
            lemma_lookup::<K, V>(s, i);
            if t[i].0 == t[p].0 {
                lemma_keys_distinct::<K, V>(t, i, p);
            }
        }
    }
    assert(as_map(t) =~= m);
}

/// Taking an entry out takes its key out of the map.
pub proof fn lemma_remove_at<K: Element, V>(s: Seq<(K::V, V)>, p: int)
    requires
        keys_ascend::<K, V>(s),
        0 <= p < s.len(),
    ensures
        keys_ascend::<K, V>(s.remove(p)),
        as_map(s.remove(p)) == as_map(s).remove(s[p].0),
{
    let t = s.remove(p);
    assert forall|i: int, j: int| #![trigger t[i], t[j]] 0 <= i < j < t.len() implies K::lt(
        t[i].0,
        t[j].0,
    ) by {
        let si = if i < p { i } else { i + 1 };
        let sj = if j < p { j } else { j + 1 };
        assert(t[i] == s[si]);
        assert(t[j] == s[sj]);
    }
    let m = as_map(s).remove(s[p].0);
    assert forall|k: K::V| as_map(t).contains_key(k) == m.contains_key(k) by {
        if as_map(t).contains_key(k) {
            let i = index_of(t, k);
            let si = if i < p { i } else { i + 1 };
            assert(t[i] == s[si]);
            assert(has_key(s, k));
            if k == s[p].0 {
                lemma_keys_distinct::<K, V>(s, si, p);
            }
        }
        if m.contains_key(k) {
            let si = index_of(s, k);
            let i = if si < p { si } else { si - 1 };
            assert(t[i] == s[si]);
            assert(has_key(t, k));
        }
    }
    assert forall|k: K::V| as_map(t).contains_key(k) implies as_map(t)[k] == m[k] by {
        let i = index_of(t, k);
        lemma_lookup::<K, V>(t, i);
        let si = if i < p { i } else { i + 1 };
        assert(t[i] == s[si]);
        lemma_lookup::<K, V>(s, si);
        if k == s[p].0 {
            lemma_keys_distinct::<K, V>(s, si, p);
        }
    }
    assert(as_map(t) =~= m);
}

/// The first entries of an ascending sequence ascend, and one entry more
/// adds that entry to their map.
pub proof fn lemma_take_next<K: Element, V>(s: Seq<(K::V, V)>, n: int)
    requires
        keys_ascend::<K, V>(s),
        0 <= n < s.len(),
    ensures
        keys_ascend::<K, V>(s.take(n)),
        keys_ascend::<K, V>(s.take(n + 1)),
        !as_map(s.take(n)).contains_key(s[n].0),
        as_map(s.take(n + 1)) == as_map(s.take(n)).insert(s[n].0, s[n].1),
{
    let t = s.take(n);
    assert forall|i: int, j: int| #![trigger t[i], t[j]] 0 <= i < j < t.len() implies K::lt(
        t[i].0,
        t[j].0,
    ) by {
        assert(t[i] == s[i]);
        assert(t[j] == s[j]);
    }
    assert forall|j: int| 0 <= j < n implies K::lt(#[trigger] t[j].0, s[n].0) by {
        assert(t[j] == s[j]);
    }
    if as_map(t).contains_key(s[n].0) {
        let i = index_of(t, s[n].0);
        assert(t[i] == s[i]);
        lemma_keys_distinct::<K, V>(s, i, n);
    }
    lemma_insert_at::<K, V>(t, n, s[n]);
    assert(t.insert(n, s[n]) =~= s.take(n + 1));
}

/// A row of entries, each by its view.
pub open spec fn entries_of<K: Element, V: Element>(row: Seq<(K, V)>) -> Seq<(K::V, V::V)> {
    Seq::new(row.len(), |i: int| (row[i].0.deep_view(), row[i].1.deep_view()))
}

/// One more entry at the end, with a key above all others, is one more entry
/// of the map.
pub proof fn lemma_push_last<K: Element, V>(s: Seq<(K::V, V)>, e: (K::V, V))
    requires
        keys_ascend::<K, V>(s),
        forall|j: int| 0 <= j < s.len() ==> K::lt(#[trigger] s[j].0, e.0),
    ensures
        keys_ascend::<K, V>(s.push(e)),
        as_map(s.push(e)) == as_map(s).insert(e.0, e.1),
        !as_map(s).contains_key(e.0),
{
    lemma_insert_at::<K, V>(s, s.len() as int, e);
    assert(s.insert(s.len() as int, e) =~= s.push(e));
    if as_map(s).contains_key(e.0) {
        let j = index_of(s, e.0);
        K::lemma_lt_irreflexive(e.0);
        assert(K::lt(s[j].0, e.0));
    }
}

/// A key above all keys of a sequence is no key of its map.
pub proof fn lemma_above_absent<K: Element, V>(s: Seq<(K::V, V)>, k: K::V)
    requires
        forall|j: int| 0 <= j < s.len() ==> K::lt(#[trigger] s[j].0, k),
    ensures
        !as_map(s).contains_key(k),
{
    if as_map(s).contains_key(k) {
        let j = index_of(s, k);
        K::lemma_lt_irreflexive(k);
        assert(K::lt(s[j].0, k));
    }
}

/// A map over values that are elements, kept in strictly ascending key order.
#[derive(Debug, Clone, PartialEq, Eq, Hash)]
pub struct OrderedMap<K: Element, V: Element> {
    entries: Vec<(K, V)>,
}

impl<K: Element, V: Element> OrderedMap<K, V> {
    /// The entries in storage order, each by its view.
    pub closed spec fn entries(&self) -> Seq<(K::V, V::V)> {
        entries_of::<K, V>(self.entries@)
    }

    /// The representation invariant: keys strictly ascend.
    pub open spec fn wf(&self) -> bool {
        keys_ascend::<K, V::V>(self.entries())
    }

    /// The map that the entries stand for.
    pub open spec fn view(&self) -> Map<K::V, V::V> {
        as_map(self.entries())
    }

    /// An empty map.
    pub fn new() -> (m: Self)
        ensures
            m.wf(),
            m.entries() == Seq::<(K::V, V::V)>::empty(),
            m@ == Map::<K::V, V::V>::empty(),
    {
        let m = OrderedMap { entries: Vec::new() };
        proof {
            assert(m.entries() =~= Seq::<(K::V, V::V)>::empty());
            assert(m@ =~= Map::<K::V, V::V>::empty());
        }
        m
    }

    /// The number of entries.
    pub fn len(&self) -> (n: usize)
        ensures
            n == self.entries().len(),
    {
        self.entries.len()
    }

    /// Whether the map has no entry.
    pub fn is_empty(&self) -> (r: bool)
        ensures
            r == (self.entries().len() == 0),
            self.wf() ==> r == (self@ == Map::<K::V, V::V>::empty()),
    {
        proof {
            if self.wf() {
                if self.entries().len() == 0 {
                    assert(self@ =~= Map::<K::V, V::V>::empty());
                } else {
                    lemma_lookup::<K, V::V>(self.entries(), 0);
                }
            }
        }
        self.entries.len() == 0
    }

    /// The key of the entry at place `i`.
    pub fn key_at(&self, i: usize) -> (k: &K)
        requires
            i < self.entries().len(),
        ensures
            k.deep_view() == self.entries()[i as int].0,
    {
        &self.entries[i].0
    }

    /// The value of the entry at place `i`.
    pub fn value_at(&self, i: usize) -> (v: &V)
        requires
            i < self.entries().len(),
        ensures
            v.deep_view() == self.entries()[i as int].1,
    {
        &self.entries[i].1
    }

    /// The place where `key` stands or would be put, and whether it stands there.
    fn position(&self, key: &K) -> (r: (usize, bool))
        requires
            self.wf(),
        ensures
            r.0 <= self.entries().len(),
            forall|j: int| 0 <= j < r.0 ==> K::lt(#[trigger] self.entries()[j].0, key.deep_view()),
            r.1 ==> r.0 < self.entries().len() && self.entries()[r.0 as int].0 == key.deep_view(),
            !r.1 ==> !has_key(self.entries(), key.deep_view()),
            !r.1 ==> forall|j: int|
                r.0 <= j < self.entries().len() ==> K::lt(
                    key.deep_view(),
                    #[trigger] self.entries()[j].0,
                ),
    {
        let ghost es = self.entries();
        let ghost kv = key.deep_view();
        let n = self.entries.len();
        let mut i: usize = 0;
        let mut end: usize = n;
        while i < end
            invariant
                i <= end <= n,
                n == self.entries@.len(),
                es == self.entries(),
                kv == key.deep_view(),
                keys_ascend::<K, V::V>(es),
                forall|j: int| 0 <= j < i ==> K::lt(#[trigger] es[j].0, kv),
                forall|j: int| end <= j < n ==> !K::lt(#[trigger] es[j].0, kv),
            decreases end - i,
        {
            let mid = i + (end - i) / 2;
            if self.entries[mid].0.less(key) {
                proof {
                    assert forall|j: int| 0 <= j < mid + 1 implies K::lt(
                        #[trigger] es[j].0,
                        kv,
                    ) by {
                        if j < mid {
                            assert(K::lt(es[j].0, es[mid as int].0));
                            K::lemma_lt_transitive(es[j].0, es[mid as int].0, kv);
                        }
                    }
                }
                i = mid + 1;
            } else {
                proof {
                    assert forall|j: int| mid <= j < n implies !K::lt(#[trigger] es[j].0, kv) by {
                        if j > mid {
                            assert(K::lt(es[mid as int].0, es[j].0));
                            K::lemma_lt_transitive(es[mid as int].0, es[j].0, kv);
                        }
                    }
                }
                end = mid;
            }
        }
        let found = i < n && self.entries[i].0.same(key);
        proof {
            K::lemma_lt_irreflexive(kv);
            if !found {
                if i < n {
                    K::lemma_lt_total(es[i as int].0, kv);
                }
                assert forall|j: int| i <= j < n implies K::lt(kv, #[trigger] es[j].0) by {
                    if j > i {
                        assert(K::lt(es[i as int].0, es[j].0));
                        K::lemma_lt_transitive(kv, es[i as int].0, es[j].0);
                    }
                }
                assert forall|j: int| 0 <= j < n implies #[trigger] es[j].0 != kv by {
                    if j < i {
                        assert(K::lt(es[j].0, kv));
                    } else {
                        assert(K::lt(kv, es[j].0));
                    }
                }
            }
        }
        (i, found)
    }

    /// The value stored under `key`, if any.
    pub fn get(&self, key: &K) -> (r: Option<&V>)
        requires
            self.wf(),
        ensures
            match r {
                Some(v) => self@.contains_key(key.deep_view()) && v.deep_view()
                    == self@[key.deep_view()],
                None => !self@.contains_key(key.deep_view()),
            },
    {
        let (p, found) = self.position(key);
        if found {
            proof {
                lemma_lookup::<K, V::V>(self.entries(), p as int);
            }
            Some(&self.entries[p].1)
        } else {
            None
        }
    }

    /// Whether `key` has an entry.
    pub fn contains_key(&self, key: &K) -> (r: bool)
        requires
            self.wf(),
        ensures
            r == self@.contains_key(key.deep_view()),
    {
        let (p, found) = self.position(key);
        proof {
            if found {
                lemma_lookup::<K, V::V>(self.entries(), p as int);
            }
        }
        found
    }

    /// Stores `value` under `key`, in place of what was there.
    pub fn insert(&mut self, key: K, value: V)
        requires
            old(self).wf(),
        ensures
            final(self).wf(),
            final(self)@ == old(self)@.insert(key.deep_view(), value.deep_view()),
            old(self)@.contains_key(key.deep_view()) ==> final(self).entries() == old(
                self,
            ).entries().update(
                index_of(old(self).entries(), key.deep_view()),
                (key.deep_view(), value.deep_view()),
            ),
            !old(self)@.contains_key(key.deep_view()) ==> exists|p: int|
                0 <= p <= old(self).entries().len() && final(self).entries() == #[trigger] old(
                    self,
                ).entries().insert(p, (key.deep_view(), value.deep_view())),
    {
        let ghost es = self.entries();
        let ghost e = (key.deep_view(), value.deep_view());
        let (p, found) = self.position(&key);
        if found {
            proof {
                lemma_lookup::<K, V::V>(es, p as int);
                lemma_update_at::<K, V::V>(es, p as int, e.1);
            }
            self.entries.set(p, (key, value));
            proof {
                assert(self.entries() =~= es.update(p as int, e));
            }
        } else {
            proof {
                lemma_insert_at::<K, V::V>(es, p as int, e);
            }
            self.entries.insert(p, (key, value));
            proof {
                assert(self.entries() =~= es.insert(p as int, e));
            }
        }
    }

    /// Takes out the entry of `key`, and says whether there was one.
    pub fn remove(&mut self, key: &K) -> (r: bool)
        requires
            old(self).wf(),
        ensures
            final(self).wf(),
            r == old(self)@.contains_key(key.deep_view()),
            final(self)@ == old(self)@.remove(key.deep_view()),
            r ==> final(self).entries() == old(self).entries().remove(
                index_of(old(self).entries(), key.deep_view()),
            ),
            !r ==> final(self).entries() == old(self).entries(),
    {
        let ghost es = self.entries();
        let (p, found) = self.position(key);
        if found {
            proof {
                lemma_lookup::<K, V::V>(es, p as int);
                lemma_remove_at::<K, V::V>(es, p as int);
            }
            self.entries.remove(p);
            proof {
                assert(self.entries() =~= es.remove(p as int));
            }
        } else {
            proof {
                assert(self@ =~= self@.remove(key.deep_view()));
            }
        }
        found
    }

    /// Takes out every entry.
    pub fn clear(&mut self)
        ensures
            final(self).wf(),
            final(self).entries() == Seq::<(K::V, V::V)>::empty(),
            final(self)@ == Map::<K::V, V::V>::empty(),
    {
        self.entries.clear();
        proof {
            assert(self.entries() =~= Seq::<(K::V, V::V)>::empty());
            assert(self@ =~= Map::<K::V, V::V>::empty());
        }
    }

    /// Whether the keys strictly ascend.
    pub fn check(&self) -> (r: bool)
        ensures
            r == self.wf(),
    {
        let ghost es = self.entries();
        let n = self.entries.len();
        let mut i: usize = 1;
        while i < n
            invariant
                1 <= i,
                n == self.entries@.len(),
                es == self.entries(),
                forall|a: int, b: int|
                    #![trigger es[a], es[b]]
                    0 <= a < b < i ==> K::lt(es[a].0, es[b].0),
            decreases n - i,
        {
            if !self.entries[i - 1].0.less(&self.entries[i].0) {
                proof {
                    assert(!K::lt(es[i - 1].0, es[i as int].0));
                }
                return false;
            }
            proof {
                assert forall|a: int, b: int|
                    #![trigger es[a], es[b]]
                    0 <= a < b < i + 1 implies K::lt(es[a].0, es[b].0) by {
                    if b == i && a < i - 1 {
                        assert(K::lt(es[a].0, es[i - 1].0));
                        K::lemma_lt_transitive(es[a].0, es[i - 1].0, es[i as int].0);
                    }
                }
            }
            i = i + 1;
        }
        true
    }
}

/// An ascending sequence stands for a map with as many keys as it has entries.
pub proof fn lemma_map_len<K: Element, V>(s: Seq<(K::V, V)>)
    requires
        keys_ascend::<K, V>(s),
    ensures
        as_map(s).dom().finite(),
        as_map(s).dom().len() == s.len(),
    decreases s.len(),
{
    if s.len() == 0 {
        assert(as_map(s).dom() =~= Set::<K::V>::empty());
    } else {
        let n = s.len() - 1;
        lemma_take_next::<K, V>(s, n);
        lemma_map_len::<K, V>(s.take(n));
        assert(s.take(n + 1) =~= s);
        assert(as_map(s).dom() =~= as_map(s.take(n)).dom().insert(s[n].0));
    }
}

/// How two values stored under one key become one.
pub trait Combine<V: Element> {
    /// Whether the two values can become one.
    spec fn joinable(a: V::V, b: V::V) -> bool;

    /// The value that stands for both.
    spec fn join(a: V::V, b: V::V) -> V::V;

    /// Computes the value that stands for both.
    fn combine(a: &V, b: &V) -> (r: V)
        requires
            Self::joinable(a.deep_view(), b.deep_view()),
        ensures
            r.deep_view() == Self::join(a.deep_view(), b.deep_view()),
    ;
}

/// Whether the values of every key that two maps share can become one.
pub open spec fn all_joinable<K, V: Element, C: Combine<V>>(a: Map<K, V::V>, b: Map<K, V::V>)
    -> bool {
    forall|k: K| a.contains_key(k) && b.contains_key(k) ==> C::joinable(#[trigger] a[k], b[k])
}

/// The key-wise union of two maps: a key of both holds the join of its two
/// values, a key of one holds what that one holds.
pub open spec fn joined<K, V: Element, C: Combine<V>>(a: Map<K, V::V>, b: Map<K, V::V>) -> Map<
    K,
    V::V,
> {
    Map::new(
        |k: K| a.contains_key(k) || b.contains_key(k),
        |k: K|
            if a.contains_key(k) && b.contains_key(k) {
                C::join(a[k], b[k])
            } else if a.contains_key(k) {
                a[k]
            } else {
                b[k]
            },
    )
}

/// A test on entries that decides which of them stay.
pub trait Keep<K: Element, V: Element> {
    /// Whether the test can be run.
    spec fn ready(&self) -> bool;

    /// Whether an entry stays.
    spec fn keeps(&self, k: K::V, v: V::V) -> bool;

    /// Decides whether an entry stays.
    fn test(&self, k: &K, v: &V) -> (r: bool)
        requires
            self.ready(),
        ensures
            r == self.keeps(k.deep_view(), v.deep_view()),
    ;
}

/// The entries of a map that a test keeps.
pub open spec fn kept<K: Element, V: Element, P: Keep<K, V>>(m: Map<K::V, V::V>, p: P) -> Map<
    K::V,
    V::V,
> {
    Map::new(|k: K::V| m.contains_key(k) && p.keeps(k, m[k]), |k: K::V| m[k])
}

impl<K: Element, V: Element> OrderedMap<K, V> {
    /// The number of keys is the number of entries.
    pub proof fn lemma_len(&self)
        requires
            self.wf(),
        ensures
            self@.dom().finite(),
            self@.dom().len() == self.entries().len(),
    {
        lemma_map_len::<K, V::V>(self.entries());
    }

    /// The map of the given entries, if their keys strictly ascend.
    pub fn from_entries(entries: Vec<(K, V)>) -> (r: Option<Self>)
        ensures
            match r {
                Some(m) => m.wf() && m.entries() == entries.deep_view(),
                None => !keys_ascend::<K, V::V>(entries.deep_view()),
            },
    {
        let ghost given = entries.deep_view();
        let m = OrderedMap { entries };
        proof {
            assert(m.entries() =~= given);
        }
        if m.check() {
            Some(m)
        } else {
            None
        }
    }

    /// Joins `other` into this map key by key.
    pub fn join<C: Combine<V>>(&mut self, other: &Self)
        requires
            old(self).wf(),
            other.wf(),
            all_joinable::<K::V, V, C>(old(self)@, other@),
        ensures
            final(self).wf(),
            final(self)@ == joined::<K::V, V, C>(old(self)@, other@),
    {
        let ghost a = self.entries();
        let ghost b = other.entries();
        let n = self.entries.len();
        let m = other.entries.len();
        let mut out: Vec<(K, V)> = Vec::new();
        let mut i: usize = 0;
        let mut j: usize = 0;
        proof {
            assert(a.take(0) =~= Seq::<(K::V, V::V)>::empty());
            assert(b.take(0) =~= Seq::<(K::V, V::V)>::empty());
            assert(as_map(a.take(0)) =~= Map::<K::V, V::V>::empty());
            assert(as_map(b.take(0)) =~= Map::<K::V, V::V>::empty());
            assert(entries_of::<K, V>(out@) =~= Seq::<(K::V, V::V)>::empty());
            assert(as_map(entries_of::<K, V>(out@)) =~= joined::<K::V, V, C>(
                as_map(a.take(0)),
                as_map(b.take(0)),
            ));
        }
        while i < n || j < m
            invariant
                i <= n,
                j <= m,
                n == a.len(),
                m == b.len(),
                a == self.entries(),
                b == other.entries(),
                self.entries@.len() == n,
                other.entries@.len() == m,
                keys_ascend::<K, V::V>(a),
                keys_ascend::<K, V::V>(b),
                all_joinable::<K::V, V, C>(as_map(a), as_map(b)),
                keys_ascend::<K, V::V>(entries_of::<K, V>(out@)),
                forall|x: int|
                    0 <= x < out@.len() && i < n ==> K::lt(
                        (#[trigger] entries_of::<K, V>(out@)[x]).0,
                        a[i as int].0,
                    ),
                forall|x: int|
                    0 <= x < out@.len() && j < m ==> K::lt(
                        (#[trigger] entries_of::<K, V>(out@)[x]).0,
                        b[j as int].0,
                    ),
                forall|y: int| 0 <= y < j && i < n ==> K::lt((#[trigger] b[y]).0, a[i as int].0),
                forall|x: int| 0 <= x < i && j < m ==> K::lt((#[trigger] a[x]).0, b[j as int].0),
                as_map(entries_of::<K, V>(out@)) == joined::<K::V, V, C>(
                    as_map(a.take(i as int)),
                    as_map(b.take(j as int)),
                ),
            decreases (n - i) + (m - j),
        {
            let ghost o = entries_of::<K, V>(out@);
            let ghost ai = as_map(a.take(i as int));
            let ghost bj = as_map(b.take(j as int));
            let mine = if j >= m {
                true
            } else if i >= n {
                false
            } else {
                self.entries[i].0.less(&other.entries[j].0)
            };
            let theirs = if mine {
                false
            } else if i >= n {
                true
            } else {
                other.entries[j].0.less(&self.entries[i].0)
            };
            if mine {
                let ghost e = a[i as int];
                proof {
                    lemma_take_next::<K, V::V>(a, i as int);
                    lemma_push_last::<K, V::V>(o, e);
                    lemma_above_absent::<K, V::V>(b.take(j as int), e.0);
                    assert(joined::<K::V, V, C>(ai.insert(e.0, e.1), bj) =~= joined::<K::V, V, C>(
                        ai,
                        bj,
                    ).insert(e.0, e.1));
                    assert forall|x: int| 0 <= x < o.len() && i + 1 < n implies K::lt(
                        (#[trigger] o[x]).0,
                        a[i + 1].0,
                    ) by {
                        assert(K::lt(a[i as int].0, a[i + 1].0));
                        K::lemma_lt_transitive(o[x].0, a[i as int].0, a[i + 1].0);
                    }
                    assert forall|y: int| 0 <= y < j && i + 1 < n implies K::lt(
                        (#[trigger] b[y]).0,
                        a[i + 1].0,
                    ) by {
                        assert(K::lt(a[i as int].0, a[i + 1].0));
                        K::lemma_lt_transitive(b[y].0, a[i as int].0, a[i + 1].0);
                    }
                    if i + 1 < n {
                        assert(K::lt(a[i as int].0, a[i + 1].0));
                    }
                }
                out.push((self.entries[i].0.duplicate(), self.entries[i].1.duplicate()));
                proof {
                    assert(entries_of::<K, V>(out@) =~= o.push(e));
                }
                i = i + 1;
            } else if theirs {
                let ghost e = b[j as int];
                proof {
                    lemma_take_next::<K, V::V>(b, j as int);
                    lemma_push_last::<K, V::V>(o, e);
                    lemma_above_absent::<K, V::V>(a.take(i as int), e.0);
                    assert(joined::<K::V, V, C>(ai, bj.insert(e.0, e.1)) =~= joined::<K::V, V, C>(
                        ai,
                        bj,
                    ).insert(e.0, e.1));
                    assert forall|x: int| 0 <= x < o.len() && j + 1 < m implies K::lt(
                        (#[trigger] o[x]).0,
                        b[j + 1].0,
                    ) by {
                        assert(K::lt(b[j as int].0, b[j + 1].0));
                        K::lemma_lt_transitive(o[x].0, b[j as int].0, b[j + 1].0);
                    }
                    assert forall|x: int| 0 <= x < i && j + 1 < m implies K::lt(
                        (#[trigger] a[x]).0,
                        b[j + 1].0,
                    ) by {
                        assert(K::lt(b[j as int].0, b[j + 1].0));
                        K::lemma_lt_transitive(a[x].0, b[j as int].0, b[j + 1].0);
                    }
                    if j + 1 < m {
                        assert(K::lt(b[j as int].0, b[j + 1].0));
                    }
                }
                out.push((other.entries[j].0.duplicate(), other.entries[j].1.duplicate()));
                proof {
                    assert(entries_of::<K, V>(out@) =~= o.push(e));
                }
                j = j + 1;
            } else {
                let ghost k = a[i as int].0;
                let ghost v = C::join(a[i as int].1, b[j as int].1);
                proof {
                    K::lemma_lt_total(a[i as int].0, b[j as int].0);
                    lemma_lookup::<K, V::V>(a, i as int);
                    lemma_lookup::<K, V::V>(b, j as int);
                    lemma_take_next::<K, V::V>(a, i as int);
                    lemma_take_next::<K, V::V>(b, j as int);
                    lemma_push_last::<K, V::V>(o, (k, v));
                    assert(joined::<K::V, V, C>(
                        ai.insert(k, a[i as int].1),
                        bj.insert(k, b[j as int].1),
                    ) =~= joined::<K::V, V, C>(ai, bj).insert(k, v));
                    assert forall|x: int| 0 <= x < o.len() && i + 1 < n implies K::lt(
                        (#[trigger] o[x]).0,
                        a[i + 1].0,
                    ) by {
                        assert(K::lt(a[i as int].0, a[i + 1].0));
                        K::lemma_lt_transitive(o[x].0, a[i as int].0, a[i + 1].0);
                    }
                    assert forall|x: int| 0 <= x < o.len() && j + 1 < m implies K::lt(
                        (#[trigger] o[x]).0,
                        b[j + 1].0,
                    ) by {
                        assert(K::lt(b[j as int].0, b[j + 1].0));
                        K::lemma_lt_transitive(o[x].0, b[j as int].0, b[j + 1].0);
                    }
                    assert forall|y: int| 0 <= y < j + 1 && i + 1 < n implies K::lt(
                        (#[trigger] b[y]).0,
                        a[i + 1].0,
                    ) by {
                        assert(K::lt(a[i as int].0, a[i + 1].0));
                        if y < j {
                            K::lemma_lt_transitive(b[y].0, a[i as int].0, a[i + 1].0);
                        }
                    }
                    assert forall|x: int| 0 <= x < i + 1 && j + 1 < m implies K::lt(
                        (#[trigger] a[x]).0,
                        b[j + 1].0,
                    ) by {
                        assert(K::lt(b[j as int].0, b[j + 1].0));
                        if x < i {
                            K::lemma_lt_transitive(a[x].0, b[j as int].0, b[j + 1].0);
                        }
                    }
                    if i + 1 < n {
                        assert(K::lt(a[i as int].0, a[i + 1].0));
                    }
                    if j + 1 < m {
                        assert(K::lt(b[j as int].0, b[j + 1].0));
                    }
                }
                let both = C::combine(&self.entries[i].1, &other.entries[j].1);
                out.push((self.entries[i].0.duplicate(), both));
                proof {
                    assert(entries_of::<K, V>(out@) =~= o.push((k, v)));
                }
                i = i + 1;
                j = j + 1;
            }
        }
        proof {
            assert(a.take(n as int) =~= a);
            assert(b.take(m as int) =~= b);
        }
        self.entries = out;
    }

    /// The map of the entries that `p` keeps.
    pub fn filter<P: Keep<K, V>>(&self, p: &P) -> (r: Self)
        requires
            self.wf(),
            p.ready(),
        ensures
            r.wf(),
            r@ == kept::<K, V, P>(self@, *p),
    {
        let ghost es = self.entries();
        let n = self.len();
        let mut r: Self = OrderedMap::new();
        let mut i: usize = 0;
        proof {
            assert(es.take(0) =~= Seq::<(K::V, V::V)>::empty());
            assert(as_map(es.take(0)) =~= Map::<K::V, V::V>::empty());
            assert(r@ =~= kept::<K, V, P>(as_map(es.take(0)), *p));
        }
        while i < n
            invariant
                i <= n,
                n == es.len(),
                es == self.entries(),
                self.wf(),
                p.ready(),
                r.wf(),
                r@ == kept::<K, V, P>(as_map(es.take(i as int)), *p),
            decreases n - i,
        {
            let k = self.key_at(i);
            let v = self.value_at(i);
            proof {
                lemma_take_next::<K, V::V>(es, i as int);
            }
            if p.test(k, v) {
                r.insert(k.duplicate(), v.duplicate());
            }
            proof {
                assert(r@ =~= kept::<K, V, P>(as_map(es.take(i + 1)), *p));
            }
            i = i + 1;
        }
        proof {
            assert(es.take(n as int) =~= es);
        }
        r
    }

    /// The keys in ascending order.
    pub fn keys(&self) -> (r: Vec<K>)
        requires
            self.wf(),
        ensures
            r.deep_view().len() == self.entries().len(),
            forall|i: int| 0 <= i < r.deep_view().len() ==> r.deep_view()[i] == self.entries()[i].0,
            ascends::<K>(r.deep_view()),
            r.deep_view().no_duplicates(),
            r.deep_view().to_set() == self@.dom(),
    {
        let ghost es = self.entries();
        let n = self.len();
        let mut r: Vec<K> = Vec::new();
        let mut i: usize = 0;
        while i < n
            invariant
                i <= n,
                n == es.len(),
                es == self.entries(),
                r.deep_view().len() == i,
                forall|j: int| 0 <= j < i ==> r.deep_view()[j] == es[j].0,
            decreases n - i,
        {
            let ghost before = r.deep_view();
            let k = self.key_at(i).duplicate();
            r.push(k);
            proof {
                assert(r.deep_view() =~= before.push(es[i as int].0));
            }
            i = i + 1;
        }
        proof {
            let ks = r.deep_view();
            assert forall|a: int, b: int| #![trigger ks[a], ks[b]] 0 <= a < b < ks.len() implies K::lt(
                ks[a],
                ks[b],
            ) by {
                assert(K::lt(es[a].0, es[b].0));
            }
            assert forall|a: int, b: int| 0 <= a < ks.len() && 0 <= b < ks.len() && a
                != b implies ks[a] != ks[b] by {
                if ks[a] == ks[b] {
                    lemma_keys_distinct::<K, V::V>(es, a, b);
                }
            }
            assert forall|k: K::V| ks.to_set().contains(k) == self@.dom().contains(k) by {
                if ks.contains(k) {
                    let j = choose|j: int| 0 <= j < ks.len() && ks[j] == k;
                    assert(es[j].0 == k);
                    assert(has_key(es, k));
                }
                if has_key(es, k) {
                    let j = index_of(es, k);
                    assert(ks[j] == k);
                }
            }
            assert(ks.to_set() =~= self@.dom());
        }
        r
    }

    /// Whether the map can be encoded: its entries and their number fit.
    pub open spec fn encodable(&self) -> bool {
        list_encodable::<(K, V)>(self.entries())
    }

    /// The map on the wire: its entries as a list, in ascending key order.
    pub open spec fn encoding(&self) -> Seq<u8> {
        list_encoding::<(K, V)>(self.entries())
    }

    /// The entries of the map that a buffer starts with, and the bytes they
    /// take; `None` where the buffer starts with no list or its keys do not
    /// strictly ascend.
    pub open spec fn parse(s: Seq<u8>) -> Option<(Seq<(K::V, V::V)>, int)> {
        match parse_list::<(K, V)>(s) {
            Some((es, n)) => if keys_ascend::<K, V::V>(es) {
                Some((es, n))
            } else {
                None
            },
            None => None,
        }
    }

    /// Reading an encoded map back gives its entries, whatever follows them.
    pub proof fn lemma_parse_encoding(&self, rest: Seq<u8>)
        requires
            self.wf(),
            self.encodable(),
        ensures
            Self::parse(self.encoding() + rest) == Some(
                (self.entries(), self.encoding().len() as int),
            ),
    {
        lemma_parse_list::<(K, V)>(self.entries(), rest);
    }

    /// Appends the map's encoding to `out`.
    pub fn encode(&self, out: &mut Vec<u8>)
        ensures
            self.encodable(),
            final(out)@ == old(out)@ + self.encoding(),
    {
        proof {
            assert(self.entries.deep_view() =~= self.entries());
        }
        encode_list::<(K, V)>(&self.entries, out);
    }

    /// Reads the map that starts at `start`, and says where it ends.
    pub fn decode(bytes: &[u8], start: usize) -> (r: Option<(Self, usize)>)
        requires
            start <= bytes@.len(),
        ensures
            match Self::parse(bytes@.skip(start as int)) {
                Some((es, n)) => r matches Some((m, end)) && m.wf() && m.entries() == es && end
                    == start + n && start <= end <= bytes@.len(),
                None => r is None,
            },
    {
        match decode_list::<(K, V)>(bytes, start) {
            Some((entries, end)) => match Self::from_entries(entries) {
                Some(m) => Some((m, end)),
                None => None,
            },
            None => None,
        }
    }
}

} // verus!
