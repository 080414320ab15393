//! The greater of two values in the order of their type, and what a key-wise
//! merge that keeps the greater value has of a semilattice.

use crate::element::Element;
use crate::ordered_map::{joined, Combine, OrderedMap};
use vstd::prelude::*;

verus! {

/// Two values stored under one key become the greater of the two.
pub struct Greatest;

/// The greater of two values.
pub open spec fn greater<V: Element>(a: V::V, b: V::V) -> V::V {
    if V::lt(a, b) {
        b
    } else {
        a
    }
}

impl<V: Element> Combine<V> for Greatest {
    open spec fn joinable(a: V::V, b: V::V) -> bool {
        true
    }

    open spec fn join(a: V::V, b: V::V) -> V::V {
        greater::<V>(a, b)
    }

    fn combine(a: &V, b: &V) -> (r: V) {
        if a.less(b) {
            b.duplicate()
        } else {
            a.duplicate()
        }
    }
}

/// The greater of a value and itself is the value.
pub proof fn lemma_greater_idempotent<V: Element>(a: V::V)
    ensures
        greater::<V>(a, a) == a,
{
}

/// The greater of two values is the same either way round.
pub proof fn lemma_greater_commutative<V: Element>(a: V::V, b: V::V)
    ensures
        greater::<V>(a, b) == greater::<V>(b, a),
{
    V::lemma_lt_irreflexive(a);
    V::lemma_lt_total(a, b);
    V::lemma_lt_transitive(a, b, a);
}

/// The greatest of three values is the same however they are grouped.
pub proof fn lemma_greater_associative<V: Element>(a: V::V, b: V::V, c: V::V)
    ensures
        greater::<V>(greater::<V>(a, b), c) == greater::<V>(a, greater::<V>(b, c)),
{
    V::lemma_lt_irreflexive(a);
    V::lemma_lt_total(a, b);
    V::lemma_lt_total(b, c);
    V::lemma_lt_total(a, c);
    V::lemma_lt_transitive(a, b, c);
    V::lemma_lt_transitive(b, a, c);
    V::lemma_lt_transitive(a, c, b);
    V::lemma_lt_transitive(c, a, b);
    V::lemma_lt_transitive(b, c, a);
    V::lemma_lt_transitive(c, b, a);
}

/// The lesser of two values.
pub open spec fn lesser<V: Element>(a: V::V, b: V::V) -> V::V {
    if V::lt(b, a) {
        b
    } else {
        a
    }
}

/// The lesser of a value and itself is the value.
pub proof fn lemma_lesser_idempotent<V: Element>(a: V::V)
    ensures
        lesser::<V>(a, a) == a,
{
}

/// The lesser of two values is the same either way round.
pub proof fn lemma_lesser_commutative<V: Element>(a: V::V, b: V::V)
    ensures
        lesser::<V>(a, b) == lesser::<V>(b, a),
{
    V::lemma_lt_irreflexive(a);
    V::lemma_lt_total(a, b);
    V::lemma_lt_transitive(a, b, a);
}

/// The least of three values is the same however they are grouped.
pub proof fn lemma_lesser_associative<V: Element>(a: V::V, b: V::V, c: V::V)
    ensures
        lesser::<V>(lesser::<V>(a, b), c) == lesser::<V>(a, lesser::<V>(b, c)),
{
    V::lemma_lt_irreflexive(a);
    V::lemma_lt_total(a, b);
    V::lemma_lt_total(b, c);
    V::lemma_lt_total(a, c);
    V::lemma_lt_transitive(a, b, c);
    V::lemma_lt_transitive(b, a, c);
    V::lemma_lt_transitive(a, c, b);
    V::lemma_lt_transitive(c, a, b);
    V::lemma_lt_transitive(b, c, a);
    V::lemma_lt_transitive(c, b, a);
}

/// Whether a value offered for a key is taken: the key is new, or the value
/// is greater than what the key holds.
pub open spec fn rises<K, V: Element>(m: Map<K, V::V>, k: K, v: V::V) -> bool {
    !m.contains_key(k) || V::lt(m[k], v)
}

/// Offers a value for a key. It is stored if the key is new or the value is
/// greater than what the key holds. The answer says whether it was stored.
pub fn raise<K: Element, V: Element>(map: &mut OrderedMap<K, V>, key: K, value: V) -> (taken:
    bool)
    requires
        old(map).wf(),
    ensures
        final(map).wf(),
        taken == rises::<K::V, V>(old(map)@, key.deep_view(), value.deep_view()),
        taken ==> final(map)@ == old(map)@.insert(key.deep_view(), value.deep_view()),
        !taken ==> final(map)@ == old(map)@,
{
    let taken = match map.get(&key) {
        Some(current) => current.less(&value),
        None => true,
    };
    if taken {
        map.insert(key, value);
    }
    taken
}

/// The map after the writes of a list were offered one after another.
pub open spec fn raised_all<K, V: Element>(m: Map<K, V::V>, writes: Seq<(K, V::V)>) -> Map<K, V::V>
    decreases writes.len(),
{
    if writes.len() == 0 {
        m
    } else {
        let before = raised_all::<K, V>(m, writes.drop_last());
        let w = writes.last();
        if rises::<K, V>(before, w.0, w.1) {
            before.insert(w.0, w.1)
        } else {
            before
        }
    }
}

/// How many writes of a list are taken when they are offered one after
/// another.
pub open spec fn raises_taken<K, V: Element>(m: Map<K, V::V>, writes: Seq<(K, V::V)>) -> nat
    decreases writes.len(),
{
    if writes.len() == 0 {
        0
    } else {
        let before = raised_all::<K, V>(m, writes.drop_last());
        let w = writes.last();
        raises_taken::<K, V>(m, writes.drop_last()) + if rises::<K, V>(before, w.0, w.1) {
            1nat
        } else {
            0nat
        }
    }
}

/// At most every write of a list is taken.
pub proof fn lemma_raises_bounded<K, V: Element>(m: Map<K, V::V>, writes: Seq<(K, V::V)>)
    ensures
        raises_taken::<K, V>(m, writes) <= writes.len(),
    decreases writes.len(),
{
    if writes.len() > 0 {
        lemma_raises_bounded::<K, V>(m, writes.drop_last());
    }
}

/// The key-wise merge of two maps that keeps the greater value of each key.
pub open spec fn greatest_of<K, V: Element>(a: Map<K, V::V>, b: Map<K, V::V>) -> Map<K, V::V> {
    joined::<K, V, Greatest>(a, b)
}

/// Merging a map with itself changes nothing.
pub proof fn lemma_greatest_idempotent<K, V: Element>(a: Map<K, V::V>)
    ensures
        greatest_of::<K, V>(a, a) == a,
{
    assert(greatest_of::<K, V>(a, a) =~= a);
}

/// Merging two maps gives the same either way round.
pub proof fn lemma_greatest_commutative<K, V: Element>(a: Map<K, V::V>, b: Map<K, V::V>)
    ensures
        greatest_of::<K, V>(a, b) == greatest_of::<K, V>(b, a),
{
    let l = greatest_of::<K, V>(a, b);
    let r = greatest_of::<K, V>(b, a);
    assert forall|k: K| l.contains_key(k) implies #[trigger] l[k] == r[k] by {
        if a.contains_key(k) && b.contains_key(k) {
            lemma_greater_commutative::<V>(a[k], b[k]);
        }
    }
    assert(l =~= r);
}

/// Merging three maps gives the same however they are grouped.
pub proof fn lemma_greatest_associative<K, V: Element>(
    a: Map<K, V::V>,
    b: Map<K, V::V>,
    c: Map<K, V::V>,
)
    ensures
        greatest_of::<K, V>(greatest_of::<K, V>(a, b), c) == greatest_of::<K, V>(
            a,
            greatest_of::<K, V>(b, c),
        ),
{
    let l = greatest_of::<K, V>(greatest_of::<K, V>(a, b), c);
    let r = greatest_of::<K, V>(a, greatest_of::<K, V>(b, c));
    assert forall|k: K| l.contains_key(k) implies #[trigger] l[k] == r[k] by {
        if a.contains_key(k) && b.contains_key(k) && c.contains_key(k) {
            lemma_greater_associative::<V>(a[k], b[k], c[k]);
        }
    }
    assert(l =~= r);
}

} // verus!
