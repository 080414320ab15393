//! The observed-remove map: an observed-remove set of key-value pairs. A
//! write to a key removes the pairs of that key which the writer has seen,
//! so writes that did not see each other leave several values under one key.

use crate::dots::{
    decode_dot_state, dot_state_encodable, dot_state_encoding, encode_dot_state,
    lemma_merged_state_associative, lemma_merged_state_commutative,
    lemma_merged_state_idempotent, lemma_parse_dot_state, member, merged_state, parse_dot_state,
    DotState, DotView,
};
use crate::element::Element;
use crate::or_set::ORSet;
use crate::ordered_map::{as_map, ascends, lemma_take_next, Keep, OrderedMap};
use crate::traits::{
    buffer_is_empty, invalid, malformed, merge_buffers, Crdt, CrdtError, CrdtReader, Replica,
};
use crate::vector_clock::{
    advanced, counter_of, lemma_advanced_tick, lemma_merged_clock_associative,
    lemma_merged_clock_commutative, lemma_merged_clock_idempotent, merged_clock, ticked,
    ClockView, VectorClock,
};
use std::marker::PhantomData;
use vstd::prelude::*;
use vstd::string::*;

verus! {

/// What an observed-remove map stands for: the dotted pairs of a key and a
/// value, and the map's own clock.
#[verifier::ext_equal]
#[verifier::reject_recursive_types(K)]
#[verifier::reject_recursive_types(V)]
pub struct ORMapState<K, V> {
    pub pairs: DotState<(K, V)>,
    pub clock: ClockView,
}

/// The dotted pairs that are left when a key loses all its values.
pub open spec fn pairs_without_key<K, V>(dots: Set<((K, V), DotView)>, key: K) -> Set<
    ((K, V), DotView),
> {
    Set::new(|p: ((K, V), DotView)| dots.contains(p) && p.0.0 != key)
}

/// The values that a key holds.
pub open spec fn values_at<K, V>(dots: Set<((K, V), DotView)>, key: K) -> Set<V> {
    Set::new(|v: V| member(dots, (key, v)))
}

/// The dotted pairs after the writes of a list were made one after another
/// under dots of `node`, the first under the counter `base + 1`.
pub open spec fn pairs_written<K, V>(
    dots: Set<((K, V), DotView)>,
    node: Seq<char>,
    base: nat,
    writes: Seq<(K, V)>,
) -> Set<((K, V), DotView)>
    decreases writes.len(),
{
    if writes.len() == 0 {
        dots
    } else {
        pairs_without_key(
            pairs_written(dots, node, base, writes.drop_last()),
            writes.last().0,
        ).insert((writes.last(), (node, (base + writes.len()) as u64)))
    }
}

/// The dotted pairs that are left when the keys of a list lose all their
/// values.
pub open spec fn pairs_without_keys<K, V>(dots: Set<((K, V), DotView)>, keys: Seq<K>) -> Set<
    ((K, V), DotView),
> {
    Set::new(|p: ((K, V), DotView)| dots.contains(p) && !keys.contains(p.0.0))
}

/// The merge of two map states.
pub open spec fn merged_map_state<K, V>(a: ORMapState<K, V>, b: ORMapState<K, V>) -> ORMapState<
    K,
    V,
> {
    ORMapState { pairs: merged_state(a.pairs, b.pairs), clock: merged_clock(a.clock, b.clock) }
}

/// One more dotted pair adds its value to the values of its key.
pub proof fn lemma_values_insert<K, V>(
    dots: Set<((K, V), DotView)>,
    p: ((K, V), DotView),
    key: K,
)
    ensures
        values_at(dots.insert(p), key) == if p.0.0 == key {
            values_at(dots, key).insert(p.0.1)
        } else {
            values_at(dots, key)
        },
{
    let l = values_at(dots.insert(p), key);
    let r = if p.0.0 == key {
        values_at(dots, key).insert(p.0.1)
    } else {
        values_at(dots, key)
    };
    assert forall|v: V| l.contains(v) == r.contains(v) by {
        if member(dots.insert(p), (key, v)) {
            let d = choose|d: DotView| dots.insert(p).contains(((key, v), d));
            if ((key, v), d) != p {
                assert(dots.contains(((key, v), d)));
            }
        }
        if r.contains(v) {
            if p.0.0 == key && v == p.0.1 {
                assert(dots.insert(p).contains(((key, v), p.1)));
            } else {
                let d = choose|d: DotView| dots.contains(((key, v), d));
                assert(dots.insert(p).contains(((key, v), d)));
            }
        }
    }
    assert(l =~= r);
}

/// The test that keeps the pairs of every key but one.
pub struct ExceptKey<'a, K: Element> {
    pub key: &'a K,
}

impl<'a, K: Element, V: Element> Keep<((K, V), (String, u64)), ()> for ExceptKey<'a, K> {
    open spec fn ready(&self) -> bool {
        true
    }

    open spec fn keeps(&self, k: ((K::V, V::V), DotView), v: ()) -> bool {
        k.0.0 != self.key.deep_view()
    }

    fn test(&self, k: &((K, V), (String, u64)), v: &()) -> (r: bool) {
        !k.0.0.same(self.key)
    }
}

/// An observed-remove map.
#[derive(Debug, Clone, PartialEq, Eq, Hash)]
pub struct ORMap<K: Element, V: Element> {
    /// The key-value pairs as an observed-remove set.
    pub elements: ORSet<(K, V)>,
    /// The clock of all that this replica has seen.
    pub vclock: VectorClock,
}

impl<K: Element, V: Element> Default for ORMap<K, V> {
    fn default() -> (r: Self)
        ensures
            r.wf(),
            r@.pairs.dots == Set::<((K::V, V::V), DotView)>::empty(),
            r@.pairs.clock == ClockView::empty(),
            r@.clock == ClockView::empty(),
    {
        ORMap::new()
    }
}

impl<K: Element, V: Element> ORMap<K, V> {
    /// The invariant of the representation.
    pub open spec fn wf(&self) -> bool {
        self.elements.wf() && self.vclock.wf()
    }

    /// What the map stands for.
    pub open spec fn view(&self) -> ORMapState<K::V, V::V> {
        ORMapState { pairs: self.elements@, clock: self.vclock@ }
    }

    /// The state that a buffer starts with, and the bytes it takes.
    pub open spec fn parse_prefix(s: Seq<u8>) -> Option<(ORMapState<K::V, V::V>, int)> {
        match parse_dot_state::<(K, V)>(s) {
            Some((pairs, n)) => match VectorClock::parse_prefix(s.skip(n)) {
                Some((clock, m)) => Some((ORMapState { pairs, clock }, n + m)),
                None => None,
            },
            None => None,
        }
    }

    /// The state that a buffer holds from its first byte to its last.
    pub open spec fn parse(s: Seq<u8>) -> Option<ORMapState<K::V, V::V>> {
        match Self::parse_prefix(s) {
            Some((state, n)) => if n == s.len() {
                Some(state)
            } else {
                None
            },
            None => None,
        }
    }

    /// An empty map.
    pub fn new() -> (r: Self)
        ensures
            r.wf(),
            r@.pairs.dots == Set::<((K::V, V::V), DotView)>::empty(),
            r@.pairs.clock == ClockView::empty(),
            r@.clock == ClockView::empty(),
    {
        ORMap { elements: ORSet::new(), vclock: VectorClock::new() }
    }

    /// Writes a value under a key: the pairs of the key that this replica
    /// holds go, and the new pair stands under a fresh dot of `node_id`.
    pub fn insert(&mut self, node_id: &str, key: K, value: V)
        requires
            old(self).wf(),
            counter_of(old(self)@.pairs.clock, node_id@) < u64::MAX,
            counter_of(old(self)@.clock, node_id@) < u64::MAX,
        ensures
            final(self).wf(),
            ticked(old(self)@.pairs.clock, final(self)@.pairs.clock, node_id@),
            ticked(old(self)@.clock, final(self)@.clock, node_id@),
            final(self)@.pairs.dots == pairs_without_key(
                old(self)@.pairs.dots,
                key.deep_view(),
            ).insert(
                (
                    (key.deep_view(), value.deep_view()),
                    (node_id@, (counter_of(old(self)@.pairs.clock, node_id@) + 1) as u64),
                ),
            ),
    {
        self.remove(&key);
        self.elements.insert(node_id, (key, value));
        self.vclock.increment(node_id);
    }

    /// Removes a key: all its values go.
    pub fn remove(&mut self, key: &K)
        requires
            old(self).wf(),
        ensures
            final(self).wf(),
            final(self)@.clock == old(self)@.clock,
            final(self)@.pairs.clock == old(self)@.pairs.clock,
            final(self)@.pairs.dots == pairs_without_key(old(self)@.pairs.dots, key.deep_view()),
    {
        let rest = self.elements.elements.filter(&ExceptKey { key });
        proof {
            assert(rest@.dom() =~= pairs_without_key(old(self)@.pairs.dots, key.deep_view()));
        }
        self.elements.elements = rest;
    }

    /// Makes the writes of a list one after another.
    pub fn insert_all(&mut self, node_id: &str, writes: &Vec<(K, V)>)
        requires
            old(self).wf(),
            counter_of(old(self)@.pairs.clock, node_id@) + writes@.len() <= u64::MAX,
            counter_of(old(self)@.clock, node_id@) + writes@.len() <= u64::MAX,
        ensures
            final(self).wf(),
            final(self)@.pairs.dots == pairs_written(
                old(self)@.pairs.dots,
                node_id@,
                counter_of(old(self)@.pairs.clock, node_id@) as nat,
                writes.deep_view(),
            ),
            advanced(old(self)@.pairs.clock, final(self)@.pairs.clock, node_id@, writes@.len()),
            advanced(old(self)@.clock, final(self)@.clock, node_id@, writes@.len()),
    {
        let ghost all = writes.deep_view();
        let ghost start = self@;
        let ghost base = counter_of(start.pairs.clock, node_id@) as nat;
        let n = writes.len();
        let mut i: usize = 0;
        proof {
            assert(all.take(0) =~= Seq::<(K::V, V::V)>::empty());
        }
        while i < n
            invariant
                i <= n,
                n == writes@.len(),
                all == writes.deep_view(),
                self.wf(),
                base == counter_of(start.pairs.clock, node_id@),
                base + n <= u64::MAX,
                counter_of(start.clock, node_id@) + n <= u64::MAX,
                self@.pairs.dots == pairs_written(
                    start.pairs.dots,
                    node_id@,
                    base,
                    all.take(i as int),
                ),
                advanced(start.pairs.clock, self@.pairs.clock, node_id@, i as nat),
                advanced(start.clock, self@.clock, node_id@, i as nat),
            decreases n - i,
        {
            let ghost before = self@;
            proof {
                assert(all.take(i + 1).drop_last() =~= all.take(i as int));
                assert(all[i as int] == (
                    writes@[i as int].0.deep_view(),
                    writes@[i as int].1.deep_view(),
                ));
            }
            self.insert(node_id, writes[i].0.duplicate(), writes[i].1.duplicate());
            proof {
                lemma_advanced_tick(
                    start.pairs.clock,
                    before.pairs.clock,
                    self@.pairs.clock,
                    node_id@,
                    i as nat,
                );
                lemma_advanced_tick(start.clock, before.clock, self@.clock, node_id@, i as nat);
            }
            i = i + 1;
        }
        proof {
            assert(all.take(n as int) =~= all);
        }
    }

    /// Removes the keys of a list: all their values go.
    pub fn remove_all(&mut self, keys: &Vec<K>)
        requires
            old(self).wf(),
        ensures
            final(self).wf(),
            final(self)@.clock == old(self)@.clock,
            final(self)@.pairs.clock == old(self)@.pairs.clock,
            final(self)@.pairs.dots == pairs_without_keys(
                old(self)@.pairs.dots,
                keys.deep_view(),
            ),
    {
        let ghost all = keys.deep_view();
        let ghost start = self@;
        let n = keys.len();
        let mut i: usize = 0;
        proof {
            assert(self@.pairs.dots =~= pairs_without_keys(start.pairs.dots, all.take(0)));
        }
        while i < n
            invariant
                i <= n,
                n == keys@.len(),
                all == keys.deep_view(),
                self.wf(),
                self@.clock == start.clock,
                self@.pairs.clock == start.pairs.clock,
                self@.pairs.dots == pairs_without_keys(start.pairs.dots, all.take(i as int)),
            decreases n - i,
        {
            proof {
                assert(all[i as int] == keys@[i as int].deep_view());
            }
            self.remove(&keys[i]);
            proof {
                let done = all.take(i as int);
                let next = all.take(i + 1);
                assert forall|p: ((K::V, V::V), DotView)|
                    self@.pairs.dots.contains(p) == pairs_without_keys(
                        start.pairs.dots,
                        next,
                    ).contains(p) by {
                    if next.contains(p.0.0) {
                        let j = choose|j: int| 0 <= j < next.len() && next[j] == p.0.0;
                        if j < i {
                            assert(done[j] == p.0.0);
                        }
                    }
                    if done.contains(p.0.0) {
                        let j = choose|j: int| 0 <= j < done.len() && done[j] == p.0.0;
                        assert(next[j] == p.0.0);
                    }
                    if p.0.0 == all[i as int] {
                        assert(next[i as int] == p.0.0);
                    }
                }
                assert(self@.pairs.dots =~= pairs_without_keys(start.pairs.dots, next));
            }
            i = i + 1;
        }
        proof {
            assert(all.take(n as int) =~= all);
        }
    }

    /// The values that a key holds, each once, in ascending order. More than
    /// one value means that writes to the key did not see each other.
    pub fn get_concurrent(&self, key: &K) -> (r: Vec<V>)
        requires
            self.wf(),
        ensures
            ascends::<V>(r.deep_view()),
            r.deep_view().no_duplicates(),
            r.deep_view().to_set() == values_at(self@.pairs.dots, key.deep_view()),
    {
        let ghost es = self.elements.elements.entries();
        let ghost kv = key.deep_view();
        let n = self.elements.elements.len();
        let mut found: OrderedMap<V, ()> = OrderedMap::new();
        let mut i: usize = 0;
        proof {
            assert(es.take(0) =~= Seq::empty());
            assert(as_map(es.take(0)).dom() =~= Set::empty());
            assert(found@.dom() =~= values_at(as_map(es.take(0)).dom(), kv));
        }
        while i < n
            invariant
                i <= n,
                n == es.len(),
                es == self.elements.elements.entries(),
                kv == key.deep_view(),
                self.wf(),
                found.wf(),
                found@.dom() == values_at(as_map(es.take(i as int)).dom(), kv),
            decreases n - i,
        {
            proof {
                lemma_take_next::<((K, V), (String, u64)), ()>(es, i as int);
                lemma_values_insert(as_map(es.take(i as int)).dom(), es[i as int].0, kv);
                assert(as_map(es.take(i + 1)).dom() =~= as_map(es.take(i as int)).dom().insert(
                    es[i as int].0,
                ));
            }
            let pair = self.elements.elements.key_at(i);
            if pair.0.0.same(key) {
                found.insert(pair.0.1.duplicate(), ());
            }
            proof {
                assert(found@.dom() =~= values_at(as_map(es.take(i + 1)).dom(), kv));
            }
            i = i + 1;
        }
        proof {
            assert(es.take(n as int) =~= es);
        }
        found.keys()
    }

    /// Whether the map holds no pair.
    pub fn is_empty(&self) -> (r: bool)
        requires
            self.wf(),
        ensures
            r == (self@.pairs.dots == Set::<((K::V, V::V), DotView)>::empty()),
    {
        self.elements.is_empty()
    }

    /// Merges another map into this one: the pairs as observed-remove sets,
    /// the clocks as clocks.
    pub fn merge(&mut self, other: &Self)
        requires
            old(self).wf(),
            other.wf(),
        ensures
            final(self).wf(),
            final(self)@ == merged_map_state(old(self)@, other@),
    {
        self.elements.merge(&other.elements);
        self.vclock.merge(&other.vclock);
    }

    /// Reading an encoded map back gives its state, whatever follows it.
    pub proof fn lemma_parse_encoding(&self, rest: Seq<u8>)
        requires
            self.wf(),
            Replica::encodable(self),
        ensures
            Self::parse_prefix(Replica::encoding(self) + rest) == Some(
                (self@, Replica::encoding(self).len() as int),
            ),
    {
        let first = dot_state_encoding(&self.elements.elements, &self.elements.vclock);
        let second = self.vclock.clocks.encoding();
        let whole = Replica::encoding(self) + rest;
        assert(whole =~= first + (second + rest));
        lemma_parse_dot_state(&self.elements.elements, &self.elements.vclock, second + rest);
        assert(whole.skip(first.len() as int) =~= second + rest);
        self.vclock.lemma_parse_encoding(rest);
    }

    /// Reads the map that a buffer holds from its first byte to its last.
    pub fn from_bytes(bytes: &[u8]) -> (r: Result<Self, CrdtError>)
        ensures
            match Self::parse(bytes@) {
                Some(s) => r matches Ok(x) && x.wf() && x@ == s,
                None => r matches Err(e) && e is Deserialization,
            },
    {
        proof {
            assert(bytes@.skip(0) =~= bytes@);
        }
        let (elements, inner, mid) = match decode_dot_state::<(K, V)>(bytes, 0) {
            Some(part) => part,
            None => { return Err(malformed("no observed-remove map in the buffer")); },
        };
        proof {
            assert(bytes@.skip(0).skip(mid as int) =~= bytes@.skip(mid as int));
        }
        match VectorClock::decode_from(bytes, mid) {
            Some((vclock, end)) => {
                if end == bytes.len() {
                    Ok(ORMap { elements: ORSet { elements, vclock: inner }, vclock })
                } else {
                    Err(malformed("bytes left over after the map"))
                }
            },
            None => Err(malformed("no vector clock after the map's pairs")),
        }
    }
}

/// A reader over an encoded observed-remove map.
pub struct ORMapReader<'a, K, V> {
    bytes: &'a [u8],
    _phantom: PhantomData<(K, V)>,
}

impl<'a, K: Element, V: Element> ORMapReader<'a, K, V> {
    /// The bytes that the reader borrows.
    pub closed spec fn bytes(&self) -> Seq<u8> {
        self.bytes@
    }

    /// A reader over `bytes`.
    pub fn new(bytes: &'a [u8]) -> (r: Self)
        ensures
            r.bytes() == bytes@,
    {
        ORMapReader { bytes, _phantom: PhantomData }
    }

    /// The map that the buffer holds.
    pub fn to_map(&self) -> (r: Result<ORMap<K, V>, CrdtError>)
        ensures
            match ORMap::<K, V>::parse(self.bytes()) {
                Some(s) => r matches Ok(x) && x.wf() && x@ == s,
                None => r matches Err(e) && e is Deserialization,
            },
    {
        ORMap::from_bytes(self.bytes)
    }
}

impl<'a, K: Element, V: Element> CrdtReader for ORMapReader<'a, K, V> {
    open spec fn bytes(&self) -> Seq<u8> {
        ORMapReader::bytes(self)
    }

    open spec fn readable(&self) -> bool {
        ORMap::<K, V>::parse(self.bytes()) is Some
    }

    open spec fn holds_nothing(&self) -> bool {
        match ORMap::<K, V>::parse(self.bytes()) {
            Some(s) => s.pairs.dots == Set::<((K::V, V::V), DotView)>::empty(),
            None => false,
        }
    }

    fn buffer(&self) -> (b: &[u8]) {
        self.bytes
    }

    fn is_empty(&self) -> (r: Result<bool, CrdtError>) {
        buffer_is_empty::<ORMap<K, V>>(self.bytes)
    }
}

impl<K: Element, V: Element> Replica for ORMap<K, V> {
    type State = ORMapState<K::V, V::V>;

    open spec fn wf(&self) -> bool {
        self.elements.wf() && self.vclock.wf()
    }

    open spec fn state(&self) -> ORMapState<K::V, V::V> {
        self@
    }

    open spec fn is_initial(s: ORMapState<K::V, V::V>) -> bool {
        s.pairs.dots == Set::<((K::V, V::V), DotView)>::empty() && s.pairs.clock
            == ClockView::empty() && s.clock == ClockView::empty()
    }

    open spec fn blank(s: ORMapState<K::V, V::V>) -> bool {
        s.pairs.dots == Set::<((K::V, V::V), DotView)>::empty()
    }

    open spec fn merged(a: ORMapState<K::V, V::V>, b: ORMapState<K::V, V::V>) -> ORMapState<
        K::V,
        V::V,
    > {
        merged_map_state(a, b)
    }

    open spec fn encodable(&self) -> bool {
        dot_state_encodable(&self.elements.elements, &self.elements.vclock)
            && self.vclock.encodable()
    }

    open spec fn encoding(&self) -> Seq<u8> {
        dot_state_encoding(&self.elements.elements, &self.elements.vclock)
            + self.vclock.clocks.encoding()
    }

    open spec fn parse(bytes: Seq<u8>) -> Option<ORMapState<K::V, V::V>> {
        ORMap::<K, V>::parse(bytes)
    }

    proof fn lemma_merge_idempotent(a: Self) {
        lemma_merged_state_idempotent(a@.pairs);
        lemma_merged_clock_idempotent(a@.clock);
    }

    proof fn lemma_merge_commutative(a: Self, b: Self) {
        lemma_merged_state_commutative(a@.pairs, b@.pairs);
        lemma_merged_clock_commutative(a@.clock, b@.clock);
    }

    proof fn lemma_merge_associative(a: Self, b: Self, c: Self) {
        lemma_merged_state_associative(a@.pairs, b@.pairs, c@.pairs);
        lemma_merged_clock_associative(a@.clock, b@.clock, c@.clock);
    }

    proof fn lemma_round_trip(a: Self) {
        let none = Seq::<u8>::empty();
        a.lemma_parse_encoding(none);
        assert(a.encoding() + none =~= a.encoding());
    }

    fn fresh() -> (r: Self) {
        ORMap::new()
    }

    fn merge(&mut self, other: &Self) {
        ORMap::merge(self, other)
    }

    fn from_bytes(bytes: &[u8]) -> (r: Result<Self, CrdtError>) {
        ORMap::from_bytes(bytes)
    }

    fn validate(&self) -> (r: Result<(), CrdtError>) {
        if !self.elements.elements.check() {
            Err(invalid("map pairs out of order"))
        } else if !self.elements.vclock.clocks.check() {
            Err(invalid("vector clock nodes out of order"))
        } else if !self.vclock.clocks.check() {
            Err(invalid("vector clock nodes out of order"))
        } else {
            Ok(())
        }
    }

    fn is_empty(&self) -> (r: bool) {
        ORMap::is_empty(self)
    }

    fn to_capnp_bytes(&self) -> (r: Vec<u8>) {
        let mut out: Vec<u8> = Vec::new();
        encode_dot_state(&self.elements.elements, &self.elements.vclock, &mut out);
        self.vclock.encode_into(&mut out);
        proof {
            Self::lemma_round_trip(*self);
            assert(Seq::<u8>::empty() + dot_state_encoding(
                &self.elements.elements,
                &self.elements.vclock,
            ) + self.vclock.clocks.encoding() =~= self.encoding());
        }
        out
    }
}

impl<K: Element + 'static, V: Element + 'static> Crdt for ORMap<K, V> {
    type Reader<'a> = ORMapReader<'a, K, V>;

    fn merge_from_readers(readers: &[ORMapReader<'_, K, V>]) -> (r: Result<Self, CrdtError>) {
        merge_buffers::<ORMap<K, V>, ORMapReader<'_, K, V>>(readers)
    }
}

} // verus!
