//! The last-write-wins map: each key holds the write that ranks highest by
//! timestamp, then node, then value. Removing a key forgets it outright, so
//! a merge with a replica that still holds the key brings it back.

use crate::element::Element;
use crate::g_set::lemma_take_to_set;
use crate::maximum::{
    greatest_of, lemma_greatest_associative, lemma_greatest_commutative,
    lemma_greatest_idempotent, lemma_raises_bounded, raise, raised_all, raises_taken, rises,
    Greatest,
};
use crate::ordered_map::{as_map, OrderedMap};
use crate::traits::{
    buffer_is_empty, invalid, malformed, merge_buffers, Crdt, CrdtError, CrdtReader, Replica,
};
use crate::vector_clock::{
    advanced, counter_of, lemma_advanced_tick, lemma_merged_clock_associative,
    lemma_merged_clock_commutative, lemma_merged_clock_idempotent, merged_clock, ticked,
    ClockView, VectorClock,
};
use std::marker::PhantomData;
use vstd::prelude::*;
use vstd::string::*;

verus! {

/// A write to a key as contracts speak of it: timestamp, node, value.
pub type WriteView<V> = (u64, (Seq<char>, V));

/// What a last-write-wins map stands for: the winning write of each key, and
/// the clock.
#[verifier::ext_equal]
#[verifier::reject_recursive_types(K)]
pub struct LWWMapState<K, V> {
    pub entries: Map<K, WriteView<V>>,
    pub clock: ClockView,
}

/// The merge of two map states: key by key the higher-ranking write.
pub open spec fn merged_lww_map<K, V: Element>(
    a: LWWMapState<K, V::V>,
    b: LWWMapState<K, V::V>,
) -> LWWMapState<K, V::V> {
    LWWMapState {
        entries: greatest_of::<K, (u64, (String, V))>(a.entries, b.entries),
        clock: merged_clock(a.clock, b.clock),
    }
}

/// The writes of a list of keys and values, all at one timestamp by one node.
pub open spec fn stamped<K, V>(writes: Seq<(K, V)>, timestamp: u64, node: Seq<char>) -> Seq<
    (K, WriteView<V>),
> {
    Seq::new(writes.len(), |i: int| (writes[i].0, (timestamp, (node, writes[i].1))))
}

/// A last-write-wins map.
#[derive(Debug, Clone, PartialEq, Eq, Hash)]
pub struct LWWMap<K: Element, V: Element> {
    /// Each key with the timestamp, node and value of its winning write.
    pub entries: OrderedMap<K, (u64, (String, V))>,
    /// The clock of all that this replica has seen.
    pub vclock: VectorClock,
}

impl<K: Element, V: Element> Default for LWWMap<K, V> {
    fn default() -> (r: Self)
        ensures
            r.wf(),
            r@.entries == Map::<K::V, WriteView<V::V>>::empty(),
            r@.clock == ClockView::empty(),
    {
        LWWMap::new()
    }
}

impl<K: Element, V: Element> LWWMap<K, V> {
    /// The invariant of the representation.
    pub open spec fn wf(&self) -> bool {
        self.entries.wf() && self.vclock.wf()
    }

    /// What the map stands for.
    pub open spec fn view(&self) -> LWWMapState<K::V, V::V> {
        LWWMapState { entries: self.entries@, clock: self.vclock@ }
    }

    /// Whether the map can be encoded.
    pub open spec fn encodable(&self) -> bool {
        self.entries.encodable() && self.vclock.encodable()
    }

    /// The map on the wire: the entries, then the clock.
    pub open spec fn encoding(&self) -> Seq<u8> {
        self.entries.encoding() + self.vclock.clocks.encoding()
    }

    /// The state that a buffer starts with, and the bytes it takes.
    pub open spec fn parse_prefix(s: Seq<u8>) -> Option<(LWWMapState<K::V, V::V>, int)> {
        match OrderedMap::<K, (u64, (String, V))>::parse(s) {
            Some((es, n)) => match VectorClock::parse_prefix(s.skip(n)) {
                Some((clock, m)) => Some((LWWMapState { entries: as_map(es), clock }, n + m)),
                None => None,
            },
            None => None,
        }
    }

    /// The state that a buffer holds from its first byte to its last.
    pub open spec fn parse(s: Seq<u8>) -> Option<LWWMapState<K::V, V::V>> {
        match Self::parse_prefix(s) {
            Some((state, n)) => if n == s.len() {
                Some(state)
            } else {
                None
            },
            None => None,
        }
    }

    /// An empty map.
    pub fn new() -> (r: Self)
        ensures
            r.wf(),
            r@.entries == Map::<K::V, WriteView<V::V>>::empty(),
            r@.clock == ClockView::empty(),
    {
        LWWMap { entries: OrderedMap::new(), vclock: VectorClock::new() }
    }

    /// Offers a write to a key. It is taken only if the key is new or the
    /// write ranks strictly above the one that the key holds; then the
    /// clock ticks for the writing node.
    pub fn insert(&mut self, node_id: &str, key: K, value: V, timestamp: u64)
        requires
            old(self).wf(),
            rises::<K::V, (u64, (String, V))>(
                old(self)@.entries,
                key.deep_view(),
                (timestamp, (node_id@, value.deep_view())),
            ) ==> counter_of(old(self)@.clock, node_id@) < u64::MAX,
        ensures
            final(self).wf(),
            if rises::<K::V, (u64, (String, V))>(
                old(self)@.entries,
                key.deep_view(),
                (timestamp, (node_id@, value.deep_view())),
            ) {
                &&& final(self)@.entries == old(self)@.entries.insert(
                    key.deep_view(),
                    (timestamp, (node_id@, value.deep_view())),
                )
                &&& ticked(old(self)@.clock, final(self)@.clock, node_id@)
            } else {
                final(self)@ == old(self)@
            },
    {
        if raise(&mut self.entries, key, (timestamp, (node_id.to_owned(), value))) {
            self.vclock.increment(node_id);
        }
    }

    /// Removes a key: its write is forgotten.
    pub fn remove(&mut self, key: &K)
        requires
            old(self).wf(),
        ensures
            final(self).wf(),
            final(self)@.entries == old(self)@.entries.remove(key.deep_view()),
            final(self)@.clock == old(self)@.clock,
    {
        self.entries.remove(key);
    }

    /// Offers a write of each key and value of a list, one after another,
    /// all at one timestamp. The clock ticks once for each write that is
    /// taken.
    pub fn insert_all(&mut self, node_id: &str, writes: &Vec<(K, V)>, timestamp: u64)
        requires
            old(self).wf(),
            counter_of(old(self)@.clock, node_id@) + writes@.len() <= u64::MAX,
        ensures
            final(self).wf(),
            final(self)@.entries == raised_all::<K::V, (u64, (String, V))>(
                old(self)@.entries,
                stamped(writes.deep_view(), timestamp, node_id@),
            ),
            advanced(
                old(self)@.clock,
                final(self)@.clock,
                node_id@,
                raises_taken::<K::V, (u64, (String, V))>(
                    old(self)@.entries,
                    stamped(writes.deep_view(), timestamp, node_id@),
                ),
            ),
    {
        let ghost start = self@;
        let ghost ws = stamped(writes.deep_view(), timestamp, node_id@);
        let n = writes.len();
        let mut i: usize = 0;
        proof {
            assert(ws.take(0) =~= Seq::<(K::V, WriteView<V::V>)>::empty());
        }
        while i < n
            invariant
                i <= n,
                n == writes@.len(),
                ws == stamped(writes.deep_view(), timestamp, node_id@),
                self.wf(),
                counter_of(start.clock, node_id@) + n <= u64::MAX,
                self@.entries == raised_all::<K::V, (u64, (String, V))>(
                    start.entries,
                    ws.take(i as int),
                ),
                advanced(
                    start.clock,
                    self@.clock,
                    node_id@,
                    raises_taken::<K::V, (u64, (String, V))>(start.entries, ws.take(i as int)),
                ),
            decreases n - i,
        {
            let ghost before = self@;
            proof {
                assert(ws.take(i + 1).drop_last() =~= ws.take(i as int));
                assert(ws[i as int] == (
                    writes@[i as int].0.deep_view(),
                    (timestamp, (node_id@, writes@[i as int].1.deep_view())),
                ));
                lemma_raises_bounded::<K::V, (u64, (String, V))>(
                    start.entries,
                    ws.take(i as int),
                );
            }
            self.insert(node_id, writes[i].0.duplicate(), writes[i].1.duplicate(), timestamp);
            proof {
                if rises::<K::V, (u64, (String, V))>(
                    before.entries,
                    ws[i as int].0,
                    ws[i as int].1,
                ) {
                    lemma_advanced_tick(
                        start.clock,
                        before.clock,
                        self@.clock,
                        node_id@,
                        raises_taken::<K::V, (u64, (String, V))>(
                            start.entries,
                            ws.take(i as int),
                        ),
                    );
                }
            }
            i = i + 1;
        }
        proof {
            assert(ws.take(n as int) =~= ws);
        }
    }

    /// Removes the keys of a list: their writes are forgotten.
    pub fn remove_all(&mut self, keys: &Vec<K>)
        requires
            old(self).wf(),
        ensures
            final(self).wf(),
            final(self)@.entries == old(self)@.entries.remove_keys(keys.deep_view().to_set()),
            final(self)@.clock == old(self)@.clock,
    {
        let ghost start = self@;
        let ghost all = keys.deep_view();
        let n = keys.len();
        let mut i: usize = 0;
        proof {
            assert(all.take(0).to_set() =~= Set::<K::V>::empty());
            assert(self@.entries =~= start.entries.remove_keys(all.take(0).to_set()));
        }
        while i < n
            invariant
                i <= n,
                n == keys@.len(),
                all == keys.deep_view(),
                self.wf(),
                self@.clock == start.clock,
                self@.entries == start.entries.remove_keys(all.take(i as int).to_set()),
            decreases n - i,
        {
            proof {
                lemma_take_to_set(all, i as int);
                assert(all[i as int] == keys@[i as int].deep_view());
            }
            self.remove(&keys[i]);
            proof {
                assert(self@.entries =~= start.entries.remove_keys(all.take(i + 1).to_set()));
            }
            i = i + 1;
        }
        proof {
            assert(all.take(n as int) =~= all);
        }
    }

    /// The value that a key holds, if any.
    pub fn get(&self, key: &K) -> (r: Option<&V>)
        requires
            self.wf(),
        ensures
            match r {
                Some(v) => self@.entries.contains_key(key.deep_view()) && v.deep_view()
                    == self@.entries[key.deep_view()].1.1,
                None => !self@.entries.contains_key(key.deep_view()),
            },
    {
        match self.entries.get(key) {
            Some(write) => Some(&write.1.1),
            None => None,
        }
    }

    /// Whether the map holds no key.
    pub fn is_empty(&self) -> (r: bool)
        requires
            self.wf(),
        ensures
            r == (self@.entries == Map::<K::V, WriteView<V::V>>::empty()),
    {
        self.entries.is_empty()
    }

    /// Merges another map into this one: key by key the higher-ranking
    /// write stays.
    pub fn merge(&mut self, other: &Self)
        requires
            old(self).wf(),
            other.wf(),
        ensures
            final(self).wf(),
            final(self)@ == merged_lww_map::<K::V, V>(old(self)@, other@),
    {
        self.entries.join::<Greatest>(&other.entries);
        self.vclock.merge(&other.vclock);
    }

    /// Reading an encoded map back gives its state, whatever follows it.
    pub proof fn lemma_parse_encoding(&self, rest: Seq<u8>)
        requires
            self.wf(),
            self.encodable(),
        ensures
            Self::parse_prefix(self.encoding() + rest) == Some(
                (self@, self.encoding().len() as int),
            ),
    {
        let first = self.entries.encoding();
        let second = self.vclock.clocks.encoding();
        let whole = self.encoding() + rest;
        assert(whole =~= first + (second + rest));
        self.entries.lemma_parse_encoding(second + rest);
        assert(whole.skip(first.len() as int) =~= second + rest);
        self.vclock.lemma_parse_encoding(rest);
    }

    /// Reads the map that a buffer holds from its first byte to its last.
    pub fn from_bytes(bytes: &[u8]) -> (r: Result<Self, CrdtError>)
        ensures
            match Self::parse(bytes@) {
                Some(s) => r matches Ok(x) && x.wf() && x@ == s,
                None => r matches Err(e) && e is Deserialization,
            },
    {
        proof {
            assert(bytes@.skip(0) =~= bytes@);
        }
        let (entries, mid) = match OrderedMap::<K, (u64, (String, V))>::decode(bytes, 0) {
            Some(part) => part,
            None => { return Err(malformed("no last-write-wins map in the buffer")); },
        };
        match VectorClock::decode_from(bytes, mid) {
            Some((vclock, end)) => {
                if end == bytes.len() {
                    Ok(LWWMap { entries, vclock })
                } else {
                    Err(malformed("bytes left over after the map"))
                }
            },
            None => Err(malformed("no vector clock after the map's entries")),
        }
    }
}

/// A reader over an encoded last-write-wins map.
pub struct LWWMapReader<'a, K, V> {
    bytes: &'a [u8],
    _phantom: PhantomData<(K, V)>,
}

impl<'a, K: Element, V: Element> LWWMapReader<'a, K, V> {
    /// The bytes that the reader borrows.
    pub closed spec fn bytes(&self) -> Seq<u8> {
        self.bytes@
    }

    /// A reader over `bytes`.
    pub fn new(bytes: &'a [u8]) -> (r: Self)
        ensures
            r.bytes() == bytes@,
    {
        LWWMapReader { bytes, _phantom: PhantomData }
    }

    /// The map that the buffer holds.
    pub fn to_map(&self) -> (r: Result<LWWMap<K, V>, CrdtError>)
        ensures
            match LWWMap::<K, V>::parse(self.bytes()) {
                Some(s) => r matches Ok(x) && x.wf() && x@ == s,
                None => r matches Err(e) && e is Deserialization,
            },
    {
        LWWMap::from_bytes(self.bytes)
    }
}

impl<'a, K: Element, V: Element> CrdtReader for LWWMapReader<'a, K, V> {
    open spec fn bytes(&self) -> Seq<u8> {
        LWWMapReader::bytes(self)
    }

    open spec fn readable(&self) -> bool {
        LWWMap::<K, V>::parse(self.bytes()) is Some
    }

    open spec fn holds_nothing(&self) -> bool {
        match LWWMap::<K, V>::parse(self.bytes()) {
            Some(s) => s.entries == Map::<K::V, WriteView<V::V>>::empty(),
            None => false,
        }
    }

    fn buffer(&self) -> (b: &[u8]) {
        self.bytes
    }

    fn is_empty(&self) -> (r: Result<bool, CrdtError>) {
        buffer_is_empty::<LWWMap<K, V>>(self.bytes)
    }
}

impl<K: Element, V: Element> Replica for LWWMap<K, V> {
    type State = LWWMapState<K::V, V::V>;

    open spec fn wf(&self) -> bool {
        LWWMap::wf(self)
    }

    open spec fn state(&self) -> LWWMapState<K::V, V::V> {
        self@
    }

    open spec fn is_initial(s: LWWMapState<K::V, V::V>) -> bool {
        s.entries == Map::<K::V, WriteView<V::V>>::empty() && s.clock == ClockView::empty()
    }

    open spec fn blank(s: LWWMapState<K::V, V::V>) -> bool {
        s.entries == Map::<K::V, WriteView<V::V>>::empty()
    }

    open spec fn merged(a: LWWMapState<K::V, V::V>, b: LWWMapState<K::V, V::V>) -> LWWMapState<
        K::V,
        V::V,
    > {
        merged_lww_map::<K::V, V>(a, b)
    }

    open spec fn encodable(&self) -> bool {
        LWWMap::encodable(self)
    }

    open spec fn encoding(&self) -> Seq<u8> {
        LWWMap::encoding(self)
    }

    open spec fn parse(bytes: Seq<u8>) -> Option<LWWMapState<K::V, V::V>> {
        LWWMap::<K, V>::parse(bytes)
    }

    proof fn lemma_merge_idempotent(a: Self) {
        lemma_greatest_idempotent::<K::V, (u64, (String, V))>(a@.entries);
        lemma_merged_clock_idempotent(a@.clock);
    }

    proof fn lemma_merge_commutative(a: Self, b: Self) {
        lemma_greatest_commutative::<K::V, (u64, (String, V))>(a@.entries, b@.entries);
        lemma_merged_clock_commutative(a@.clock, b@.clock);
    }

    proof fn lemma_merge_associative(a: Self, b: Self, c: Self) {
        lemma_greatest_associative::<K::V, (u64, (String, V))>(
            a@.entries,
            b@.entries,
            c@.entries,
        );
        lemma_merged_clock_associative(a@.clock, b@.clock, c@.clock);
    }

    proof fn lemma_round_trip(a: Self) {
        let none = Seq::<u8>::empty();
        a.lemma_parse_encoding(none);
        assert(LWWMap::encoding(&a) + none =~= LWWMap::encoding(&a));
    }

    fn fresh() -> (r: Self) {
        LWWMap::new()
    }

    fn merge(&mut self, other: &Self) {
        LWWMap::merge(self, other)
    }

    fn from_bytes(bytes: &[u8]) -> (r: Result<Self, CrdtError>) {
        LWWMap::from_bytes(bytes)
    }

    fn validate(&self) -> (r: Result<(), CrdtError>) {
        if !self.entries.check() {
            Err(invalid("map keys out of order"))
        } else if !self.vclock.clocks.check() {
            Err(invalid("vector clock nodes out of order"))
        } else {
            Ok(())
        }
    }

    fn is_empty(&self) -> (r: bool) {
        LWWMap::is_empty(self)
    }

    fn to_capnp_bytes(&self) -> (r: Vec<u8>) {
        let mut out: Vec<u8> = Vec::new();
        self.entries.encode(&mut out);
        self.vclock.encode_into(&mut out);
        proof {
            Self::lemma_round_trip(*self);
            assert(Seq::<u8>::empty() + self.entries.encoding() + self.vclock.clocks.encoding()
                =~= LWWMap::encoding(self));
        }
        out
    }
}

impl<K: Element + 'static, V: Element + 'static> Crdt for LWWMap<K, V> {
    type Reader<'a> = LWWMapReader<'a, K, V>;

    fn merge_from_readers(readers: &[LWWMapReader<'_, K, V>]) -> (r: Result<Self, CrdtError>) {
        merge_buffers::<LWWMap<K, V>, LWWMapReader<'_, K, V>>(readers)
    }
}

} // verus!
