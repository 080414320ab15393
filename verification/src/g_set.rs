//! The grow-only set: elements are added and never removed, and a merge is
//! the union.

use crate::dots::Unit;
use crate::element::Element;
use crate::ordered_map::{as_map, ascends, OrderedMap};
use crate::traits::{
    buffer_is_empty, invalid, malformed, merge_buffers, Crdt, CrdtError, CrdtReader, Replica,
};
use crate::vector_clock::{
    advanced, counter_of, lemma_advanced_tick, lemma_merged_clock_associative,
    lemma_merged_clock_commutative, lemma_merged_clock_idempotent, merged_clock, ticked,
    ClockView, VectorClock,
};
use std::marker::PhantomData;
use vstd::prelude::*;
use vstd::string::*;

verus! {

/// What a grow-only set stands for: its elements and the clock.
#[verifier::ext_equal]
#[verifier::reject_recursive_types(E)]
pub struct GSetState<E> {
    pub elements: Set<E>,
    pub clock: ClockView,
}

/// The merge of two set states: the union of the elements.
pub open spec fn merged_set<E>(a: GSetState<E>, b: GSetState<E>) -> GSetState<E> {
    GSetState { elements: a.elements.union(b.elements), clock: merged_clock(a.clock, b.clock) }
}

/// One more item of a sequence adds that item to the set of its items.
pub proof fn lemma_take_to_set<A>(s: Seq<A>, i: int)
    requires
        0 <= i < s.len(),
    ensures
        s.take(i + 1).to_set() == s.take(i).to_set().insert(s[i]),
{
    let done = s.take(i);
    let next = s.take(i + 1);
    assert forall|e: A| next.to_set().contains(e) == done.to_set().insert(s[i]).contains(e) by {
        if next.contains(e) {
            let j = choose|j: int| 0 <= j < next.len() && next[j] == e;
            if j < i {
                assert(done[j] == e);
            }
        }
        if done.contains(e) {
            let j = choose|j: int| 0 <= j < done.len() && done[j] == e;
            assert(next[j] == e);
        }
        if e == s[i] {
            assert(next[i] == e);
        }
    }
    assert(next.to_set() =~= done.to_set().insert(s[i]));
}

/// No element goes in a merge.
pub proof fn lemma_merged_set_grows<E>(a: GSetState<E>, b: GSetState<E>, e: E)
    requires
        a.elements.contains(e) || b.elements.contains(e),
    ensures
        merged_set(a, b).elements.contains(e),
{
}

/// A grow-only set.
#[derive(Debug, Clone, PartialEq, Eq, Hash)]
pub struct GSet<T: Element> {
    /// The elements in ascending order.
    pub elements: OrderedMap<T, ()>,
    /// The clock of all that this replica has seen.
    pub vclock: VectorClock,
}

impl<T: Element> Default for GSet<T> {
    fn default() -> (r: Self)
        ensures
            r.wf(),
            r@.elements == Set::<T::V>::empty(),
            r@.clock == ClockView::empty(),
    {
        GSet::new()
    }
}

impl<T: Element> GSet<T> {
    /// The invariant of the representation.
    pub open spec fn wf(&self) -> bool {
        self.elements.wf() && self.vclock.wf()
    }

    /// What the set stands for.
    pub open spec fn view(&self) -> GSetState<T::V> {
        GSetState { elements: self.elements@.dom(), clock: self.vclock@ }
    }

    /// Whether the set can be encoded.
    pub open spec fn encodable(&self) -> bool {
        self.elements.encodable() && self.vclock.encodable()
    }

    /// The set on the wire: the elements, then the clock.
    pub open spec fn encoding(&self) -> Seq<u8> {
        self.elements.encoding() + self.vclock.clocks.encoding()
    }

    /// The state that a buffer starts with, and the bytes it takes.
    pub open spec fn parse_prefix(s: Seq<u8>) -> Option<(GSetState<T::V>, int)> {
        match OrderedMap::<T, ()>::parse(s) {
            Some((es, n)) => match VectorClock::parse_prefix(s.skip(n)) {
                Some((clock, m)) => Some((GSetState { elements: as_map(es).dom(), clock }, n + m)),
                None => None,
            },
            None => None,
        }
    }

    /// The state that a buffer holds from its first byte to its last.
    pub open spec fn parse(s: Seq<u8>) -> Option<GSetState<T::V>> {
        match Self::parse_prefix(s) {
            Some((state, n)) => if n == s.len() {
                Some(state)
            } else {
                None
            },
            None => None,
        }
    }

    /// An empty set.
    pub fn new() -> (r: Self)
        ensures
            r.wf(),
            r@.elements == Set::<T::V>::empty(),
            r@.clock == ClockView::empty(),
    {
        let r = GSet { elements: OrderedMap::new(), vclock: VectorClock::new() };
        proof {
            assert(r@.elements =~= Set::<T::V>::empty());
        }
        r
    }

    /// Adds an element. The clock ticks only where the element is new.
    pub fn insert(&mut self, node_id: &str, element: T)
        requires
            old(self).wf(),
            !old(self)@.elements.contains(element.deep_view()) ==> counter_of(
                old(self)@.clock,
                node_id@,
            ) < u64::MAX,
        ensures
            final(self).wf(),
            final(self)@.elements == old(self)@.elements.insert(element.deep_view()),
            old(self)@.elements.contains(element.deep_view()) ==> final(self)@ == old(self)@,
            !old(self)@.elements.contains(element.deep_view()) ==> ticked(
                old(self)@.clock,
                final(self)@.clock,
                node_id@,
            ),
    {
        if !self.elements.contains_key(&element) {
            self.elements.insert(element, ());
            self.vclock.increment(node_id);
            proof {
                assert(self@.elements =~= old(self)@.elements.insert(element.deep_view()));
            }
        } else {
            proof {
                assert(self@.elements =~= old(self)@.elements.insert(element.deep_view()));
            }
        }
    }

    /// Adds the elements of a list one after another. The clock ticks once
    /// for each element that is new.
    pub fn insert_all(&mut self, node_id: &str, items: &Vec<T>)
        requires
            old(self).wf(),
            counter_of(old(self)@.clock, node_id@) + items@.len() <= u64::MAX,
        ensures
            final(self).wf(),
            final(self)@.elements == old(self)@.elements.union(items.deep_view().to_set()),
            old(self)@.elements.finite(),
            final(self)@.elements.finite(),
            final(self)@.elements.len() >= old(self)@.elements.len(),
            advanced(
                old(self)@.clock,
                final(self)@.clock,
                node_id@,
                (final(self)@.elements.len() - old(self)@.elements.len()) as nat,
            ),
    {
        let ghost all = items.deep_view();
        let ghost start = self@;
        let n = items.len();
        let mut i: usize = 0;
        proof {
            self.elements.lemma_len();
            assert(all.take(0).to_set() =~= Set::<T::V>::empty());
            assert(self@.elements =~= start.elements.union(all.take(0).to_set()));
        }
        while i < n
            invariant
                i <= n,
                n == items@.len(),
                all == items.deep_view(),
                self.wf(),
                start.elements.finite(),
                self@.elements.finite(),
                self@.elements == start.elements.union(all.take(i as int).to_set()),
                start.elements.len() <= self@.elements.len() <= start.elements.len() + i,
                counter_of(start.clock, node_id@) + n <= u64::MAX,
                advanced(
                    start.clock,
                    self@.clock,
                    node_id@,
                    (self@.elements.len() - start.elements.len()) as nat,
                ),
            decreases n - i,
        {
            let ghost before = self@;
            proof {
                assert(all.take(i + 1) =~= all.take(i as int).push(all[i as int]));
                lemma_take_to_set(all, i as int);
                assert(all[i as int] == items@[i as int].deep_view());
            }
            self.insert(node_id, items[i].duplicate());
            proof {
                self.elements.lemma_len();
                assert(self@.elements =~= start.elements.union(all.take(i + 1).to_set()));
                if before.elements.contains(all[i as int]) {
                    assert(self@.elements =~= before.elements);
                } else {
                    lemma_advanced_tick(
                        start.clock,
                        before.clock,
                        self@.clock,
                        node_id@,
                        (before.elements.len() - start.elements.len()) as nat,
                    );
                }
            }
            i = i + 1;
        }
        proof {
            assert(all.take(n as int) =~= all);
        }
    }

    /// Whether the set holds an element.
    pub fn contains(&self, element: &T) -> (r: bool)
        requires
            self.wf(),
        ensures
            r == self@.elements.contains(element.deep_view()),
    {
        self.elements.contains_key(element)
    }

    /// The elements of the set, each once, in ascending order.
    pub fn iter(&self) -> (r: Vec<T>)
        requires
            self.wf(),
        ensures
            ascends::<T>(r.deep_view()),
            r.deep_view().no_duplicates(),
            r.deep_view().to_set() == self@.elements,
    {
        self.elements.keys()
    }

    /// The number of elements.
    pub fn len(&self) -> (r: usize)
        requires
            self.wf(),
        ensures
            self@.elements.finite(),
            r == self@.elements.len(),
    {
        proof {
            self.elements.lemma_len();
        }
        self.elements.len()
    }

    /// Whether the set holds no element.
    pub fn is_empty(&self) -> (r: bool)
        requires
            self.wf(),
        ensures
            r == (self@.elements == Set::<T::V>::empty()),
    {
        let r = self.elements.is_empty();
        proof {
            if r {
                assert(self@.elements =~= Set::<T::V>::empty());
            } else if self@.elements == Set::<T::V>::empty() {
                assert(self.elements@ =~= Map::<T::V, ()>::empty());
            }
        }
        r
    }

    /// Merges another set into this one: the union of the elements.
    pub fn merge(&mut self, other: &Self)
        requires
            old(self).wf(),
            other.wf(),
        ensures
            final(self).wf(),
            final(self)@ == merged_set(old(self)@, other@),
    {
        self.elements.join::<Unit>(&other.elements);
        self.vclock.merge(&other.vclock);
        proof {
            assert(self@.elements =~= old(self)@.elements.union(other@.elements));
        }
    }

    /// Reading an encoded set back gives its state, whatever follows it.
    pub proof fn lemma_parse_encoding(&self, rest: Seq<u8>)
        requires
            self.wf(),
            self.encodable(),
        ensures
            Self::parse_prefix(self.encoding() + rest) == Some(
                (self@, self.encoding().len() as int),
            ),
    {
        let first = self.elements.encoding();
        let second = self.vclock.clocks.encoding();
        let whole = self.encoding() + rest;
        assert(whole =~= first + (second + rest));
        self.elements.lemma_parse_encoding(second + rest);
        assert(whole.skip(first.len() as int) =~= second + rest);
        self.vclock.lemma_parse_encoding(rest);
    }

    /// Reads the set that a buffer holds from its first byte to its last.
    pub fn from_bytes(bytes: &[u8]) -> (r: Result<Self, CrdtError>)
        ensures
            match Self::parse(bytes@) {
                Some(s) => r matches Ok(x) && x.wf() && x@ == s,
                None => r matches Err(e) && e is Deserialization,
            },
    {
        proof {
            assert(bytes@.skip(0) =~= bytes@);
        }
        let (elements, mid) = match OrderedMap::<T, ()>::decode(bytes, 0) {
            Some(part) => part,
            None => { return Err(malformed("no grow-only set in the buffer")); },
        };
        match VectorClock::decode_from(bytes, mid) {
            Some((vclock, end)) => {
                if end == bytes.len() {
                    Ok(GSet { elements, vclock })
                } else {
                    Err(malformed("bytes left over after the set"))
                }
            },
            None => Err(malformed("no vector clock after the set's elements")),
        }
    }
}

/// A reader over an encoded grow-only set.
pub struct GSetReader<'a, T> {
    bytes: &'a [u8],
    _phantom: PhantomData<T>,
}

impl<'a, T: Element> GSetReader<'a, T> {
    /// The bytes that the reader borrows.
    pub closed spec fn bytes(&self) -> Seq<u8> {
        self.bytes@
    }

    /// A reader over `bytes`.
    pub fn new(bytes: &'a [u8]) -> (r: Self)
        ensures
            r.bytes() == bytes@,
    {
        GSetReader { bytes, _phantom: PhantomData }
    }

    /// The set that the buffer holds.
    pub fn to_gset(&self) -> (r: Result<GSet<T>, CrdtError>)
        ensures
            match GSet::<T>::parse(self.bytes()) {
                Some(s) => r matches Ok(x) && x.wf() && x@ == s,
                None => r matches Err(e) && e is Deserialization,
            },
    {
        GSet::from_bytes(self.bytes)
    }
}

impl<'a, T: Element> CrdtReader for GSetReader<'a, T> {
    open spec fn bytes(&self) -> Seq<u8> {
        GSetReader::bytes(self)
    }

    open spec fn readable(&self) -> bool {
        GSet::<T>::parse(self.bytes()) is Some
    }

    open spec fn holds_nothing(&self) -> bool {
        match GSet::<T>::parse(self.bytes()) {
            Some(s) => s.elements == Set::<T::V>::empty(),
            None => false,
        }
    }

    fn buffer(&self) -> (b: &[u8]) {
        self.bytes
    }

    fn is_empty(&self) -> (r: Result<bool, CrdtError>) {
        buffer_is_empty::<GSet<T>>(self.bytes)
    }
}

impl<T: Element> Replica for GSet<T> {
    type State = GSetState<T::V>;

    open spec fn wf(&self) -> bool {
        GSet::wf(self)
    }

    open spec fn state(&self) -> GSetState<T::V> {
        self@
    }

    open spec fn is_initial(s: GSetState<T::V>) -> bool {
        s.elements == Set::<T::V>::empty() && s.clock == ClockView::empty()
    }

    open spec fn blank(s: GSetState<T::V>) -> bool {
        s.elements == Set::<T::V>::empty()
    }

    open spec fn merged(a: GSetState<T::V>, b: GSetState<T::V>) -> GSetState<T::V> {
        merged_set(a, b)
    }

    open spec fn encodable(&self) -> bool {
        GSet::encodable(self)
    }

    open spec fn encoding(&self) -> Seq<u8> {
        GSet::encoding(self)
    }

    open spec fn parse(bytes: Seq<u8>) -> Option<GSetState<T::V>> {
        GSet::<T>::parse(bytes)
    }

    proof fn lemma_merge_idempotent(a: Self) {
        lemma_merged_clock_idempotent(a@.clock);
        assert(merged_set(a@, a@).elements =~= a@.elements);
    }

    proof fn lemma_merge_commutative(a: Self, b: Self) {
        lemma_merged_clock_commutative(a@.clock, b@.clock);
        assert(merged_set(a@, b@).elements =~= merged_set(b@, a@).elements);
    }

    proof fn lemma_merge_associative(a: Self, b: Self, c: Self) {
        lemma_merged_clock_associative(a@.clock, b@.clock, c@.clock);
        assert(merged_set(merged_set(a@, b@), c@).elements =~= merged_set(
            a@,
            merged_set(b@, c@),
        ).elements);
    }

    proof fn lemma_round_trip(a: Self) {
        let none = Seq::<u8>::empty();
        a.lemma_parse_encoding(none);
        assert(GSet::encoding(&a) + none =~= GSet::encoding(&a));
    }

    fn fresh() -> (r: Self) {
        GSet::new()
    }

    fn merge(&mut self, other: &Self) {
        GSet::merge(self, other)
    }

    fn from_bytes(bytes: &[u8]) -> (r: Result<Self, CrdtError>) {
        GSet::from_bytes(bytes)
    }

    fn validate(&self) -> (r: Result<(), CrdtError>) {
        if !self.elements.check() {
            Err(invalid("set elements out of order"))
        } else if !self.vclock.clocks.check() {
            Err(invalid("vector clock nodes out of order"))
        } else {
            Ok(())
        }
    }

    fn is_empty(&self) -> (r: bool) {
        GSet::is_empty(self)
    }

    fn to_capnp_bytes(&self) -> (r: Vec<u8>) {
        let mut out: Vec<u8> = Vec::new();
        self.elements.encode(&mut out);
        self.vclock.encode_into(&mut out);
        proof {
            Self::lemma_round_trip(*self);
            assert(Seq::<u8>::empty() + self.elements.encoding() + self.vclock.clocks.encoding()
                =~= GSet::encoding(self));
        }
        out
    }
}

impl<T: Element + 'static> Crdt for GSet<T> {
    type Reader<'a> = GSetReader<'a, T>;

    fn merge_from_readers(readers: &[GSetReader<'_, T>]) -> (r: Result<Self, CrdtError>) {
        merge_buffers::<GSet<T>, GSetReader<'_, T>>(readers)
    }
}

} // verus!
