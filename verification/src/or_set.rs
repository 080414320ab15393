//! The observed-remove set: elements can be added and removed, and an add
//! that a remove has not seen survives it.

use crate::dots::{
    decode_dot_state, distinct, dot_state_encodable, dot_state_encoding, dots_added, dots_without,
    dots_without_all,
    elements_of, encode_dot_state, holds, lemma_merged_state_associative,
    lemma_merged_state_commutative, lemma_merged_state_idempotent, lemma_parse_dot_state, member,
    merge_dots, merged_state, parse_dot_state, without, DotMap, DotState, DotView,
};
use crate::element::Element;
use crate::ordered_map::{ascends, OrderedMap};
use crate::traits::{
    buffer_is_empty, invalid, malformed, merge_buffers, Crdt, CrdtError, CrdtReader, Replica,
};
use crate::vector_clock::{
    advanced, counter_of, lemma_advanced_tick, ticked, ClockView, VectorClock,
};
use std::marker::PhantomData;
use vstd::prelude::*;
use vstd::string::*;

verus! {

/// An observed-remove set.
#[derive(Debug, Clone, PartialEq, Eq, Hash)]
pub struct ORSet<T: Element> {
    /// The elements with the dots that observed their insertion.
    pub elements: DotMap<T>,
    /// The clock of all that this replica has seen.
    pub vclock: VectorClock,
}

impl<T: Element> Default for ORSet<T> {
    fn default() -> (r: Self)
        ensures
            r.wf(),
            r@.dots == Set::<(T::V, DotView)>::empty(),
            r@.clock == ClockView::empty(),
    {
        ORSet::new()
    }
}

impl<T: Element> ORSet<T> {
    /// The invariant of the representation.
    pub open spec fn wf(&self) -> bool {
        self.elements.wf() && self.vclock.wf()
    }

    /// What the set stands for.
    pub open spec fn view(&self) -> DotState<T::V> {
        DotState { dots: self.elements@.dom(), clock: self.vclock@ }
    }

    /// The state that a buffer holds from its first byte to its last.
    pub open spec fn parse(s: Seq<u8>) -> Option<DotState<T::V>> {
        match parse_dot_state::<T>(s) {
            Some((state, n)) => if n == s.len() {
                Some(state)
            } else {
                None
            },
            None => None,
        }
    }

    /// An empty set.
    pub fn new() -> (r: Self)
        ensures
            r.wf(),
            r@.dots == Set::<(T::V, DotView)>::empty(),
            r@.clock == ClockView::empty(),
    {
        let r = ORSet { elements: OrderedMap::new(), vclock: VectorClock::new() };
        proof {
            assert(r@.dots =~= Set::<(T::V, DotView)>::empty());
        }
        r
    }

    /// Adds an element under a fresh dot of `node_id`.
    pub fn insert(&mut self, node_id: &str, element: T)
        requires
            old(self).wf(),
            counter_of(old(self)@.clock, node_id@) < u64::MAX,
        ensures
            final(self).wf(),
            ticked(old(self)@.clock, final(self)@.clock, node_id@),
            final(self)@.dots == old(self)@.dots.insert(
                (
                    element.deep_view(),
                    (node_id@, (counter_of(old(self)@.clock, node_id@) + 1) as u64),
                ),
            ),
    {
        let tick = self.vclock.increment(node_id);
        self.elements.insert((element, (node_id.to_owned(), tick.0)), ());
        proof {
            assert(self@.dots =~= old(self)@.dots.insert(
                (
                    element.deep_view(),
                    (node_id@, (counter_of(old(self)@.clock, node_id@) + 1) as u64),
                ),
            ));
        }
    }

    /// Removes an element: all its dots go.
    pub fn remove(&mut self, element: &T)
        requires
            old(self).wf(),
        ensures
            final(self).wf(),
            final(self)@.clock == old(self)@.clock,
            final(self)@.dots == dots_without(old(self)@.dots, element.deep_view()),
    {
        self.elements = without(&self.elements, element);
    }

    /// Adds the elements of a list one after another, each under a fresh dot
    /// of `node_id`.
    pub fn insert_all(&mut self, node_id: &str, items: &Vec<T>)
        requires
            old(self).wf(),
            counter_of(old(self)@.clock, node_id@) + items@.len() <= u64::MAX,
        ensures
            final(self).wf(),
            final(self)@.dots == dots_added(
                old(self)@.dots,
                node_id@,
                counter_of(old(self)@.clock, node_id@) as nat,
                items.deep_view(),
            ),
            advanced(old(self)@.clock, final(self)@.clock, node_id@, items@.len()),
    {
        let ghost all = items.deep_view();
        let ghost start = self@;
        let ghost base = counter_of(start.clock, node_id@) as nat;
        let n = items.len();
        let mut i: usize = 0;
        proof {
            assert(all.take(0) =~= Seq::<T::V>::empty());
        }
        while i < n
            invariant
                i <= n,
                n == items@.len(),
                all == items.deep_view(),
                self.wf(),
                base == counter_of(start.clock, node_id@),
                base + n <= u64::MAX,
                self@.dots == dots_added(start.dots, node_id@, base, all.take(i as int)),
                advanced(start.clock, self@.clock, node_id@, i as nat),
            decreases n - i,
        {
            let ghost before = self@;
            proof {
                assert(all.take(i + 1).drop_last() =~= all.take(i as int));
                assert(all[i as int] == items@[i as int].deep_view());
            }
            self.insert(node_id, items[i].duplicate());
            proof {
                lemma_advanced_tick(start.clock, before.clock, self@.clock, node_id@, i as nat);
            }
            i = i + 1;
        }
        proof {
            assert(all.take(n as int) =~= all);
        }
    }

    /// Removes the elements of a list: all their dots go.
    pub fn remove_all(&mut self, items: &Vec<T>)
        requires
            old(self).wf(),
        ensures
            final(self).wf(),
            final(self)@.clock == old(self)@.clock,
            final(self)@.dots == dots_without_all(old(self)@.dots, items.deep_view()),
    {
        let ghost all = items.deep_view();
        let ghost start = self@;
        let n = items.len();
        let mut i: usize = 0;
        proof {
            assert(self@.dots =~= dots_without_all(start.dots, all.take(0)));
        }
        while i < n
            invariant
                i <= n,
                n == items@.len(),
                all == items.deep_view(),
                self.wf(),
                self@.clock == start.clock,
                self@.dots == dots_without_all(start.dots, all.take(i as int)),
            decreases n - i,
        {
            proof {
                assert(all[i as int] == items@[i as int].deep_view());
            }
            self.remove(&items[i]);
            proof {
                let done = all.take(i as int);
                let next = all.take(i + 1);
                assert forall|p: (T::V, DotView)|
                    self@.dots.contains(p) == dots_without_all(start.dots, next).contains(p) by {
                    if next.contains(p.0) {
                        let j = choose|j: int| 0 <= j < next.len() && next[j] == p.0;
                        if j < i {
                            assert(done[j] == p.0);
                        }
                    }
                    if done.contains(p.0) {
                        let j = choose|j: int| 0 <= j < done.len() && done[j] == p.0;
                        assert(next[j] == p.0);
                    }
                    if p.0 == all[i as int] {
                        assert(next[i as int] == p.0);
                    }
                }
                assert(self@.dots =~= dots_without_all(start.dots, next));
            }
            i = i + 1;
        }
        proof {
            assert(all.take(n as int) =~= all);
        }
    }

    /// Whether the set holds an element.
    pub fn contains(&self, element: &T) -> (r: bool)
        requires
            self.wf(),
        ensures
            r == member(self@.dots, element.deep_view()),
    {
        holds(&self.elements, element)
    }

    /// The number of elements.
    pub fn len(&self) -> (r: usize)
        requires
            self.wf(),
        ensures
            elements_of(self@.dots).finite(),
            r == elements_of(self@.dots).len(),
    {
        let members = distinct(&self.elements);
        proof {
            members.lemma_len();
        }
        members.len()
    }

    /// Whether the set holds no element.
    pub fn is_empty(&self) -> (r: bool)
        requires
            self.wf(),
        ensures
            r == (self@.dots == Set::<(T::V, DotView)>::empty()),
    {
        let r = self.elements.is_empty();
        proof {
            if r {
                assert(self@.dots =~= Set::<(T::V, DotView)>::empty());
            } else if self@.dots == Set::<(T::V, DotView)>::empty() {
                assert(self.elements@ =~= Map::<(T::V, DotView), ()>::empty());
            }
        }
        r
    }

    /// The elements of the set, each once, in ascending order.
    pub fn iter(&self) -> (r: Vec<T>)
        requires
            self.wf(),
        ensures
            ascends::<T>(r.deep_view()),
            r.deep_view().no_duplicates(),
            r.deep_view().to_set() == elements_of(self@.dots),
    {
        distinct(&self.elements).keys()
    }

    /// Merges another set into this one. A pair of an element and a dot
    /// stays if both sides hold it, or if one side holds it and the other
    /// has not yet seen the dot.
    pub fn merge(&mut self, other: &Self)
        requires
            old(self).wf(),
            other.wf(),
        ensures
            final(self).wf(),
            final(self)@ == merged_state(old(self)@, other@),
    {
        self.elements = merge_dots(&self.elements, &self.vclock, &other.elements, &other.vclock);
        self.vclock.merge(&other.vclock);
    }

    /// Reads the set that a buffer holds from its first byte to its last.
    pub fn from_bytes(bytes: &[u8]) -> (r: Result<Self, CrdtError>)
        ensures
            match Self::parse(bytes@) {
                Some(s) => r matches Ok(x) && x.wf() && x@ == s,
                None => r matches Err(e) && e is Deserialization,
            },
    {
        proof {
            assert(bytes@.skip(0) =~= bytes@);
        }
        match decode_dot_state::<T>(bytes, 0) {
            Some((elements, vclock, end)) => {
                if end == bytes.len() {
                    Ok(ORSet { elements, vclock })
                } else {
                    Err(malformed("bytes left over after the set"))
                }
            },
            None => Err(malformed("no observed-remove set in the buffer")),
        }
    }
}

/// A reader over an encoded observed-remove set.
pub struct ORSetReader<'a, T> {
    bytes: &'a [u8],
    _phantom: PhantomData<T>,
}

impl<'a, T: Element> ORSetReader<'a, T> {
    /// The bytes that the reader borrows.
    pub closed spec fn bytes(&self) -> Seq<u8> {
        self.bytes@
    }

    /// A reader over `bytes`.
    pub fn new(bytes: &'a [u8]) -> (r: Self)
        ensures
            r.bytes() == bytes@,
    {
        ORSetReader { bytes, _phantom: PhantomData }
    }

    /// The set that the buffer holds.
    pub fn to_orset(&self) -> (r: Result<ORSet<T>, CrdtError>)
        ensures
            match ORSet::<T>::parse(self.bytes()) {
                Some(s) => r matches Ok(x) && x.wf() && x@ == s,
                None => r matches Err(e) && e is Deserialization,
            },
    {
        ORSet::from_bytes(self.bytes)
    }
}

impl<'a, T: Element> CrdtReader for ORSetReader<'a, T> {
    open spec fn bytes(&self) -> Seq<u8> {
        ORSetReader::bytes(self)
    }

    open spec fn readable(&self) -> bool {
        ORSet::<T>::parse(self.bytes()) is Some
    }

    open spec fn holds_nothing(&self) -> bool {
        match ORSet::<T>::parse(self.bytes()) {
            Some(s) => s.dots == Set::<(T::V, DotView)>::empty(),
            None => false,
        }
    }

    fn buffer(&self) -> (b: &[u8]) {
        self.bytes
    }

    fn is_empty(&self) -> (r: Result<bool, CrdtError>) {
        buffer_is_empty::<ORSet<T>>(self.bytes)
    }
}

impl<T: Element> Replica for ORSet<T> {
    type State = DotState<T::V>;

    open spec fn wf(&self) -> bool {
        self.elements.wf() && self.vclock.wf()
    }

    open spec fn state(&self) -> DotState<T::V> {
        self@
    }

    open spec fn is_initial(s: DotState<T::V>) -> bool {
        s.dots == Set::<(T::V, DotView)>::empty() && s.clock == ClockView::empty()
    }

    open spec fn blank(s: DotState<T::V>) -> bool {
        s.dots == Set::<(T::V, DotView)>::empty()
    }

    open spec fn merged(a: DotState<T::V>, b: DotState<T::V>) -> DotState<T::V> {
        merged_state(a, b)
    }

    open spec fn encodable(&self) -> bool {
        dot_state_encodable(&self.elements, &self.vclock)
    }

    open spec fn encoding(&self) -> Seq<u8> {
        dot_state_encoding(&self.elements, &self.vclock)
    }

    open spec fn parse(bytes: Seq<u8>) -> Option<DotState<T::V>> {
        ORSet::<T>::parse(bytes)
    }

    proof fn lemma_merge_idempotent(a: Self) {
        lemma_merged_state_idempotent(a@);
    }

    proof fn lemma_merge_commutative(a: Self, b: Self) {
        lemma_merged_state_commutative(a@, b@);
    }

    proof fn lemma_merge_associative(a: Self, b: Self, c: Self) {
        lemma_merged_state_associative(a@, b@, c@);
    }

    proof fn lemma_round_trip(a: Self) {
        let none = Seq::<u8>::empty();
        lemma_parse_dot_state(&a.elements, &a.vclock, none);
        assert(a.encoding() + none =~= a.encoding());
    }

    fn fresh() -> (r: Self) {
        ORSet::new()
    }

    fn merge(&mut self, other: &Self) {
        ORSet::merge(self, other)
    }

    fn from_bytes(bytes: &[u8]) -> (r: Result<Self, CrdtError>) {
        ORSet::from_bytes(bytes)
    }

    fn validate(&self) -> (r: Result<(), CrdtError>) {
        if !self.elements.check() {
            Err(invalid("set elements out of order"))
        } else if !self.vclock.clocks.check() {
            Err(invalid("vector clock nodes out of order"))
        } else {
            Ok(())
        }
    }

    fn is_empty(&self) -> (r: bool) {
        ORSet::is_empty(self)
    }

    fn to_capnp_bytes(&self) -> (r: Vec<u8>) {
        let mut out: Vec<u8> = Vec::new();
        encode_dot_state(&self.elements, &self.vclock, &mut out);
        proof {
            Self::lemma_round_trip(*self);
            assert(Seq::<u8>::empty() + self.encoding() =~= self.encoding());
        }
        out
    }
}

impl<T: Element + 'static> Crdt for ORSet<T> {
    type Reader<'a> = ORSetReader<'a, T>;

    fn merge_from_readers(readers: &[ORSetReader<'_, T>]) -> (r: Result<Self, CrdtError>) {
        merge_buffers::<ORSet<T>, ORSetReader<'_, T>>(readers)
    }
}

} // verus!
