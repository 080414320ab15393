//! The multi-value register: a write replaces what the writer has seen, and
//! writes that did not see each other are kept side by side.

use crate::dots::{
    decode_dot_state, distinct, dot_state_encodable, dot_state_encoding, elements_of,
    encode_dot_state, lemma_merged_state_associative, lemma_merged_state_commutative,
    lemma_merged_state_idempotent, lemma_parse_dot_state, merge_dots, merged_state,
    parse_dot_state, DotMap, DotState, DotView,
};
use crate::element::Element;
use crate::ordered_map::{ascends, OrderedMap};
use crate::traits::{
    buffer_is_empty, invalid, malformed, merge_buffers, Crdt, CrdtError, CrdtReader, Replica,
};
use crate::vector_clock::{counter_of, ticked, ClockView, VectorClock};
use std::marker::PhantomData;
use vstd::prelude::*;
use vstd::string::*;

verus! {

/// A multi-value register.
#[derive(Debug, Clone, PartialEq, Eq, Hash)]
pub struct MVRegister<T: Element> {
    /// The values with the dots that wrote them.
    pub entries: DotMap<T>,
    /// The clock of all that this replica has seen.
    pub vclock: VectorClock,
}

impl<T: Element> Default for MVRegister<T> {
    fn default() -> (r: Self)
        ensures
            r.wf(),
            r@.dots == Set::<(T::V, DotView)>::empty(),
            r@.clock == ClockView::empty(),
    {
        MVRegister::new()
    }
}

impl<T: Element> MVRegister<T> {
    /// The invariant of the representation.
    pub open spec fn wf(&self) -> bool {
        self.entries.wf() && self.vclock.wf()
    }

    /// What the register stands for.
    pub open spec fn view(&self) -> DotState<T::V> {
        DotState { dots: self.entries@.dom(), clock: self.vclock@ }
    }

    /// The state that a buffer holds from its first byte to its last.
    pub open spec fn parse(s: Seq<u8>) -> Option<DotState<T::V>> {
        match parse_dot_state::<T>(s) {
            Some((state, n)) => if n == s.len() {
                Some(state)
            } else {
                None
            },
            None => None,
        }
    }

    /// A register that holds no value.
    pub fn new() -> (r: Self)
        ensures
            r.wf(),
            r@.dots == Set::<(T::V, DotView)>::empty(),
            r@.clock == ClockView::empty(),
    {
        let r = MVRegister { entries: OrderedMap::new(), vclock: VectorClock::new() };
        proof {
            assert(r@.dots =~= Set::<(T::V, DotView)>::empty());
        }
        r
    }

    /// Writes a value: it replaces every value that the register holds, and
    /// stands under a fresh dot of `node_id`.
    pub fn set(&mut self, node_id: &str, value: T)
        requires
            old(self).wf(),
            counter_of(old(self)@.clock, node_id@) < u64::MAX,
        ensures
            final(self).wf(),
            ticked(old(self)@.clock, final(self)@.clock, node_id@),
            final(self)@.dots == Set::<(T::V, DotView)>::empty().insert(
                (
                    value.deep_view(),
                    (node_id@, (counter_of(old(self)@.clock, node_id@) + 1) as u64),
                ),
            ),
    {
        let tick = self.vclock.increment(node_id);
        self.entries.clear();
        self.entries.insert((value, (node_id.to_owned(), tick.0)), ());
        proof {
            assert(self@.dots =~= Set::<(T::V, DotView)>::empty().insert(
                (
                    value.deep_view(),
                    (node_id@, (counter_of(old(self)@.clock, node_id@) + 1) as u64),
                ),
            ));
        }
    }

    /// The values that the register holds, each once, in ascending order.
    pub fn versions(&self) -> (r: Vec<T>)
        requires
            self.wf(),
        ensures
            ascends::<T>(r.deep_view()),
            r.deep_view().no_duplicates(),
            r.deep_view().to_set() == elements_of(self@.dots),
    {
        distinct(&self.entries).keys()
    }

    /// Whether the register holds no value.
    pub fn is_empty(&self) -> (r: bool)
        requires
            self.wf(),
        ensures
            r == (self@.dots == Set::<(T::V, DotView)>::empty()),
    {
        let r = self.entries.is_empty();
        proof {
            if r {
                assert(self@.dots =~= Set::<(T::V, DotView)>::empty());
            } else if self@.dots == Set::<(T::V, DotView)>::empty() {
                assert(self.entries@ =~= Map::<(T::V, DotView), ()>::empty());
            }
        }
        r
    }

    /// Merges another register into this one. A pair of a value and a dot
    /// stays if both sides hold it, or if one side holds it and the other
    /// has not yet seen the dot.
    pub fn merge(&mut self, other: &Self)
        requires
            old(self).wf(),
            other.wf(),
        ensures
            final(self).wf(),
            final(self)@ == merged_state(old(self)@, other@),
    {
        self.entries = merge_dots(&self.entries, &self.vclock, &other.entries, &other.vclock);
        self.vclock.merge(&other.vclock);
    }

    /// Reads the register that a buffer holds from its first byte to its last.
    pub fn from_bytes(bytes: &[u8]) -> (r: Result<Self, CrdtError>)
        ensures
            match Self::parse(bytes@) {
                Some(s) => r matches Ok(x) && x.wf() && x@ == s,
                None => r matches Err(e) && e is Deserialization,
            },
    {
        proof {
            assert(bytes@.skip(0) =~= bytes@);
        }
        match decode_dot_state::<T>(bytes, 0) {
            Some((entries, vclock, end)) => {
                if end == bytes.len() {
                    Ok(MVRegister { entries, vclock })
                } else {
                    Err(malformed("bytes left over after the register"))
                }
            },
            None => Err(malformed("no multi-value register in the buffer")),
        }
    }
}

/// A reader over an encoded multi-value register.
pub struct MVRegisterReader<'a, T> {
    bytes: &'a [u8],
    _phantom: PhantomData<T>,
}

impl<'a, T: Element> MVRegisterReader<'a, T> {
    /// The bytes that the reader borrows.
    pub closed spec fn bytes(&self) -> Seq<u8> {
        self.bytes@
    }

    /// A reader over `bytes`.
    pub fn new(bytes: &'a [u8]) -> (r: Self)
        ensures
            r.bytes() == bytes@,
    {
        MVRegisterReader { bytes, _phantom: PhantomData }
    }

    /// The register that the buffer holds.
    pub fn to_register(&self) -> (r: Result<MVRegister<T>, CrdtError>)
        ensures
            match MVRegister::<T>::parse(self.bytes()) {
                Some(s) => r matches Ok(x) && x.wf() && x@ == s,
                None => r matches Err(e) && e is Deserialization,
            },
    {
        MVRegister::from_bytes(self.bytes)
    }
}

impl<'a, T: Element> CrdtReader for MVRegisterReader<'a, T> {
    open spec fn bytes(&self) -> Seq<u8> {
        MVRegisterReader::bytes(self)
    }

    open spec fn readable(&self) -> bool {
        MVRegister::<T>::parse(self.bytes()) is Some
    }

    open spec fn holds_nothing(&self) -> bool {
        match MVRegister::<T>::parse(self.bytes()) {
            Some(s) => s.dots == Set::<(T::V, DotView)>::empty(),
            None => false,
        }
    }

    fn buffer(&self) -> (b: &[u8]) {
        self.bytes
    }

    fn is_empty(&self) -> (r: Result<bool, CrdtError>) {
        buffer_is_empty::<MVRegister<T>>(self.bytes)
    }
}

impl<T: Element> Replica for MVRegister<T> {
    type State = DotState<T::V>;

    open spec fn wf(&self) -> bool {
        self.entries.wf() && self.vclock.wf()
    }

    open spec fn state(&self) -> DotState<T::V> {
        self@
    }

    open spec fn is_initial(s: DotState<T::V>) -> bool {
        s.dots == Set::<(T::V, DotView)>::empty() && s.clock == ClockView::empty()
    }

    open spec fn blank(s: DotState<T::V>) -> bool {
        s.dots == Set::<(T::V, DotView)>::empty()
    }

    open spec fn merged(a: DotState<T::V>, b: DotState<T::V>) -> DotState<T::V> {
        merged_state(a, b)
    }

    open spec fn encodable(&self) -> bool {
        dot_state_encodable(&self.entries, &self.vclock)
    }

    open spec fn encoding(&self) -> Seq<u8> {
        dot_state_encoding(&self.entries, &self.vclock)
    }

    open spec fn parse(bytes: Seq<u8>) -> Option<DotState<T::V>> {
        MVRegister::<T>::parse(bytes)
    }

    proof fn lemma_merge_idempotent(a: Self) {
        lemma_merged_state_idempotent(a@);
    }

    proof fn lemma_merge_commutative(a: Self, b: Self) {
        lemma_merged_state_commutative(a@, b@);
    }

    proof fn lemma_merge_associative(a: Self, b: Self, c: Self) {
        lemma_merged_state_associative(a@, b@, c@);
    }

    proof fn lemma_round_trip(a: Self) {
        let none = Seq::<u8>::empty();
        lemma_parse_dot_state(&a.entries, &a.vclock, none);
        assert(a.encoding() + none =~= a.encoding());
    }

    fn fresh() -> (r: Self) {
        MVRegister::new()
    }

    fn merge(&mut self, other: &Self) {
        MVRegister::merge(self, other)
    }

    fn from_bytes(bytes: &[u8]) -> (r: Result<Self, CrdtError>) {
        MVRegister::from_bytes(bytes)
    }

    fn validate(&self) -> (r: Result<(), CrdtError>) {
        if !self.entries.check() {
            Err(invalid("register values out of order"))
        } else if !self.vclock.clocks.check() {
            Err(invalid("vector clock nodes out of order"))
        } else {
            Ok(())
        }
    }

    fn is_empty(&self) -> (r: bool) {
        MVRegister::is_empty(self)
    }

    fn to_capnp_bytes(&self) -> (r: Vec<u8>) {
        let mut out: Vec<u8> = Vec::new();
        encode_dot_state(&self.entries, &self.vclock, &mut out);
        proof {
            Self::lemma_round_trip(*self);
            assert(Seq::<u8>::empty() + self.encoding() =~= self.encoding());
        }
        out
    }
}

impl<T: Element + 'static> Crdt for MVRegister<T> {
    type Reader<'a> = MVRegisterReader<'a, T>;

    fn merge_from_readers(readers: &[MVRegisterReader<'_, T>]) -> (r: Result<Self, CrdtError>) {
        merge_buffers::<MVRegister<T>, MVRegisterReader<'_, T>>(readers)
    }
}

} // verus!
