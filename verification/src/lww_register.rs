//! The last-write-wins register: of two writes the one with the higher
//! timestamp stays; equal timestamps are decided by the node identifier and
//! then by the value, so that every replica decides alike.

use crate::element::Element;
use crate::maximum::{
    greater, lemma_greater_associative, lemma_greater_commutative, lemma_greater_idempotent,
};
use crate::text::NodeName;
use crate::traits::{
    buffer_is_empty, invalid, malformed, merge_buffers, Crdt, CrdtError, CrdtReader, Replica,
};
use crate::vector_clock::{
    counter_of, lemma_merged_clock_associative, lemma_merged_clock_commutative,
    lemma_merged_clock_idempotent, merged_clock, ticked, ClockView, VectorClock,
};
use std::marker::PhantomData;
use vstd::prelude::*;
use vstd::string::*;

verus! {

/// What a register stands for: its value, the timestamp and the node of the
/// write that set it, and the clock.
#[verifier::ext_equal]
pub struct RegisterState<E> {
    pub value: E,
    pub timestamp: u64,
    pub node: Seq<char>,
    pub clock: ClockView,
}

/// A write as it is ranked: timestamp, then node, then value.
pub type Stamp<E> = (u64, (Seq<char>, E));

/// The write that set a register.
pub open spec fn stamp_of<E>(s: RegisterState<E>) -> Stamp<E> {
    (s.timestamp, (s.node, s.value))
}

/// Whether write `a` ranks strictly below write `b`.
pub open spec fn ranks_below<T: Element>(a: Stamp<T::V>, b: Stamp<T::V>) -> bool {
    <(u64, (String, T)) as Element>::lt(a, b)
}

/// The register that holds a given write.
pub open spec fn holding<E>(w: Stamp<E>, clock: ClockView) -> RegisterState<E> {
    RegisterState { value: w.1.1, timestamp: w.0, node: w.1.0, clock }
}

/// The merge of two last-write-wins states: the higher-ranking write.
pub open spec fn merged_lww<T: Element>(a: RegisterState<T::V>, b: RegisterState<T::V>)
    -> RegisterState<T::V> {
    holding(
        greater::<(u64, (String, T))>(stamp_of(a), stamp_of(b)),
        merged_clock(a.clock, b.clock),
    )
}

/// A last-write-wins register.
#[derive(Debug, Clone, PartialEq, Eq, Hash)]
pub struct LWWRegister<T: Element> {
    /// The value of the winning write.
    pub value: T,
    /// The timestamp of the winning write.
    pub timestamp: u64,
    /// The node of the winning write.
    pub node_id: String,
    /// The clock of all that this replica has seen.
    pub vclock: VectorClock,
}

impl<T: Element + Default> Default for LWWRegister<T> {
    fn default() -> (r: Self)
        ensures
            r.wf(),
            r@.timestamp == 0,
            r@.node == Seq::<char>::empty(),
            r@.clock == ClockView::empty(),
    {
        LWWRegister {
            value: T::default(),
            timestamp: 0,
            node_id: String::new(),
            vclock: VectorClock::new(),
        }
    }
}

impl<T: Element> LWWRegister<T> {
    /// The invariant of the representation.
    pub open spec fn wf(&self) -> bool {
        self.vclock.wf()
    }

    /// What the register stands for.
    pub open spec fn view(&self) -> RegisterState<T::V> {
        RegisterState {
            value: self.value.deep_view(),
            timestamp: self.timestamp,
            node: self.node_id@,
            clock: self.vclock@,
        }
    }

    /// Whether the register can be encoded.
    pub open spec fn encodable(&self) -> bool {
        <(T, (u64, String)) as Element>::encodable(
            (self.value.deep_view(), (self.timestamp, self.node_id@)),
        ) && self.vclock.encodable()
    }

    /// The register on the wire: value, timestamp, node, then the clock.
    pub open spec fn encoding(&self) -> Seq<u8> {
        <(T, (u64, String)) as Element>::encoding(
            (self.value.deep_view(), (self.timestamp, self.node_id@)),
        ) + self.vclock.clocks.encoding()
    }

    /// The state that a buffer starts with, and the bytes it takes.
    pub open spec fn parse_prefix(s: Seq<u8>) -> Option<(RegisterState<T::V>, int)> {
        match <(T, (u64, String)) as Element>::parse(s) {
            Some((w, n)) => match VectorClock::parse_prefix(s.skip(n)) {
                Some((clock, m)) => Some(
                    (RegisterState { value: w.0, timestamp: w.1.0, node: w.1.1, clock }, n + m),
                ),
                None => None,
            },
            None => None,
        }
    }

    /// The state that a buffer holds from its first byte to its last.
    pub open spec fn parse(s: Seq<u8>) -> Option<RegisterState<T::V>> {
        match Self::parse_prefix(s) {
            Some((state, n)) => if n == s.len() {
                Some(state)
            } else {
                None
            },
            None => None,
        }
    }

    /// A register that holds one write.
    pub fn new<N: NodeName>(value: T, timestamp: u64, node_id: N) -> (r: Self)
        ensures
            r.wf(),
            r@.value == value.deep_view(),
            r@.timestamp == timestamp,
            r@.node == node_id.name(),
            ticked(ClockView::empty(), r@.clock, node_id.name()),
    {
        let node = node_id.into_node();
        let mut vclock = VectorClock::new();
        vclock.increment(node.as_str());
        LWWRegister { value, timestamp, node_id: node, vclock }
    }

    /// Offers a write. It is taken only if it ranks strictly above the write
    /// that the register holds; then the clock ticks for the writing node.
    pub fn set<N: NodeName>(&mut self, value: T, timestamp: u64, node_id: N)
        requires
            old(self).wf(),
            ranks_below::<T>(
                stamp_of(old(self)@),
                (timestamp, (node_id.name(), value.deep_view())),
            ) ==> counter_of(old(self)@.clock, node_id.name()) < u64::MAX,
        ensures
            final(self).wf(),
            if ranks_below::<T>(
                stamp_of(old(self)@),
                (timestamp, (node_id.name(), value.deep_view())),
            ) {
                &&& stamp_of(final(self)@) == (timestamp, (node_id.name(), value.deep_view()))
                &&& ticked(old(self)@.clock, final(self)@.clock, node_id.name())
            } else {
                final(self)@ == old(self)@
            },
    {
        let node = node_id.into_node();
        let update = if timestamp > self.timestamp {
            true
        } else if timestamp < self.timestamp {
            false
        } else if self.node_id.less(&node) {
            true
        } else {
            self.node_id.same(&node) && self.value.less(&value)
        };
        if update {
            self.value = value;
            self.timestamp = timestamp;
            self.vclock.increment(node.as_str());
            self.node_id = node;
        }
    }

    /// Merges another register into this one: the higher-ranking write
    /// stays.
    pub fn merge(&mut self, other: &Self)
        requires
            old(self).wf(),
            other.wf(),
        ensures
            final(self).wf(),
            final(self)@ == merged_lww::<T>(old(self)@, other@),
    {
        let update = if other.timestamp > self.timestamp {
            true
        } else if other.timestamp < self.timestamp {
            false
        } else if self.node_id.less(&other.node_id) {
            true
        } else {
            self.node_id.same(&other.node_id) && self.value.less(&other.value)
        };
        if update {
            self.value = other.value.duplicate();
            self.timestamp = other.timestamp;
            self.node_id = other.node_id.duplicate();
        }
        self.vclock.merge(&other.vclock);
    }

    /// Whether the register holds no write yet: its timestamp is 0.
    pub fn is_empty(&self) -> (r: bool)
        ensures
            r == (self@.timestamp == 0),
    {
        self.timestamp == 0
    }

    /// Reading an encoded register back gives its state, whatever follows it.
    pub proof fn lemma_parse_encoding(&self, rest: Seq<u8>)
        requires
            self.wf(),
            self.encodable(),
        ensures
            Self::parse_prefix(self.encoding() + rest) == Some(
                (self@, self.encoding().len() as int),
            ),
    {
        let w = (self.value.deep_view(), (self.timestamp, self.node_id@));
        let first = <(T, (u64, String)) as Element>::encoding(w);
        let second = self.vclock.clocks.encoding();
        let whole = self.encoding() + rest;
        assert(whole =~= first + (second + rest));
        <(T, (u64, String)) as Element>::lemma_parse_encoding(w, second + rest);
        assert(whole.skip(first.len() as int) =~= second + rest);
        self.vclock.lemma_parse_encoding(rest);
    }

    /// Appends the register's encoding to `out`.
    pub fn encode_into(&self, out: &mut Vec<u8>)
        ensures
            self.encodable(),
            final(out)@ == old(out)@ + self.encoding(),
    {
        self.value.encode(out);
        self.timestamp.encode(out);
        self.node_id.encode(out);
        self.vclock.encode_into(out);
        proof {
            let a = T::encoding(self.value.deep_view());
            let b = u64::encoding(self.timestamp);
            let c = String::encoding(self.node_id@);
            let d = self.vclock.clocks.encoding();
            assert(old(out)@ + a + b + c + d =~= old(out)@ + ((a + (b + c)) + d));
        }
    }

    /// Reads the register that a buffer holds from its first byte to its
    /// last.
    pub fn from_bytes(bytes: &[u8]) -> (r: Result<Self, CrdtError>)
        ensures
            match Self::parse(bytes@) {
                Some(s) => r matches Ok(x) && x.wf() && x@ == s,
                None => r matches Err(e) && e is Deserialization,
            },
    {
        proof {
            assert(bytes@.skip(0) =~= bytes@);
        }
        let (write, mid) = match <(T, (u64, String)) as Element>::decode(bytes, 0) {
            Some(part) => part,
            None => { return Err(malformed("no register in the buffer")); },
        };
        match VectorClock::decode_from(bytes, mid) {
            Some((vclock, end)) => {
                if end == bytes.len() {
                    let (value, tag) = write;
                    let (timestamp, node_id) = tag;
                    Ok(LWWRegister { value, timestamp, node_id, vclock })
                } else {
                    Err(malformed("bytes left over after the register"))
                }
            },
            None => Err(malformed("no vector clock after the register's write")),
        }
    }
}

/// A reader over an encoded last-write-wins register.
pub struct LWWRegisterReader<'a, T> {
    bytes: &'a [u8],
    _phantom: PhantomData<T>,
}

impl<'a, T: Element> LWWRegisterReader<'a, T> {
    /// The bytes that the reader borrows.
    pub closed spec fn bytes(&self) -> Seq<u8> {
        self.bytes@
    }

    /// A reader over `bytes`.
    pub fn new(bytes: &'a [u8]) -> (r: Self)
        ensures
            r.bytes() == bytes@,
    {
        LWWRegisterReader { bytes, _phantom: PhantomData }
    }

    /// The register that the buffer holds.
    pub fn to_register(&self) -> (r: Result<LWWRegister<T>, CrdtError>)
        ensures
            match LWWRegister::<T>::parse(self.bytes()) {
                Some(s) => r matches Ok(x) && x.wf() && x@ == s,
                None => r matches Err(e) && e is Deserialization,
            },
    {
        LWWRegister::from_bytes(self.bytes)
    }
}

impl<'a, T: Element + Default> CrdtReader for LWWRegisterReader<'a, T> {
    open spec fn bytes(&self) -> Seq<u8> {
        LWWRegisterReader::bytes(self)
    }

    open spec fn readable(&self) -> bool {
        LWWRegister::<T>::parse(self.bytes()) is Some
    }

    open spec fn holds_nothing(&self) -> bool {
        match LWWRegister::<T>::parse(self.bytes()) {
            Some(s) => s.timestamp == 0,
            None => false,
        }
    }

    fn buffer(&self) -> (b: &[u8]) {
        self.bytes
    }

    fn is_empty(&self) -> (r: Result<bool, CrdtError>) {
        buffer_is_empty::<LWWRegister<T>>(self.bytes)
    }
}

impl<T: Element + Default> Replica for LWWRegister<T> {
    type State = RegisterState<T::V>;

    open spec fn wf(&self) -> bool {
        LWWRegister::wf(self)
    }

    open spec fn state(&self) -> RegisterState<T::V> {
        self@
    }

    open spec fn is_initial(s: RegisterState<T::V>) -> bool {
        s.timestamp == 0 && s.node == Seq::<char>::empty() && s.clock == ClockView::empty()
    }

    open spec fn blank(s: RegisterState<T::V>) -> bool {
        s.timestamp == 0
    }

    open spec fn merged(a: RegisterState<T::V>, b: RegisterState<T::V>) -> RegisterState<T::V> {
        merged_lww::<T>(a, b)
    }

    open spec fn encodable(&self) -> bool {
        LWWRegister::encodable(self)
    }

    open spec fn encoding(&self) -> Seq<u8> {
        LWWRegister::encoding(self)
    }

    open spec fn parse(bytes: Seq<u8>) -> Option<RegisterState<T::V>> {
        LWWRegister::<T>::parse(bytes)
    }

    proof fn lemma_merge_idempotent(a: Self) {
        lemma_greater_idempotent::<(u64, (String, T))>(stamp_of(a@));
        lemma_merged_clock_idempotent(a@.clock);
    }

    proof fn lemma_merge_commutative(a: Self, b: Self) {
        lemma_greater_commutative::<(u64, (String, T))>(stamp_of(a@), stamp_of(b@));
        lemma_merged_clock_commutative(a@.clock, b@.clock);
    }

    proof fn lemma_merge_associative(a: Self, b: Self, c: Self) {
        lemma_greater_associative::<(u64, (String, T))>(
            stamp_of(a@),
            stamp_of(b@),
            stamp_of(c@),
        );
        lemma_merged_clock_associative(a@.clock, b@.clock, c@.clock);
    }

    proof fn lemma_round_trip(a: Self) {
        let none = Seq::<u8>::empty();
        a.lemma_parse_encoding(none);
        assert(LWWRegister::encoding(&a) + none =~= LWWRegister::encoding(&a));
    }

    fn fresh() -> (r: Self) {
        LWWRegister {
            value: T::default(),
            timestamp: 0,
            node_id: String::new(),
            vclock: VectorClock::new(),
        }
    }

    fn merge(&mut self, other: &Self) {
        LWWRegister::merge(self, other)
    }

    fn from_bytes(bytes: &[u8]) -> (r: Result<Self, CrdtError>) {
        LWWRegister::from_bytes(bytes)
    }

    fn validate(&self) -> (r: Result<(), CrdtError>) {
        if self.vclock.clocks.check() {
            Ok(())
        } else {
            Err(invalid("vector clock nodes out of order"))
        }
    }

    fn is_empty(&self) -> (r: bool) {
        LWWRegister::is_empty(self)
    }

    fn to_capnp_bytes(&self) -> (r: Vec<u8>) {
        let mut out: Vec<u8> = Vec::new();
        self.encode_into(&mut out);
        proof {
            Self::lemma_round_trip(*self);
            assert(Seq::<u8>::empty() + LWWRegister::encoding(self) =~= LWWRegister::encoding(
                self,
            ));
        }
        out
    }
}

impl<T: Element + Default + 'static> Crdt for LWWRegister<T> {
    type Reader<'a> = LWWRegisterReader<'a, T>;

    fn merge_from_readers(readers: &[LWWRegisterReader<'_, T>]) -> (r: Result<Self, CrdtError>) {
        merge_buffers::<LWWRegister<T>, LWWRegisterReader<'_, T>>(readers)
    }
}

} // verus!
