//! The signed counter: one grow-only counter for what was added and one for
//! what was taken away; the value is the first less the second.

use crate::g_counter::{added_counter, count_of, merged_counter, GCounter, GCounterState};
use crate::traits::{
    buffer_is_empty, invalid, malformed, merge_buffers, Crdt, CrdtError, CrdtReader, Replica,
};
use crate::vector_clock::{
    counter_of, lemma_merged_clock_associative, lemma_merged_clock_commutative,
    lemma_merged_clock_idempotent, merged_clock, ticked, ClockView, VectorClock,
};
use vstd::prelude::*;
use vstd::string::*;

verus! {

/// What a signed counter stands for.
#[verifier::ext_equal]
pub struct PNCounterState {
    pub positive: GCounterState,
    pub negative: GCounterState,
    pub clock: ClockView,
}

/// The merge of two signed counter states, part by part.
pub open spec fn merged_signed(a: PNCounterState, b: PNCounterState) -> PNCounterState {
    PNCounterState {
        positive: merged_counter(a.positive, b.positive),
        negative: merged_counter(a.negative, b.negative),
        clock: merged_clock(a.clock, b.clock),
    }
}

/// Whether `amount` can be added to a node's count in `side` without
/// leaving the range of the counts and of the clock.
pub open spec fn has_room(side: GCounter, node: Seq<char>, amount: int) -> bool {
    counter_of(side@.clock, node) < u64::MAX && count_of(side@.counts, node) + amount
        <= i64::MAX
}

/// Whether `after` is `before` with `amount` added to a node's count.
pub open spec fn grown(before: GCounter, after: GCounter, node: Seq<char>, amount: int) -> bool {
    &&& after.wf()
    &&& after@.counts == before@.counts.insert(
        node,
        (count_of(before@.counts, node) + amount) as i64,
    )
    &&& ticked(before@.clock, after@.clock, node)
    &&& after.total() == before.total() + amount
}

/// Whether `after` is `before` with `delta` added to its value on behalf of
/// a node: a `delta` of 0 or more grows the positive part by it, a negative
/// one grows the negative part by its magnitude.
pub open spec fn shifted(before: PNCounter, after: PNCounter, node: Seq<char>, delta: int) -> bool {
    &&& after.vclock.wf()
    &&& ticked(before.vclock@, after.vclock@, node)
    &&& if delta >= 0 {
        grown(before.positive, after.positive, node, delta) && after.negative == before.negative
    } else {
        grown(before.negative, after.negative, node, -delta) && after.positive == before.positive
    }
}

/// A signed counter.
#[derive(Debug, Clone, PartialEq, Eq, Hash)]
pub struct PNCounter {
    /// What was added.
    pub positive: GCounter,
    /// What was taken away.
    pub negative: GCounter,
    /// The clock of all that this replica has seen.
    pub vclock: VectorClock,
}

impl Default for PNCounter {
    fn default() -> (r: Self)
        ensures
            r.wf(),
            <PNCounter as Replica>::is_initial(r@),
            r.value_spec() == 0,
    {
        PNCounter::new()
    }
}

impl PNCounter {
    /// The invariant of the representation.
    pub open spec fn wf(&self) -> bool {
        self.positive.wf() && self.negative.wf() && self.vclock.wf()
    }

    /// What the counter stands for.
    pub open spec fn view(&self) -> PNCounterState {
        PNCounterState {
            positive: self.positive@,
            negative: self.negative@,
            clock: self.vclock@,
        }
    }

    /// The value of the counter: what was added less what was taken away.
    pub open spec fn value_spec(&self) -> int {
        self.positive.total() - self.negative.total()
    }

    /// Whether `delta` can be added on behalf of a node without leaving the
    /// range of the counts and of the clocks.
    pub open spec fn has_room(&self, node: Seq<char>, delta: int) -> bool {
        &&& counter_of(self.vclock@, node) < u64::MAX
        &&& if delta >= 0 {
            has_room(self.positive, node, delta)
        } else {
            has_room(self.negative, node, -delta)
        }
    }

    /// Whether the counter can be encoded.
    pub open spec fn encodable(&self) -> bool {
        self.positive.encodable() && self.negative.encodable() && self.vclock.encodable()
    }

    /// The counter on the wire: the two parts, then the clock.
    pub open spec fn encoding(&self) -> Seq<u8> {
        self.positive.encoding() + self.negative.encoding() + self.vclock.clocks.encoding()
    }

    /// The state that a buffer starts with, and the bytes it takes.
    pub open spec fn parse_prefix(s: Seq<u8>) -> Option<(PNCounterState, int)> {
        match GCounter::parse_prefix(s) {
            Some((positive, n)) => match GCounter::parse_prefix(s.skip(n)) {
                Some((negative, m)) => match VectorClock::parse_prefix(s.skip(n + m)) {
                    Some((clock, k)) => Some(
                        (PNCounterState { positive, negative, clock }, n + m + k),
                    ),
                    None => None,
                },
                None => None,
            },
            None => None,
        }
    }

    /// The state that a buffer holds from its first byte to its last.
    pub open spec fn parse(s: Seq<u8>) -> Option<PNCounterState> {
        match Self::parse_prefix(s) {
            Some((state, n)) => if n == s.len() {
                Some(state)
            } else {
                None
            },
            None => None,
        }
    }

    /// A counter at 0.
    pub fn new() -> (r: Self)
        ensures
            r.wf(),
            <PNCounter as Replica>::is_initial(r@),
            r.value_spec() == 0,
    {
        PNCounter { positive: GCounter::new(), negative: GCounter::new(), vclock: VectorClock::new() }
    }

    /// Adds `delta` to the value on behalf of a node. A negative `delta`
    /// takes its magnitude away.
    pub fn increment(&mut self, node_id: &str, delta: i64)
        requires
            old(self).wf(),
            delta > i64::MIN,
            old(self).has_room(node_id@, delta as int),
        ensures
            final(self).wf(),
            shifted(*old(self), *final(self), node_id@, delta as int),
            final(self).value_spec() == old(self).value_spec() + delta,
    {
        if delta < 0 {
            self.negative.increment(node_id, -delta);
        } else {
            self.positive.increment(node_id, delta);
        }
        self.vclock.increment(node_id);
    }

    /// Adds `delta` to the value on behalf of a node if there is room for
    /// it, and reports it if there is not.
    pub fn try_increment(&mut self, node_id: &str, delta: i64) -> (r: Result<(), CrdtError>)
        requires
            old(self).wf(),
        ensures
            final(self).wf(),
            r is Ok <==> delta > i64::MIN && old(self).has_room(node_id@, delta as int),
            r matches Err(e) ==> e is InvalidInput && *final(self) == *old(self),
            r is Ok ==> shifted(*old(self), *final(self), node_id@, delta as int),
            r is Ok ==> final(self).value_spec() == old(self).value_spec() + delta,
    {
        if delta == i64::MIN || !self.vclock.has_room(node_id, 1) {
            return Err(CrdtError::InvalidInput(String::from_str("no room left to count in")));
        }
        let fits = if delta >= 0 {
            self.positive.vclock.has_room(node_id, 1) && delta <= i64::MAX - self.positive.count(
                node_id,
            )
        } else {
            self.negative.vclock.has_room(node_id, 1) && -delta <= i64::MAX
                - self.negative.count(node_id)
        };
        if !fits {
            return Err(CrdtError::InvalidInput(String::from_str("no room left to count in")));
        }
        self.increment(node_id, delta);
        Ok(())
    }

    /// Takes `delta` away from the value on behalf of a node. A negative
    /// `delta` adds its magnitude: `decrement(node, -x)` does what
    /// `increment(node, x)` does.
    pub fn decrement(&mut self, node_id: &str, delta: i64)
        requires
            old(self).wf(),
            delta > i64::MIN,
            old(self).has_room(node_id@, -delta),
        ensures
            final(self).wf(),
            shifted(*old(self), *final(self), node_id@, -delta),
            final(self).value_spec() == old(self).value_spec() - delta,
    {
        if delta <= 0 {
            self.positive.increment(node_id, -delta);
        } else {
            self.negative.increment(node_id, delta);
        }
        self.vclock.increment(node_id);
    }

    /// The value of the counter: what was added less what was taken away.
    pub fn value(&self) -> (r: i64)
        requires
            self.wf(),
            self.positive.total() <= i64::MAX,
            self.negative.total() <= i64::MAX,
        ensures
            r == self.value_spec(),
    {
        self.positive.value() - self.negative.value()
    }

    /// Whether nothing was added and nothing taken away.
    pub fn is_empty(&self) -> (r: bool)
        requires
            self.wf(),
        ensures
            r == <PNCounter as Replica>::blank(self@),
    {
        self.positive.is_empty() && self.negative.is_empty()
    }

    /// Merges another counter into this one, part by part.
    pub fn merge(&mut self, other: &Self)
        requires
            old(self).wf(),
            other.wf(),
        ensures
            final(self).wf(),
            final(self)@ == merged_signed(old(self)@, other@),
    {
        self.positive.merge(&other.positive);
        self.negative.merge(&other.negative);
        self.vclock.merge(&other.vclock);
    }

    /// Adds the counts of another counter to this one's, part by part, and
    /// merges the clocks.
    pub fn add_state(&mut self, other: &Self)
        requires
            old(self).wf(),
            other.wf(),
            old(self).positive.can_add(&other.positive),
            old(self).negative.can_add(&other.negative),
        ensures
            final(self).wf(),
            final(self)@.positive == added_counter(old(self)@.positive, other@.positive),
            final(self)@.negative == added_counter(old(self)@.negative, other@.negative),
            final(self)@.clock == merged_clock(old(self)@.clock, other@.clock),
    {
        self.positive.add_state(&other.positive);
        self.negative.add_state(&other.negative);
        self.vclock.merge(&other.vclock);
    }

    /// Reading an encoded counter back gives its state, whatever follows it.
    pub proof fn lemma_parse_encoding(&self, rest: Seq<u8>)
        requires
            self.wf(),
            self.encodable(),
        ensures
            Self::parse_prefix(self.encoding() + rest) == Some(
                (self@, self.encoding().len() as int),
            ),
    {
        let first = self.positive.encoding();
        let second = self.negative.encoding();
        let third = self.vclock.clocks.encoding();
        let whole = self.encoding() + rest;
        assert(whole =~= first + (second + (third + rest)));
        self.positive.lemma_parse_encoding(second + (third + rest));
        assert(whole.skip(first.len() as int) =~= second + (third + rest));
        self.negative.lemma_parse_encoding(third + rest);
        assert(whole.skip((first.len() + second.len()) as int) =~= third + rest);
        self.vclock.lemma_parse_encoding(rest);
    }

    /// Reads the counter that a buffer holds from its first byte to its last.
    pub fn from_bytes(bytes: &[u8]) -> (r: Result<Self, CrdtError>)
        ensures
            match Self::parse(bytes@) {
                Some(s) => r matches Ok(x) && x.wf() && x@ == s,
                None => r matches Err(e) && e is Deserialization,
            },
    {
        proof {
            assert(bytes@.skip(0) =~= bytes@);
        }
        let (positive, first) = match GCounter::decode_from(bytes, 0) {
            Some(part) => part,
            None => { return Err(malformed("no positive part in the buffer")); },
        };
        let (negative, second) = match GCounter::decode_from(bytes, first) {
            Some(part) => part,
            None => { return Err(malformed("no negative part in the buffer")); },
        };
        match VectorClock::decode_from(bytes, second) {
            Some((vclock, end)) => {
                if end == bytes.len() {
                    Ok(PNCounter { positive, negative, vclock })
                } else {
                    Err(malformed("bytes left over after the counter"))
                }
            },
            None => Err(malformed("no vector clock after the counter's parts")),
        }
    }
}

/// A reader over an encoded signed counter.
pub struct PNCounterReader<'a> {
    bytes: &'a [u8],
}

impl<'a> PNCounterReader<'a> {
    /// The bytes that the reader borrows.
    pub closed spec fn bytes(&self) -> Seq<u8> {
        self.bytes@
    }

    /// A reader over `bytes`.
    pub fn new(bytes: &'a [u8]) -> (r: Self)
        ensures
            r.bytes() == bytes@,
    {
        PNCounterReader { bytes }
    }

    /// The counter that the buffer holds.
    pub fn to_pncounter(&self) -> (r: Result<PNCounter, CrdtError>)
        ensures
            match PNCounter::parse(self.bytes()) {
                Some(s) => r matches Ok(x) && x.wf() && x@ == s,
                None => r matches Err(e) && e is Deserialization,
            },
    {
        PNCounter::from_bytes(self.bytes)
    }
}

impl<'a> CrdtReader for PNCounterReader<'a> {
    open spec fn bytes(&self) -> Seq<u8> {
        PNCounterReader::bytes(self)
    }

    open spec fn readable(&self) -> bool {
        PNCounter::parse(self.bytes()) is Some
    }

    open spec fn holds_nothing(&self) -> bool {
        match PNCounter::parse(self.bytes()) {
            Some(s) => <PNCounter as Replica>::blank(s),
            None => false,
        }
    }

    fn buffer(&self) -> (b: &[u8]) {
        self.bytes
    }

    fn is_empty(&self) -> (r: Result<bool, CrdtError>) {
        buffer_is_empty::<PNCounter>(self.bytes)
    }
}

impl Replica for PNCounter {
    type State = PNCounterState;

    open spec fn wf(&self) -> bool {
        PNCounter::wf(self)
    }

    open spec fn state(&self) -> PNCounterState {
        self@
    }

    open spec fn is_initial(s: PNCounterState) -> bool {
        <GCounter as Replica>::is_initial(s.positive) && <GCounter as Replica>::is_initial(
            s.negative,
        ) && s.clock == ClockView::empty()
    }

    open spec fn blank(s: PNCounterState) -> bool {
        s.positive.counts == Map::<Seq<char>, i64>::empty() && s.negative.counts == Map::<
            Seq<char>,
            i64,
        >::empty()
    }

    open spec fn merged(a: PNCounterState, b: PNCounterState) -> PNCounterState {
        merged_signed(a, b)
    }

    open spec fn encodable(&self) -> bool {
        PNCounter::encodable(self)
    }

    open spec fn encoding(&self) -> Seq<u8> {
        PNCounter::encoding(self)
    }

    open spec fn parse(bytes: Seq<u8>) -> Option<PNCounterState> {
        PNCounter::parse(bytes)
    }

    proof fn lemma_merge_idempotent(a: Self) {
        <GCounter as Replica>::lemma_merge_idempotent(a.positive);
        <GCounter as Replica>::lemma_merge_idempotent(a.negative);
        lemma_merged_clock_idempotent(a@.clock);
    }

    proof fn lemma_merge_commutative(a: Self, b: Self) {
        <GCounter as Replica>::lemma_merge_commutative(a.positive, b.positive);
        <GCounter as Replica>::lemma_merge_commutative(a.negative, b.negative);
        lemma_merged_clock_commutative(a@.clock, b@.clock);
    }

    proof fn lemma_merge_associative(a: Self, b: Self, c: Self) {
        <GCounter as Replica>::lemma_merge_associative(a.positive, b.positive, c.positive);
        <GCounter as Replica>::lemma_merge_associative(a.negative, b.negative, c.negative);
        lemma_merged_clock_associative(a@.clock, b@.clock, c@.clock);
    }

    proof fn lemma_round_trip(a: Self) {
        let none = Seq::<u8>::empty();
        a.lemma_parse_encoding(none);
        assert(PNCounter::encoding(&a) + none =~= PNCounter::encoding(&a));
    }

    fn fresh() -> (r: Self) {
        PNCounter::new()
    }

    fn merge(&mut self, other: &Self) {
        PNCounter::merge(self, other)
    }

    fn from_bytes(bytes: &[u8]) -> (r: Result<Self, CrdtError>) {
        PNCounter::from_bytes(bytes)
    }

    fn validate(&self) -> (r: Result<(), CrdtError>) {
        match self.positive.validate() {
            Ok(_) => {},
            Err(e) => { return Err(e); },
        }
        match self.negative.validate() {
            Ok(_) => {},
            Err(e) => { return Err(e); },
        }
        if self.vclock.clocks.check() {
            Ok(())
        } else {
            Err(invalid("vector clock nodes out of order"))
        }
    }

    fn is_empty(&self) -> (r: bool) {
        PNCounter::is_empty(self)
    }

    fn to_capnp_bytes(&self) -> (r: Vec<u8>) {
        let mut out: Vec<u8> = Vec::new();
        self.positive.encode_into(&mut out);
        self.negative.encode_into(&mut out);
        self.vclock.encode_into(&mut out);
        proof {
            Self::lemma_round_trip(*self);
            assert(Seq::<u8>::empty() + self.positive.encoding() + self.negative.encoding()
                + self.vclock.clocks.encoding() =~= PNCounter::encoding(self));
        }
        out
    }
}

impl Crdt for PNCounter {
    type Reader<'a> = PNCounterReader<'a>;

    fn merge_from_readers(readers: &[PNCounterReader<'_>]) -> (r: Result<Self, CrdtError>) {
        merge_buffers::<PNCounter, PNCounterReader<'_>>(readers)
    }
}

} // verus!
