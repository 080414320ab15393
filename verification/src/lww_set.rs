//! The last-write-wins set: each element carries the tag of its latest add
//! and of its latest remove, a tag being a timestamp and a node. An element
//! is present while its add ranks strictly above its remove.

use crate::element::Element;
use crate::maximum::{
    greatest_of, lemma_greatest_associative, lemma_greatest_commutative,
    lemma_greatest_idempotent, lemma_raises_bounded, raise, raised_all, raises_taken, rises,
    Greatest,
};
use crate::ordered_map::{as_map, ascends, Keep, OrderedMap};
use crate::traits::{
    buffer_is_empty, invalid, malformed, merge_buffers, Crdt, CrdtError, CrdtReader, Replica,
};
use crate::vector_clock::{
    advanced, counter_of, lemma_advanced_tick, lemma_merged_clock_associative,
    lemma_merged_clock_commutative, lemma_merged_clock_idempotent, merged_clock, ticked,
    ClockView, VectorClock,
};
use std::marker::PhantomData;
use vstd::prelude::*;
use vstd::string::*;

verus! {

/// A tag as contracts speak of it: timestamp and node.
pub type TagView = (u64, Seq<char>);

/// What a last-write-wins set stands for: the latest add and the latest
/// remove of each element, and the clock.
#[verifier::ext_equal]
#[verifier::reject_recursive_types(E)]
pub struct LWWSetState<E> {
    pub adds: Map<E, TagView>,
    pub removes: Map<E, TagView>,
    pub clock: ClockView,
}

/// Whether tag `a` ranks strictly below tag `b`.
pub open spec fn tag_below(a: TagView, b: TagView) -> bool {
    <(u64, String) as Element>::lt(a, b)
}

/// Whether an element with the add tag `add` is present, given the removes.
pub open spec fn outranks<E>(removes: Map<E, TagView>, e: E, add: TagView) -> bool {
    !removes.contains_key(e) || tag_below(removes[e], add)
}

/// Whether an element is present.
pub open spec fn present<E>(s: LWWSetState<E>, e: E) -> bool {
    s.adds.contains_key(e) && outranks(s.removes, e, s.adds[e])
}

/// The elements that are present.
pub open spec fn members<E>(s: LWWSetState<E>) -> Set<E> {
    Set::new(|e: E| present(s, e))
}

/// The merge of two set states: tag by tag the higher-ranking one.
pub open spec fn merged_lww_set<E>(a: LWWSetState<E>, b: LWWSetState<E>) -> LWWSetState<E> {
    LWWSetState {
        adds: greatest_of::<E, (u64, String)>(a.adds, b.adds),
        removes: greatest_of::<E, (u64, String)>(a.removes, b.removes),
        clock: merged_clock(a.clock, b.clock),
    }
}

/// The elements of a list, each with the same tag.
pub open spec fn tagged<E>(items: Seq<E>, tag: TagView) -> Seq<(E, TagView)> {
    Seq::new(items.len(), |i: int| (items[i], tag))
}

/// The test that keeps the adds which rank above their remove.
pub struct Present<'a, T: Element> {
    pub removes: &'a OrderedMap<T, (u64, String)>,
}

impl<'a, T: Element> Keep<T, (u64, String)> for Present<'a, T> {
    open spec fn ready(&self) -> bool {
        self.removes.wf()
    }

    open spec fn keeps(&self, k: T::V, v: TagView) -> bool {
        outranks(self.removes@, k, v)
    }

    fn test(&self, k: &T, v: &(u64, String)) -> (r: bool) {
        match self.removes.get(k) {
            Some(removed) => removed.less(v),
            None => true,
        }
    }
}

/// A last-write-wins set.
#[derive(Debug, Clone, PartialEq, Eq, Hash)]
pub struct LWWSet<T: Element> {
    /// The latest add of each element.
    pub add_set: OrderedMap<T, (u64, String)>,
    /// The latest remove of each element.
    pub remove_set: OrderedMap<T, (u64, String)>,
    /// The clock of all that this replica has seen.
    pub vclock: VectorClock,
}

impl<T: Element> Default for LWWSet<T> {
    fn default() -> (r: Self)
        ensures
            r.wf(),
            <LWWSet<T> as Replica>::is_initial(r@),
    {
        LWWSet::new()
    }
}

impl<T: Element> LWWSet<T> {
    /// The invariant of the representation.
    pub open spec fn wf(&self) -> bool {
        self.add_set.wf() && self.remove_set.wf() && self.vclock.wf()
    }

    /// What the set stands for.
    pub open spec fn view(&self) -> LWWSetState<T::V> {
        LWWSetState { adds: self.add_set@, removes: self.remove_set@, clock: self.vclock@ }
    }

    /// Whether the set can be encoded.
    pub open spec fn encodable(&self) -> bool {
        self.add_set.encodable() && self.remove_set.encodable() && self.vclock.encodable()
    }

    /// The set on the wire: the adds, the removes, then the clock.
    pub open spec fn encoding(&self) -> Seq<u8> {
        self.add_set.encoding() + self.remove_set.encoding() + self.vclock.clocks.encoding()
    }

    /// The state that a buffer starts with, and the bytes it takes.
    pub open spec fn parse_prefix(s: Seq<u8>) -> Option<(LWWSetState<T::V>, int)> {
        match OrderedMap::<T, (u64, String)>::parse(s) {
            Some((adds, n)) => match OrderedMap::<T, (u64, String)>::parse(s.skip(n)) {
                Some((removes, m)) => match VectorClock::parse_prefix(s.skip(n + m)) {
                    Some((clock, k)) => Some(
                        (
                            LWWSetState { adds: as_map(adds), removes: as_map(removes), clock },
                            n + m + k,
                        ),
                    ),
                    None => None,
                },
                None => None,
            },
            None => None,
        }
    }

    /// The state that a buffer holds from its first byte to its last.
    pub open spec fn parse(s: Seq<u8>) -> Option<LWWSetState<T::V>> {
        match Self::parse_prefix(s) {
            Some((state, n)) => if n == s.len() {
                Some(state)
            } else {
                None
            },
            None => None,
        }
    }

    /// An empty set.
    pub fn new() -> (r: Self)
        ensures
            r.wf(),
            <LWWSet<T> as Replica>::is_initial(r@),
    {
        LWWSet {
            add_set: OrderedMap::new(),
            remove_set: OrderedMap::new(),
            vclock: VectorClock::new(),
        }
    }

    /// Offers an add. It is taken only if the element has no add yet or the
    /// tag ranks strictly above its latest add; then the clock ticks for
    /// the node.
    pub fn insert(&mut self, node_id: &str, element: T, timestamp: u64)
        requires
            old(self).wf(),
            rises::<T::V, (u64, String)>(
                old(self)@.adds,
                element.deep_view(),
                (timestamp, node_id@),
            ) ==> counter_of(old(self)@.clock, node_id@) < u64::MAX,
        ensures
            final(self).wf(),
            final(self)@.removes == old(self)@.removes,
            if rises::<T::V, (u64, String)>(
                old(self)@.adds,
                element.deep_view(),
                (timestamp, node_id@),
            ) {
                &&& final(self)@.adds == old(self)@.adds.insert(
                    element.deep_view(),
                    (timestamp, node_id@),
                )
                &&& ticked(old(self)@.clock, final(self)@.clock, node_id@)
            } else {
                final(self)@ == old(self)@
            },
    {
        if raise(&mut self.add_set, element, (timestamp, node_id.to_owned())) {
            self.vclock.increment(node_id);
        }
    }

    /// Offers a remove. It is taken only if the element has no remove yet or
    /// the tag ranks strictly above its latest remove; then the clock ticks
    /// for the node.
    pub fn remove(&mut self, node_id: &str, element: T, timestamp: u64)
        requires
            old(self).wf(),
            rises::<T::V, (u64, String)>(
                old(self)@.removes,
                element.deep_view(),
                (timestamp, node_id@),
            ) ==> counter_of(old(self)@.clock, node_id@) < u64::MAX,
        ensures
            final(self).wf(),
            final(self)@.adds == old(self)@.adds,
            if rises::<T::V, (u64, String)>(
                old(self)@.removes,
                element.deep_view(),
                (timestamp, node_id@),
            ) {
                &&& final(self)@.removes == old(self)@.removes.insert(
                    element.deep_view(),
                    (timestamp, node_id@),
                )
                &&& ticked(old(self)@.clock, final(self)@.clock, node_id@)
            } else {
                final(self)@ == old(self)@
            },
    {
        if raise(&mut self.remove_set, element, (timestamp, node_id.to_owned())) {
            self.vclock.increment(node_id);
        }
    }

    /// Offers an add of each element of a list, one after another, all with
    /// the same tag. The clock ticks once for each add that is taken.
    pub fn insert_all(&mut self, node_id: &str, items: &Vec<T>, timestamp: u64)
        requires
            old(self).wf(),
            counter_of(old(self)@.clock, node_id@) + items@.len() <= u64::MAX,
        ensures
            final(self).wf(),
            final(self)@.removes == old(self)@.removes,
            final(self)@.adds == raised_all::<T::V, (u64, String)>(
                old(self)@.adds,
                tagged(items.deep_view(), (timestamp, node_id@)),
            ),
            advanced(
                old(self)@.clock,
                final(self)@.clock,
                node_id@,
                raises_taken::<T::V, (u64, String)>(
                    old(self)@.adds,
                    tagged(items.deep_view(), (timestamp, node_id@)),
                ),
            ),
    {
        let ghost start = self@;
        let ghost ws = tagged(items.deep_view(), (timestamp, node_id@));
        let n = items.len();
        let mut i: usize = 0;
        proof {
            assert(ws.take(0) =~= Seq::<(T::V, TagView)>::empty());
        }
        while i < n
            invariant
                i <= n,
                n == items@.len(),
                ws == tagged(items.deep_view(), (timestamp, node_id@)),
                self.wf(),
                counter_of(start.clock, node_id@) + n <= u64::MAX,
                self@.removes == start.removes,
                self@.adds == raised_all::<T::V, (u64, String)>(start.adds, ws.take(i as int)),
                advanced(
                    start.clock,
                    self@.clock,
                    node_id@,
                    raises_taken::<T::V, (u64, String)>(start.adds, ws.take(i as int)),
                ),
            decreases n - i,
        {
            let ghost before = self@;
            proof {
                assert(ws.take(i + 1).drop_last() =~= ws.take(i as int));
                assert(ws[i as int] == (items@[i as int].deep_view(), (timestamp, node_id@)));
                lemma_raises_bounded::<T::V, (u64, String)>(start.adds, ws.take(i as int));
            }
            self.insert(node_id, items[i].duplicate(), timestamp);
            proof {
                if rises::<T::V, (u64, String)>(before.adds, ws[i as int].0, ws[i as int].1) {
                    lemma_advanced_tick(
                        start.clock,
                        before.clock,
                        self@.clock,
                        node_id@,
                        raises_taken::<T::V, (u64, String)>(start.adds, ws.take(i as int)),
                    );
                }
            }
            i = i + 1;
        }
        proof {
            assert(ws.take(n as int) =~= ws);
        }
    }

    /// Offers a remove of each element of a list, one after another, all
    /// with the same tag. The clock ticks once for each remove that is taken.
    pub fn remove_all(&mut self, node_id: &str, items: &Vec<T>, timestamp: u64)
        requires
            old(self).wf(),
            counter_of(old(self)@.clock, node_id@) + items@.len() <= u64::MAX,
        ensures
            final(self).wf(),
            final(self)@.adds == old(self)@.adds,
            final(self)@.removes == raised_all::<T::V, (u64, String)>(
                old(self)@.removes,
                tagged(items.deep_view(), (timestamp, node_id@)),
            ),
            advanced(
                old(self)@.clock,
                final(self)@.clock,
                node_id@,
                raises_taken::<T::V, (u64, String)>(
                    old(self)@.removes,
                    tagged(items.deep_view(), (timestamp, node_id@)),
                ),
            ),
    {
        let ghost start = self@;
        let ghost ws = tagged(items.deep_view(), (timestamp, node_id@));
        let n = items.len();
        let mut i: usize = 0;
        proof {
            assert(ws.take(0) =~= Seq::<(T::V, TagView)>::empty());
        }
        while i < n
            invariant
                i <= n,
                n == items@.len(),
                ws == tagged(items.deep_view(), (timestamp, node_id@)),
                self.wf(),
                counter_of(start.clock, node_id@) + n <= u64::MAX,
                self@.adds == start.adds,
                self@.removes == raised_all::<T::V, (u64, String)>(
                    start.removes,
                    ws.take(i as int),
                ),
                advanced(
                    start.clock,
                    self@.clock,
                    node_id@,
                    raises_taken::<T::V, (u64, String)>(start.removes, ws.take(i as int)),
                ),
            decreases n - i,
        {
            let ghost before = self@;
            proof {
                assert(ws.take(i + 1).drop_last() =~= ws.take(i as int));
                assert(ws[i as int] == (items@[i as int].deep_view(), (timestamp, node_id@)));
                lemma_raises_bounded::<T::V, (u64, String)>(start.removes, ws.take(i as int));
            }
            self.remove(node_id, items[i].duplicate(), timestamp);
            proof {
                if rises::<T::V, (u64, String)>(before.removes, ws[i as int].0, ws[i as int].1) {
                    lemma_advanced_tick(
                        start.clock,
                        before.clock,
                        self@.clock,
                        node_id@,
                        raises_taken::<T::V, (u64, String)>(start.removes, ws.take(i as int)),
                    );
                }
            }
            i = i + 1;
        }
        proof {
            assert(ws.take(n as int) =~= ws);
        }
    }

    /// Whether the set holds an element: its latest add ranks strictly above
    /// its latest remove, or it was never removed.
    pub fn contains(&self, element: &T) -> (r: bool)
        requires
            self.wf(),
        ensures
            r == present(self@, element.deep_view()),
    {
        match self.add_set.get(element) {
            Some(added) => match self.remove_set.get(element) {
                Some(removed) => removed.less(added),
                None => true,
            },
            None => false,
        }
    }

    /// The elements of the set, each once, in ascending order.
    pub fn iter(&self) -> (r: Vec<T>)
        requires
            self.wf(),
        ensures
            ascends::<T>(r.deep_view()),
            r.deep_view().no_duplicates(),
            r.deep_view().to_set() == members(self@),
    {
        let test = Present { removes: &self.remove_set };
        let live = self.add_set.filter(&test);
        proof {
            assert(live@.dom() =~= members(self@));
        }
        live.keys()
    }

    /// Whether no element was ever added.
    pub fn is_empty(&self) -> (r: bool)
        requires
            self.wf(),
        ensures
            r == (self@.adds == Map::<T::V, TagView>::empty()),
    {
        self.add_set.is_empty()
    }

    /// Merges another set into this one: for each element the
    /// higher-ranking add and the higher-ranking remove stay.
    pub fn merge(&mut self, other: &Self)
        requires
            old(self).wf(),
            other.wf(),
        ensures
            final(self).wf(),
            final(self)@ == merged_lww_set(old(self)@, other@),
    {
        self.add_set.join::<Greatest>(&other.add_set);
        self.remove_set.join::<Greatest>(&other.remove_set);
        self.vclock.merge(&other.vclock);
    }

    /// Reading an encoded set back gives its state, whatever follows it.
    pub proof fn lemma_parse_encoding(&self, rest: Seq<u8>)
        requires
            self.wf(),
            self.encodable(),
        ensures
            Self::parse_prefix(self.encoding() + rest) == Some(
                (self@, self.encoding().len() as int),
            ),
    {
        let first = self.add_set.encoding();
        let second = self.remove_set.encoding();
        let third = self.vclock.clocks.encoding();
        let whole = self.encoding() + rest;
        assert(whole =~= first + (second + (third + rest)));
        self.add_set.lemma_parse_encoding(second + (third + rest));
        assert(whole.skip(first.len() as int) =~= second + (third + rest));
        self.remove_set.lemma_parse_encoding(third + rest);
        assert(whole.skip((first.len() + second.len()) as int) =~= third + rest);
        self.vclock.lemma_parse_encoding(rest);
    }

    /// Reads the set that a buffer holds from its first byte to its last.
    pub fn from_bytes(bytes: &[u8]) -> (r: Result<Self, CrdtError>)
        ensures
            match Self::parse(bytes@) {
                Some(s) => r matches Ok(x) && x.wf() && x@ == s,
                None => r matches Err(e) && e is Deserialization,
            },
    {
        proof {
            assert(bytes@.skip(0) =~= bytes@);
        }
        let (add_set, first) = match OrderedMap::<T, (u64, String)>::decode(bytes, 0) {
            Some(part) => part,
            None => { return Err(malformed("no adds in the buffer")); },
        };
        let (remove_set, second) = match OrderedMap::<T, (u64, String)>::decode(bytes, first) {
            Some(part) => part,
            None => { return Err(malformed("no removes in the buffer")); },
        };
        match VectorClock::decode_from(bytes, second) {
            Some((vclock, end)) => {
                if end == bytes.len() {
                    Ok(LWWSet { add_set, remove_set, vclock })
                } else {
                    Err(malformed("bytes left over after the set"))
                }
            },
            None => Err(malformed("no vector clock after the set's tags")),
        }
    }
}

/// A reader over an encoded last-write-wins set.
pub struct LWWSetReader<'a, T> {
    bytes: &'a [u8],
    _phantom: PhantomData<T>,
}

impl<'a, T: Element> LWWSetReader<'a, T> {
    /// The bytes that the reader borrows.
    pub closed spec fn bytes(&self) -> Seq<u8> {
        self.bytes@
    }

    /// A reader over `bytes`.
    pub fn new(bytes: &'a [u8]) -> (r: Self)
        ensures
            r.bytes() == bytes@,
    {
        LWWSetReader { bytes, _phantom: PhantomData }
    }

    /// The set that the buffer holds.
    pub fn to_set(&self) -> (r: Result<LWWSet<T>, CrdtError>)
        ensures
            match LWWSet::<T>::parse(self.bytes()) {
                Some(s) => r matches Ok(x) && x.wf() && x@ == s,
                None => r matches Err(e) && e is Deserialization,
            },
    {
        LWWSet::from_bytes(self.bytes)
    }
}

impl<'a, T: Element> CrdtReader for LWWSetReader<'a, T> {
    open spec fn bytes(&self) -> Seq<u8> {
        LWWSetReader::bytes(self)
    }

    open spec fn readable(&self) -> bool {
        LWWSet::<T>::parse(self.bytes()) is Some
    }

    open spec fn holds_nothing(&self) -> bool {
        match LWWSet::<T>::parse(self.bytes()) {
            Some(s) => s.adds == Map::<T::V, TagView>::empty(),
            None => false,
        }
    }

    fn buffer(&self) -> (b: &[u8]) {
        self.bytes
    }

    fn is_empty(&self) -> (r: Result<bool, CrdtError>) {
        buffer_is_empty::<LWWSet<T>>(self.bytes)
    }
}

impl<T: Element> Replica for LWWSet<T> {
    type State = LWWSetState<T::V>;

    open spec fn wf(&self) -> bool {
        LWWSet::wf(self)
    }

    open spec fn state(&self) -> LWWSetState<T::V> {
        self@
    }

    open spec fn is_initial(s: LWWSetState<T::V>) -> bool {
        s.adds == Map::<T::V, TagView>::empty() && s.removes == Map::<T::V, TagView>::empty()
            && s.clock == ClockView::empty()
    }

    open spec fn blank(s: LWWSetState<T::V>) -> bool {
        s.adds == Map::<T::V, TagView>::empty()
    }

    open spec fn merged(a: LWWSetState<T::V>, b: LWWSetState<T::V>) -> LWWSetState<T::V> {
        merged_lww_set(a, b)
    }

    open spec fn encodable(&self) -> bool {
        LWWSet::encodable(self)
    }

    open spec fn encoding(&self) -> Seq<u8> {
        LWWSet::encoding(self)
    }

    open spec fn parse(bytes: Seq<u8>) -> Option<LWWSetState<T::V>> {
        LWWSet::<T>::parse(bytes)
    }

    proof fn lemma_merge_idempotent(a: Self) {
        lemma_greatest_idempotent::<T::V, (u64, String)>(a@.adds);
        lemma_greatest_idempotent::<T::V, (u64, String)>(a@.removes);
        lemma_merged_clock_idempotent(a@.clock);
    }

    proof fn lemma_merge_commutative(a: Self, b: Self) {
        lemma_greatest_commutative::<T::V, (u64, String)>(a@.adds, b@.adds);
        lemma_greatest_commutative::<T::V, (u64, String)>(a@.removes, b@.removes);
        lemma_merged_clock_commutative(a@.clock, b@.clock);
    }

    proof fn lemma_merge_associative(a: Self, b: Self, c: Self) {
        lemma_greatest_associative::<T::V, (u64, String)>(a@.adds, b@.adds, c@.adds);
        lemma_greatest_associative::<T::V, (u64, String)>(a@.removes, b@.removes, c@.removes);
        lemma_merged_clock_associative(a@.clock, b@.clock, c@.clock);
    }

    proof fn lemma_round_trip(a: Self) {
        let none = Seq::<u8>::empty();
        a.lemma_parse_encoding(none);
        assert(LWWSet::encoding(&a) + none =~= LWWSet::encoding(&a));
    }

    fn fresh() -> (r: Self) {
        LWWSet::new()
    }

    fn merge(&mut self, other: &Self) {
        LWWSet::merge(self, other)
    }

    fn from_bytes(bytes: &[u8]) -> (r: Result<Self, CrdtError>) {
        LWWSet::from_bytes(bytes)
    }

    fn validate(&self) -> (r: Result<(), CrdtError>) {
        if !self.add_set.check() {
            Err(invalid("added elements out of order"))
        } else if !self.remove_set.check() {
            Err(invalid("removed elements out of order"))
        } else if !self.vclock.clocks.check() {
            Err(invalid("vector clock nodes out of order"))
        } else {
            Ok(())
        }
    }

    fn is_empty(&self) -> (r: bool) {
        LWWSet::is_empty(self)
    }

    fn to_capnp_bytes(&self) -> (r: Vec<u8>) {
        let mut out: Vec<u8> = Vec::new();
        self.add_set.encode(&mut out);
        self.remove_set.encode(&mut out);
        self.vclock.encode_into(&mut out);
        proof {
            Self::lemma_round_trip(*self);
            assert(Seq::<u8>::empty() + self.add_set.encoding() + self.remove_set.encoding()
                + self.vclock.clocks.encoding() =~= LWWSet::encoding(self));
        }
        out
    }
}

impl<T: Element + 'static> Crdt for LWWSet<T> {
    type Reader<'a> = LWWSetReader<'a, T>;

    fn merge_from_readers(readers: &[LWWSetReader<'_, T>]) -> (r: Result<Self, CrdtError>) {
        merge_buffers::<LWWSet<T>, LWWSetReader<'_, T>>(readers)
    }
}

} // verus!
