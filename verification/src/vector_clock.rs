//! The hybrid vector clock: for each node a logical counter and the wall-clock
//! second of its last tick. It orders states causally and tells how long a
//! state has been quiet.

use crate::ordered_map::{
    as_map, joined, lemma_entry_of, lemma_lookup, Combine, OrderedMap,
};
use crate::time::{cutoff_seconds, unix_seconds};
use crate::traits::{
    buffer_is_empty, invalid, malformed, merge_buffers, Crdt, CrdtError, CrdtReader, Replica,
};
use std::time::Duration;
use vstd::prelude::*;
use vstd::string::*;

verus! {

/// What a clock stands for: each tracked node's counter and timestamp.
pub type ClockView = Map<Seq<char>, (u64, u64)>;

/// A node's counter, 0 for a node that the clock does not track.
pub open spec fn counter_of(c: ClockView, node: Seq<char>) -> u64 {
    if c.contains_key(node) {
        c[node].0
    } else {
        0
    }
}

/// Whether the clock has seen the event `(node, counter)`.
pub open spec fn covers(c: ClockView, node: Seq<char>, counter: u64) -> bool {
    counter <= counter_of(c, node)
}

/// The larger of two numbers.
pub open spec fn larger(a: u64, b: u64) -> u64 {
    if a >= b {
        a
    } else {
        b
    }
}

/// The larger of two numbers.
pub fn max_u64(a: u64, b: u64) -> (m: u64)
    ensures
        m == larger(a, b),
{
    if a >= b {
        a
    } else {
        b
    }
}

/// Two entries of one node become one by taking the larger counter and the
/// larger timestamp.
pub struct LaterTick;

impl Combine<(u64, u64)> for LaterTick {
    open spec fn joinable(a: (u64, u64), b: (u64, u64)) -> bool {
        true
    }

    open spec fn join(a: (u64, u64), b: (u64, u64)) -> (u64, u64) {
        (larger(a.0, b.0), larger(a.1, b.1))
    }

    fn combine(a: &(u64, u64), b: &(u64, u64)) -> (r: (u64, u64)) {
        (max_u64(a.0, b.0), max_u64(a.1, b.1))
    }
}

/// The merge of two clocks: node by node the larger counter and the larger
/// timestamp.
pub open spec fn merged_clock(a: ClockView, b: ClockView) -> ClockView {
    joined::<Seq<char>, (u64, u64), LaterTick>(a, b)
}

/// Whether `after` is `before` with one tick of `node`: its counter one
/// higher, its timestamp whatever the wall clock showed.
pub open spec fn ticked(before: ClockView, after: ClockView, node: Seq<char>) -> bool {
    exists|t: u64|
        after == #[trigger] before.insert(node, ((counter_of(before, node) + 1) as u64, t))
}

/// Whether `after` is `before` with `k` ticks of `node` and nothing else.
pub open spec fn advanced(before: ClockView, after: ClockView, node: Seq<char>, k: nat) -> bool {
    if k == 0 {
        after == before
    } else {
        &&& after.contains_key(node)
        &&& after[node].0 == counter_of(before, node) + k
        &&& after.remove(node) == before.remove(node)
    }
}

/// One more tick advances a clock by one more.
pub proof fn lemma_advanced_tick(a: ClockView, b: ClockView, c: ClockView, node: Seq<char>, k: nat)
    requires
        advanced(a, b, node, k),
        ticked(b, c, node),
        counter_of(b, node) < u64::MAX,
    ensures
        advanced(a, c, node, k + 1),
{
    assert(c.remove(node) =~= b.remove(node));
    if k == 0 {
        assert(c.remove(node) =~= a.remove(node));
    }
}

/// Ticks after ticks advance a clock by their sum.
pub proof fn lemma_advanced_twice(
    a: ClockView,
    b: ClockView,
    c: ClockView,
    node: Seq<char>,
    j: nat,
    k: nat,
)
    requires
        advanced(a, b, node, j),
        advanced(b, c, node, k),
    ensures
        advanced(a, c, node, j + k),
{
}

/// Whether `a` lags behind `b` at a node.
pub open spec fn lags(a: ClockView, b: ClockView, node: Seq<char>) -> bool {
    counter_of(a, node) < counter_of(b, node)
}

/// Whether `a` causally precedes `b`: no counter of `a` is ahead of `b`'s,
/// and at least one is behind.
pub open spec fn precedes(a: ClockView, b: ClockView) -> bool {
    (forall|n: Seq<char>| !#[trigger] lags(b, a, n)) && (exists|n: Seq<char>| #[trigger]
        lags(a, b, n))
}

/// Whether every tracked timestamp lies before `cutoff`, and there is one.
pub open spec fn stable_before(c: ClockView, cutoff: u64) -> bool {
    c.dom() != Set::<Seq<char>>::empty() && forall|n: Seq<char>|
        c.contains_key(n) ==> (#[trigger] c[n]).1 < cutoff
}

/// Merging a clock with itself changes nothing.
pub proof fn lemma_merged_clock_idempotent(a: ClockView)
    ensures
        merged_clock(a, a) == a,
{
    assert(merged_clock(a, a) =~= a);
}

/// Merging two clocks gives the same either way round.
pub proof fn lemma_merged_clock_commutative(a: ClockView, b: ClockView)
    ensures
        merged_clock(a, b) == merged_clock(b, a),
{
    assert(merged_clock(a, b) =~= merged_clock(b, a));
}

/// Merging three clocks gives the same however they are grouped.
pub proof fn lemma_merged_clock_associative(a: ClockView, b: ClockView, c: ClockView)
    ensures
        merged_clock(merged_clock(a, b), c) == merged_clock(a, merged_clock(b, c)),
{
    assert(merged_clock(merged_clock(a, b), c) =~= merged_clock(a, merged_clock(b, c)));
}

/// The counter of a node after a merge is the larger of the two.
pub proof fn lemma_merged_clock_counter(a: ClockView, b: ClockView, node: Seq<char>)
    ensures
        counter_of(merged_clock(a, b), node) == larger(counter_of(a, node), counter_of(b, node)),
{
}

/// No counter goes back in a merge.
pub proof fn lemma_merged_clock_grows(a: ClockView, b: ClockView, node: Seq<char>)
    ensures
        counter_of(merged_clock(a, b), node) >= counter_of(a, node),
        counter_of(merged_clock(a, b), node) >= counter_of(b, node),
{
}

/// No counter goes back in a tick, and the ticking node's goes forward.
pub proof fn lemma_ticked_grows(before: ClockView, after: ClockView, node: Seq<char>, m: Seq<char>)
    requires
        ticked(before, after, node),
        counter_of(before, node) < u64::MAX,
    ensures
        counter_of(after, m) >= counter_of(before, m),
        counter_of(after, node) == counter_of(before, node) + 1,
{
}

/// A hybrid vector clock.
#[derive(Debug, Clone, PartialEq, Eq, Hash)]
pub struct VectorClock {
    /// Node identifier to logical counter and epoch seconds.
    pub clocks: OrderedMap<String, (u64, u64)>,
}

impl Default for VectorClock {
    fn default() -> (r: Self)
        ensures
            r.wf(),
            r@ == ClockView::empty(),
    {
        VectorClock::new()
    }
}

impl VectorClock {
    /// The invariant of the representation.
    pub open spec fn wf(&self) -> bool {
        self.clocks.wf()
    }

    /// What the clock stands for.
    pub open spec fn view(&self) -> ClockView {
        self.clocks@
    }

    /// Whether the clock can be encoded.
    pub open spec fn encodable(&self) -> bool {
        self.clocks.encodable()
    }

    /// The clock that a buffer starts with, and the bytes it takes.
    pub open spec fn parse_prefix(s: Seq<u8>) -> Option<(ClockView, int)> {
        match OrderedMap::<String, (u64, u64)>::parse(s) {
            Some((es, n)) => Some((as_map(es), n)),
            None => None,
        }
    }

    /// The clock that a buffer holds from its first byte to its last.
    pub open spec fn parse(s: Seq<u8>) -> Option<ClockView> {
        match Self::parse_prefix(s) {
            Some((c, n)) => if n == s.len() {
                Some(c)
            } else {
                None
            },
            None => None,
        }
    }

    /// Reading an encoded clock back gives the clock, whatever follows it.
    pub proof fn lemma_parse_encoding(&self, rest: Seq<u8>)
        requires
            self.wf(),
            self.encodable(),
        ensures
            Self::parse_prefix(self.clocks.encoding() + rest) == Some(
                (self@, self.clocks.encoding().len() as int),
            ),
    {
        self.clocks.lemma_parse_encoding(rest);
    }

    /// A clock that tracks no node.
    pub fn new() -> (r: Self)
        ensures
            r.wf(),
            r@ == ClockView::empty(),
    {
        VectorClock { clocks: OrderedMap::new() }
    }

    /// The counter of a node, 0 for a node that the clock does not track.
    pub fn counter(&self, node_id: &str) -> (r: u64)
        requires
            self.wf(),
        ensures
            r == counter_of(self@, node_id@),
    {
        let key = node_id.to_owned();
        match self.clocks.get(&key) {
            Some(entry) => entry.0,
            None => 0,
        }
    }

    /// Whether a node can tick `ticks` times more.
    pub fn has_room(&self, node_id: &str, ticks: usize) -> (r: bool)
        requires
            self.wf(),
        ensures
            r == (counter_of(self@, node_id@) + ticks <= u64::MAX),
    {
        ticks as u64 <= u64::MAX - self.counter(node_id)
    }

    /// Advances the counter of a node by one and sets its timestamp to
    /// `now`. It returns the node's new entry.
    pub fn increment_at(&mut self, node_id: &str, now: u64) -> (r: (u64, u64))
        requires
            old(self).wf(),
            counter_of(old(self)@, node_id@) < u64::MAX,
        ensures
            final(self).wf(),
            r == ((counter_of(old(self)@, node_id@) + 1) as u64, now),
            final(self)@ == old(self)@.insert(node_id@, r),
    {
        let ticked = self.counter(node_id) + 1;
        self.clocks.insert(node_id.to_owned(), (ticked, now));
        (ticked, now)
    }

    /// Advances the counter of a node by one and sets its timestamp to the
    /// present second. It returns the node's new entry.
    pub fn increment(&mut self, node_id: &str) -> (r: (u64, u64))
        requires
            old(self).wf(),
            counter_of(old(self)@, node_id@) < u64::MAX,
        ensures
            final(self).wf(),
            r.0 == counter_of(old(self)@, node_id@) + 1,
            final(self)@ == old(self)@.insert(node_id@, r),
            ticked(old(self)@, final(self)@, node_id@),
    {
        let now = unix_seconds();
        self.increment_at(node_id, now)
    }

    /// Merges another clock into this one: node by node the larger counter
    /// and the larger timestamp.
    pub fn merge(&mut self, other: &Self)
        requires
            old(self).wf(),
            other.wf(),
        ensures
            final(self).wf(),
            final(self)@ == merged_clock(old(self)@, other@),
    {
        self.clocks.join::<LaterTick>(&other.clocks);
    }

    /// Whether this clock causally precedes `other`.
    pub fn happens_before(&self, other: &VectorClock) -> (r: bool)
        requires
            self.wf(),
            other.wf(),
        ensures
            r == precedes(self@, other@),
    {
        let ghost a = self@;
        let ghost b = other@;
        let ghost es = self.clocks.entries();
        let ghost os = other.clocks.entries();
        let n = self.clocks.len();
        let mut i: usize = 0;
        while i < n
            invariant
                i <= n,
                n == es.len(),
                es == self.clocks.entries(),
                a == self@,
                b == other@,
                self.wf(),
                other.wf(),
                forall|j: int| 0 <= j < i ==> !lags(b, a, #[trigger] es[j].0),
            decreases n - i,
        {
            let node = self.clocks.key_at(i);
            let mine = self.clocks.value_at(i).0;
            proof {
                lemma_lookup::<String, (u64, u64)>(es, i as int);
            }
            let theirs = match other.clocks.get(node) {
                Some(entry) => entry.0,
                None => 0,
            };
            if mine > theirs {
                proof {
                    assert(lags(b, a, es[i as int].0));
                }
                return false;
            }
            i = i + 1;
        }
        proof {
            assert forall|x: Seq<char>| !#[trigger] lags(b, a, x) by {
                if a.contains_key(x) {
                    let j = lemma_entry_of::<String, (u64, u64)>(es, x);
                    assert(!lags(b, a, es[j].0));
                }
            }
        }
        let m = other.clocks.len();
        let mut behind = false;
        let mut k: usize = 0;
        while k < m
            invariant
                k <= m,
                m == os.len(),
                os == other.clocks.entries(),
                a == self@,
                b == other@,
                self.wf(),
                other.wf(),
                behind == exists|j: int| 0 <= j < k && lags(a, b, #[trigger] os[j].0),
            decreases m - k,
        {
            let node = other.clocks.key_at(k);
            let theirs = other.clocks.value_at(k).0;
            proof {
                lemma_lookup::<String, (u64, u64)>(os, k as int);
            }
            let mine = match self.clocks.get(node) {
                Some(entry) => entry.0,
                None => 0,
            };
            if mine < theirs {
                behind = true;
            }
            proof {
                if lags(a, b, os[k as int].0) {
                    assert(behind);
                } else if behind {
                    let j = choose|j: int| 0 <= j < k && lags(a, b, #[trigger] os[j].0);
                    assert(0 <= j < k + 1 && lags(a, b, os[j].0));
                }
            }
            k = k + 1;
        }
        proof {
            if behind {
                let j = choose|j: int| 0 <= j < m && lags(a, b, #[trigger] os[j].0);
                assert(lags(a, b, os[j].0));
            }
            if exists|x: Seq<char>| #[trigger] lags(a, b, x) {
                let x = choose|x: Seq<char>| #[trigger] lags(a, b, x);
                let j = lemma_entry_of::<String, (u64, u64)>(os, x);
                assert(lags(a, b, os[j].0));
            }
        }
        behind
    }

    /// Whether the clock tracks a node and every tracked timestamp lies
    /// before `cutoff`.
    pub fn is_stable_at(&self, cutoff: u64) -> (r: bool)
        requires
            self.wf(),
        ensures
            r == stable_before(self@, cutoff),
    {
        let ghost es = self.clocks.entries();
        let n = self.clocks.len();
        if n == 0 {
            proof {
                assert(self@.dom() =~= Set::<Seq<char>>::empty());
            }
            return false;
        }
        proof {
            lemma_lookup::<String, (u64, u64)>(es, 0);
            assert(self@.dom().contains(es[0].0));
        }
        let mut i: usize = 0;
        while i < n
            invariant
                i <= n,
                n == es.len(),
                es == self.clocks.entries(),
                self.wf(),
                forall|j: int| 0 <= j < i ==> (#[trigger] es[j]).1.1 < cutoff,
            decreases n - i,
        {
            if self.clocks.value_at(i).1 >= cutoff {
                proof {
                    lemma_lookup::<String, (u64, u64)>(es, i as int);
                    assert(self@[es[i as int].0].1 >= cutoff);
                }
                return false;
            }
            i = i + 1;
        }
        proof {
            assert forall|x: Seq<char>| self@.contains_key(x) implies (#[trigger] self@[x]).1
                < cutoff by {
                let j = lemma_entry_of::<String, (u64, u64)>(es, x);
                assert(es[j].1.1 < cutoff);
            }
        }
        true
    }

    /// Whether the clock tracks a node and no tracked node has ticked within
    /// the last `duration`. The wall clock decides what "now" is, so the
    /// answer is stated for whatever second it gave.
    pub fn is_stable_for(&self, duration: Duration) -> (r: bool)
        requires
            self.wf(),
        ensures
            exists|cutoff: u64| r == #[trigger] stable_before(self@, cutoff),
            self@.dom() == Set::<Seq<char>>::empty() ==> !r,
    {
        let cutoff = cutoff_seconds(duration);
        let r = self.is_stable_at(cutoff);
        proof {
            assert(r == stable_before(self@, cutoff));
        }
        r
    }

    /// Merges the clock that a reader holds into this one. A buffer that
    /// cannot be read leaves the clock as it was.
    pub fn merge_reader(&mut self, reader: &VectorClockReader) -> (r: Result<(), CrdtError>)
        requires
            old(self).wf(),
        ensures
            final(self).wf(),
            match VectorClock::parse(reader.bytes()) {
                Some(c) => r is Ok && final(self)@ == merged_clock(old(self)@, c),
                None => r matches Err(e) && e is Deserialization && final(self)@ == old(self)@,
            },
    {
        match reader.to_vclock() {
            Ok(other) => {
                VectorClock::merge(self, &other);
                Ok(())
            },
            Err(e) => Err(e),
        }
    }

    /// Appends the clock's encoding to `out`.
    pub fn encode_into(&self, out: &mut Vec<u8>)
        ensures
            self.encodable(),
            final(out)@ == old(out)@ + self.clocks.encoding(),
    {
        self.clocks.encode(out);
    }

    /// Reads the clock that starts at `start`, and says where it ends.
    pub fn decode_from(bytes: &[u8], start: usize) -> (r: Option<(Self, usize)>)
        requires
            start <= bytes@.len(),
        ensures
            match Self::parse_prefix(bytes@.skip(start as int)) {
                Some((c, n)) => r matches Some((x, end)) && x.wf() && x@ == c && end == start + n
                    && start <= end <= bytes@.len(),
                None => r is None,
            },
    {
        match OrderedMap::<String, (u64, u64)>::decode(bytes, start) {
            Some((clocks, end)) => Some((VectorClock { clocks }, end)),
            None => None,
        }
    }

    /// Reads the clock that a buffer holds from its first byte to its last.
    pub fn from_bytes(bytes: &[u8]) -> (r: Result<Self, CrdtError>)
        ensures
            match Self::parse(bytes@) {
                Some(c) => r matches Ok(x) && x.wf() && x@ == c,
                None => r matches Err(e) && e is Deserialization,
            },
    {
        proof {
            assert(bytes@.skip(0) =~= bytes@);
        }
        match Self::decode_from(bytes, 0) {
            Some((clock, end)) => {
                if end == bytes.len() {
                    Ok(clock)
                } else {
                    Err(malformed("bytes left over after the vector clock"))
                }
            },
            None => Err(malformed("no vector clock in the buffer")),
        }
    }
}

/// A reader over an encoded clock.
pub struct VectorClockReader<'a> {
    bytes: &'a [u8],
}

impl<'a> VectorClockReader<'a> {
    /// The bytes that the reader borrows.
    pub closed spec fn bytes(&self) -> Seq<u8> {
        self.bytes@
    }

    /// A reader over `bytes`.
    pub fn new(bytes: &'a [u8]) -> (r: Self)
        ensures
            r.bytes() == bytes@,
    {
        VectorClockReader { bytes }
    }

    /// The clock that the buffer holds.
    pub fn to_vclock(&self) -> (r: Result<VectorClock, CrdtError>)
        ensures
            match VectorClock::parse(self.bytes()) {
                Some(c) => r matches Ok(x) && x.wf() && x@ == c,
                None => r matches Err(e) && e is Deserialization,
            },
    {
        VectorClock::from_bytes(self.bytes)
    }
}

impl<'a> CrdtReader for VectorClockReader<'a> {
    open spec fn bytes(&self) -> Seq<u8> {
        VectorClockReader::bytes(self)
    }

    open spec fn readable(&self) -> bool {
        VectorClock::parse(self.bytes()) is Some
    }

    open spec fn holds_nothing(&self) -> bool {
        VectorClock::parse(self.bytes()) == Some(ClockView::empty())
    }

    fn buffer(&self) -> (b: &[u8]) {
        self.bytes
    }

    fn is_empty(&self) -> (r: Result<bool, CrdtError>) {
        buffer_is_empty::<VectorClock>(self.bytes)
    }
}

impl Replica for VectorClock {
    type State = ClockView;

    open spec fn wf(&self) -> bool {
        self.clocks.wf()
    }

    open spec fn state(&self) -> ClockView {
        self@
    }

    open spec fn is_initial(s: ClockView) -> bool {
        s == ClockView::empty()
    }

    open spec fn blank(s: ClockView) -> bool {
        s == ClockView::empty()
    }

    open spec fn merged(a: ClockView, b: ClockView) -> ClockView {
        merged_clock(a, b)
    }

    open spec fn encodable(&self) -> bool {
        self.clocks.encodable()
    }

    open spec fn encoding(&self) -> Seq<u8> {
        self.clocks.encoding()
    }

    open spec fn parse(bytes: Seq<u8>) -> Option<ClockView> {
        VectorClock::parse(bytes)
    }

    proof fn lemma_merge_idempotent(a: Self) {
        lemma_merged_clock_idempotent(a@);
    }

    proof fn lemma_merge_commutative(a: Self, b: Self) {
        lemma_merged_clock_commutative(a@, b@);
    }

    proof fn lemma_merge_associative(a: Self, b: Self, c: Self) {
        lemma_merged_clock_associative(a@, b@, c@);
    }

    proof fn lemma_round_trip(a: Self) {
        let none = Seq::<u8>::empty();
        a.lemma_parse_encoding(none);
        assert(a.clocks.encoding() + none =~= a.clocks.encoding());
    }

    fn fresh() -> (r: Self) {
        VectorClock::new()
    }

    fn merge(&mut self, other: &Self) {
        VectorClock::merge(self, other)
    }

    fn from_bytes(bytes: &[u8]) -> (r: Result<Self, CrdtError>) {
        VectorClock::from_bytes(bytes)
    }


    fn validate(&self) -> (r: Result<(), CrdtError>) {
        if self.clocks.check() {
            Ok(())
        } else {
            Err(invalid("vector clock nodes out of order"))
        }
    }

    fn is_empty(&self) -> (r: bool) {
        self.clocks.is_empty()
    }

    fn to_capnp_bytes(&self) -> (r: Vec<u8>) {
        let mut out: Vec<u8> = Vec::new();
        self.encode_into(&mut out);
        proof {
            Self::lemma_round_trip(*self);
            assert(Seq::<u8>::empty() + self.clocks.encoding() =~= self.clocks.encoding());
        }
        out
    }
}

impl Crdt for VectorClock {
    type Reader<'a> = VectorClockReader<'a>;

    fn merge_from_readers(readers: &[VectorClockReader<'_>]) -> (r: Result<Self, CrdtError>) {
        merge_buffers::<VectorClock, VectorClockReader<'_>>(readers)
    }
}

} // verus!
