//! The grow-only counter: each node adds to its own count, the value is the
//! sum of the counts, and a merge keeps the larger count of each node.

use crate::maximum::{
    greatest_of, lemma_greatest_associative, lemma_greatest_commutative,
    lemma_greatest_idempotent, Greatest,
};
use crate::ordered_map::{
    all_joinable, as_map, joined, keys_ascend, lemma_entry_of, lemma_lookup, lemma_map_len,
    lemma_take_next, Combine, OrderedMap,
};
use crate::traits::{
    buffer_is_empty, invalid, malformed, merge_buffers, Crdt, CrdtError, CrdtReader, Replica,
};
use crate::vector_clock::{
    counter_of, lemma_merged_clock_associative, lemma_merged_clock_commutative,
    lemma_merged_clock_idempotent, merged_clock, ticked, ClockView, VectorClock,
};
use vstd::prelude::*;
use vstd::set::fold::{is_fun_commutative, lemma_fold_empty, lemma_fold_insert};
use vstd::string::*;

verus! {

/// What a grow-only counter stands for: the count of each node and the clock.
#[verifier::ext_equal]
pub struct GCounterState {
    pub counts: Map<Seq<char>, i64>,
    pub clock: ClockView,
}

/// A node's count, 0 for a node that has not counted.
pub open spec fn count_of(m: Map<Seq<char>, i64>, node: Seq<char>) -> i64 {
    if m.contains_key(node) {
        m[node]
    } else {
        0
    }
}

/// No count is negative.
pub open spec fn counts_nonnegative(es: Seq<(Seq<char>, i64)>) -> bool {
    forall|i: int| 0 <= i < es.len() ==> (#[trigger] es[i]).1 >= 0
}

/// The sum of the counts.
pub open spec fn sum_counts(es: Seq<(Seq<char>, i64)>) -> int
    decreases es.len(),
{
    if es.len() == 0 {
        0
    } else {
        sum_counts(es.drop_last()) + es.last().1
    }
}

/// The count of each node as a pair.
pub open spec fn count_pairs(m: Map<Seq<char>, i64>) -> Set<(Seq<char>, i64)> {
    Set::new(|p: (Seq<char>, i64)| m.contains_key(p.0) && m[p.0] == p.1)
}

/// Adding the count of a pair to a sum.
pub open spec fn adding() -> spec_fn(int, (Seq<char>, i64)) -> int {
    |sum: int, p: (Seq<char>, i64)| sum + p.1
}

/// The sum of the counts of all nodes.
pub open spec fn total_of(m: Map<Seq<char>, i64>) -> int {
    count_pairs(m).fold(0int, adding())
}

/// The merge of two counter states: node by node the larger count.
pub open spec fn merged_counter(a: GCounterState, b: GCounterState) -> GCounterState {
    GCounterState {
        counts: greatest_of::<Seq<char>, i64>(a.counts, b.counts),
        clock: merged_clock(a.clock, b.clock),
    }
}

/// Two counts of one node become their sum.
pub struct Sum;

impl Combine<i64> for Sum {
    open spec fn joinable(a: i64, b: i64) -> bool {
        i64::MIN <= a + b <= i64::MAX
    }

    open spec fn join(a: i64, b: i64) -> i64 {
        (a + b) as i64
    }

    fn combine(a: &i64, b: &i64) -> (r: i64) {
        *a + *b
    }
}

/// The sum of two counter states: node by node the sum of the counts; the
/// clocks merge.
pub open spec fn added_counter(a: GCounterState, b: GCounterState) -> GCounterState {
    GCounterState {
        counts: joined::<Seq<char>, i64, Sum>(a.counts, b.counts),
        clock: merged_clock(a.clock, b.clock),
    }
}

/// No count goes back in a merge.
pub proof fn lemma_merged_counter_grows(a: GCounterState, b: GCounterState, node: Seq<char>)
    requires
        a.counts.contains_key(node),
    ensures
        merged_counter(a, b).counts.contains_key(node),
        merged_counter(a, b).counts[node] >= a.counts[node],
{
}

/// The pairs of a finite map are finitely many.
pub proof fn lemma_count_pairs_finite(m: Map<Seq<char>, i64>)
    requires
        m.dom().finite(),
    ensures
        count_pairs(m).finite(),
{
    let f = |k: Seq<char>| (k, m[k]);
    m.dom().lemma_map_finite(f);
    assert(count_pairs(m) =~= m.dom().map(f)) by {
        assert forall|p: (Seq<char>, i64)| count_pairs(m).contains(p) implies m.dom().map(
            f,
        ).contains(p) by {
            assert(m.dom().contains(p.0) && f(p.0) == p);
        }
    }
}

/// No node counts to 0.
pub proof fn lemma_total_empty()
    ensures
        total_of(Map::empty()) == 0,
{
    assert(count_pairs(Map::empty()) =~= Set::empty());
    lemma_fold_empty::<(Seq<char>, i64), int>(0int, adding());
}

/// A new node adds its count to the total.
pub proof fn lemma_total_insert(m: Map<Seq<char>, i64>, node: Seq<char>, count: i64)
    requires
        m.dom().finite(),
        !m.contains_key(node),
    ensures
        total_of(m.insert(node, count)) == total_of(m) + count,
{
    lemma_count_pairs_finite(m);
    assert(count_pairs(m.insert(node, count)) =~= count_pairs(m).insert((node, count)));
    assert(is_fun_commutative(adding()));
    lemma_fold_insert(count_pairs(m), 0int, adding(), (node, count));
}

/// A changed count changes the total by as much.
pub proof fn lemma_total_update(m: Map<Seq<char>, i64>, node: Seq<char>, count: i64)
    requires
        m.dom().finite(),
        m.contains_key(node),
    ensures
        total_of(m.insert(node, count)) == total_of(m) - m[node] + count,
{
    let rest = m.remove(node);
    assert(rest.insert(node, m[node]) =~= m);
    assert(rest.insert(node, count) =~= m.insert(node, count));
    lemma_total_insert(rest, node, m[node]);
    lemma_total_insert(rest, node, count);
}

/// The total of a map is the sum of the counts of its entries.
pub proof fn lemma_total_entries(es: Seq<(Seq<char>, i64)>)
    requires
        keys_ascend::<String, i64>(es),
    ensures
        as_map(es).dom().finite(),
        total_of(as_map(es)) == sum_counts(es),
    decreases es.len(),
{
    lemma_map_len::<String, i64>(es);
    if es.len() == 0 {
        assert(as_map(es) =~= Map::<Seq<char>, i64>::empty());
        lemma_total_empty();
    } else {
        let n = es.len() - 1;
        lemma_take_next::<String, i64>(es, n);
        assert(es.take(n + 1) =~= es);
        assert(es.take(n) =~= es.drop_last());
        lemma_total_entries(es.drop_last());
        lemma_total_insert(as_map(es.drop_last()), es[n].0, es[n].1);
    }
}

/// Where no count is negative, the sum of the first entries is at most the
/// sum of all, and at least 0.
pub proof fn lemma_sum_prefix(es: Seq<(Seq<char>, i64)>, n: int)
    requires
        counts_nonnegative(es),
        0 <= n <= es.len(),
    ensures
        0 <= sum_counts(es.take(n)) <= sum_counts(es),
    decreases es.len() - n,
{
    if n == es.len() {
        assert(es.take(n) =~= es);
        lemma_sum_nonnegative(es);
    } else {
        assert(es.take(n + 1).drop_last() =~= es.take(n));
        assert(es.take(n + 1).last() == es[n]);
        lemma_sum_prefix(es, n + 1);
        lemma_sum_nonnegative(es.take(n));
    }
}

/// Where no count is negative, the sum is not negative.
pub proof fn lemma_sum_nonnegative(es: Seq<(Seq<char>, i64)>)
    requires
        counts_nonnegative(es),
    ensures
        0 <= sum_counts(es),
    decreases es.len(),
{
    if es.len() > 0 {
        assert(es.last() == es[es.len() - 1]);
        assert forall|i: int| 0 <= i < es.drop_last().len() implies (#[trigger] es.drop_last()[i]).1
            >= 0 by {
            assert(es.drop_last()[i] == es[i]);
        }
        lemma_sum_nonnegative(es.drop_last());
    }
}

/// A grow-only counter.
#[derive(Debug, Clone, PartialEq, Eq, Hash)]
pub struct GCounter {
    /// The count of each node.
    pub counters: OrderedMap<String, i64>,
    /// The clock of all that this replica has seen.
    pub vclock: VectorClock,
}

impl Default for GCounter {
    fn default() -> (r: Self)
        ensures
            r.wf(),
            r@.counts == Map::<Seq<char>, i64>::empty(),
            r@.clock == ClockView::empty(),
            r.total() == 0,
    {
        GCounter::new()
    }
}

/// Whether no count of the map is negative.
fn counts_checked(counters: &OrderedMap<String, i64>) -> (r: bool)
    ensures
        r == counts_nonnegative(counters.entries()),
{
    let ghost es = counters.entries();
    let n = counters.len();
    let mut i: usize = 0;
    while i < n
        invariant
            i <= n,
            n == es.len(),
            es == counters.entries(),
            forall|j: int| 0 <= j < i ==> (#[trigger] es[j]).1 >= 0,
        decreases n - i,
    {
        if *counters.value_at(i) < 0 {
            proof {
                assert(es[i as int].1 < 0);
            }
            return false;
        }
        i = i + 1;
    }
    true
}

impl GCounter {
    /// The invariant of the representation: nodes ascend and no count is
    /// negative.
    pub open spec fn wf(&self) -> bool {
        self.counters.wf() && self.vclock.wf() && counts_nonnegative(self.counters.entries())
    }

    /// What the counter stands for.
    pub open spec fn view(&self) -> GCounterState {
        GCounterState { counts: self.counters@, clock: self.vclock@ }
    }

    /// The sum of the counts of all nodes.
    pub open spec fn total(&self) -> int {
        total_of(self@.counts)
    }

    /// Whether the counter can be encoded.
    pub open spec fn encodable(&self) -> bool {
        self.counters.encodable() && self.vclock.encodable()
    }

    /// The counter on the wire: the counts, then the clock.
    pub open spec fn encoding(&self) -> Seq<u8> {
        self.counters.encoding() + self.vclock.clocks.encoding()
    }

    /// The state that a buffer starts with, and the bytes it takes.
    pub open spec fn parse_prefix(s: Seq<u8>) -> Option<(GCounterState, int)> {
        match OrderedMap::<String, i64>::parse(s) {
            Some((es, n)) => match VectorClock::parse_prefix(s.skip(n)) {
                Some((clock, m)) => if counts_nonnegative(es) {
                    Some((GCounterState { counts: as_map(es), clock }, n + m))
                } else {
                    None
                },
                None => None,
            },
            None => None,
        }
    }

    /// The state that a buffer holds from its first byte to its last.
    pub open spec fn parse(s: Seq<u8>) -> Option<GCounterState> {
        match Self::parse_prefix(s) {
            Some((state, n)) => if n == s.len() {
                Some(state)
            } else {
                None
            },
            None => None,
        }
    }

    /// A counter at 0.
    pub fn new() -> (r: Self)
        ensures
            r.wf(),
            r@.counts == Map::<Seq<char>, i64>::empty(),
            r@.clock == ClockView::empty(),
            r.total() == 0,
    {
        proof {
            lemma_total_empty();
        }
        GCounter { counters: OrderedMap::new(), vclock: VectorClock::new() }
    }

    /// The count of a node, 0 for a node that has not counted.
    pub fn count(&self, node_id: &str) -> (r: i64)
        requires
            self.wf(),
        ensures
            r == count_of(self@.counts, node_id@),
            r >= 0,
    {
        let key = node_id.to_owned();
        match self.counters.get(&key) {
            Some(c) => {
                proof {
                    let j = lemma_entry_of::<String, i64>(self.counters.entries(), node_id@);
                    assert(self.counters.entries()[j].1 >= 0);
                }
                *c
            },
            None => 0,
        }
    }

    /// Adds `delta` to the count of a node. A negative `delta` changes
    /// nothing: the counter only grows.
    pub fn increment(&mut self, node_id: &str, delta: i64)
        requires
            old(self).wf(),
            delta >= 0 ==> counter_of(old(self)@.clock, node_id@) < u64::MAX,
            delta >= 0 ==> count_of(old(self)@.counts, node_id@) + delta <= i64::MAX,
        ensures
            final(self).wf(),
            delta < 0 ==> final(self)@ == old(self)@ && final(self).total() == old(self).total(),
            delta >= 0 ==> final(self)@.counts == old(self)@.counts.insert(
                node_id@,
                (count_of(old(self)@.counts, node_id@) + delta) as i64,
            ),
            delta >= 0 ==> ticked(old(self)@.clock, final(self)@.clock, node_id@),
            delta >= 0 ==> final(self).total() == old(self).total() + delta,
    {
        if delta < 0 {
            return ;
        }
        let ghost before = self@.counts;
        let current = self.count(node_id);
        proof {
            self.counters.lemma_len();
            if before.contains_key(node_id@) {
                lemma_total_update(before, node_id@, (current + delta) as i64);
            } else {
                lemma_total_insert(before, node_id@, (current + delta) as i64);
            }
        }
        self.counters.insert(node_id.to_owned(), current + delta);
        proof {
            let es = self.counters.entries();
            let was = old(self).counters.entries();
            assert forall|i: int| 0 <= i < es.len() implies (#[trigger] es[i]).1 >= 0 by {
                lemma_lookup::<String, i64>(es, i);
                if es[i].0 != node_id@ {
                    let j = lemma_entry_of::<String, i64>(was, es[i].0);
                    assert(was[j].1 >= 0);
                }
            }
        }
        self.vclock.increment(node_id);
    }

    /// Whether `delta` can be added for a node without leaving the range
    /// of the counts and of the clock. A negative `delta` always can: it
    /// changes nothing.
    pub open spec fn has_room(&self, node: Seq<char>, delta: int) -> bool {
        delta >= 0 ==> counter_of(self@.clock, node) < u64::MAX && count_of(self@.counts, node)
            + delta <= i64::MAX
    }

    /// Adds `delta` to the count of a node if there is room for it, and
    /// reports it if there is not.
    pub fn try_increment(&mut self, node_id: &str, delta: i64) -> (r: Result<(), CrdtError>)
        requires
            old(self).wf(),
        ensures
            final(self).wf(),
            r is Ok <==> old(self).has_room(node_id@, delta as int),
            r matches Err(e) ==> e is InvalidInput && *final(self) == *old(self),
            r is Ok && delta < 0 ==> final(self)@ == old(self)@,
            r is Ok && delta < 0 ==> final(self).total() == old(self).total(),
            r is Ok && delta >= 0 ==> final(self)@.counts == old(self)@.counts.insert(
                node_id@,
                (count_of(old(self)@.counts, node_id@) + delta) as i64,
            ),
            r is Ok && delta >= 0 ==> ticked(old(self)@.clock, final(self)@.clock, node_id@),
            r is Ok && delta >= 0 ==> final(self).total() == old(self).total() + delta,
    {
        if delta >= 0 {
            if !self.vclock.has_room(node_id, 1) || delta > i64::MAX - self.count(node_id) {
                return Err(
                    CrdtError::InvalidInput(String::from_str("no room left to count in")),
                );
            }
        }
        self.increment(node_id, delta);
        Ok(())
    }

    /// The value of the counter: the sum of the counts of all nodes.
    pub fn value(&self) -> (r: i64)
        requires
            self.wf(),
            self.total() <= i64::MAX,
        ensures
            r == self.total(),
            r >= 0,
    {
        let ghost es = self.counters.entries();
        let n = self.counters.len();
        let mut sum: i64 = 0;
        let mut i: usize = 0;
        proof {
            assert(es.take(0) =~= Seq::<(Seq<char>, i64)>::empty());
            lemma_total_entries(es);
        }
        while i < n
            invariant
                i <= n,
                n == es.len(),
                es == self.counters.entries(),
                counts_nonnegative(es),
                sum_counts(es) <= i64::MAX,
                sum == sum_counts(es.take(i as int)),
                sum >= 0,
            decreases n - i,
        {
            proof {
                assert(es.take(i + 1).drop_last() =~= es.take(i as int));
                assert(es.take(i + 1).last() == es[i as int]);
                lemma_sum_prefix(es, i + 1);
            }
            sum = sum + *self.counters.value_at(i);
            i = i + 1;
        }
        proof {
            assert(es.take(n as int) =~= es);
            lemma_total_entries(es);
        }
        sum
    }

    /// Whether no node has counted.
    pub fn is_empty(&self) -> (r: bool)
        requires
            self.wf(),
        ensures
            r == (self@.counts == Map::<Seq<char>, i64>::empty()),
    {
        self.counters.is_empty()
    }

    /// Merges another counter into this one: node by node the larger count.
    pub fn merge(&mut self, other: &Self)
        requires
            old(self).wf(),
            other.wf(),
        ensures
            final(self).wf(),
            final(self)@ == merged_counter(old(self)@, other@),
    {
        let ghost mine = self.counters.entries();
        self.counters.join::<Greatest>(&other.counters);
        self.vclock.merge(&other.vclock);
        proof {
            let es = self.counters.entries();
            assert forall|i: int| 0 <= i < es.len() implies (#[trigger] es[i]).1 >= 0 by {
                lemma_lookup::<String, i64>(es, i);
                let k = es[i].0;
                if old(self)@.counts.contains_key(k) {
                    let j = lemma_entry_of::<String, i64>(mine, k);
                    assert(mine[j].1 >= 0);
                }
                if other@.counts.contains_key(k) {
                    let j = lemma_entry_of::<String, i64>(other.counters.entries(), k);
                    assert(other.counters.entries()[j].1 >= 0);
                }
            }
        }
    }

    /// Whether the counts of `other` can be added to this counter's without
    /// leaving their range.
    pub open spec fn can_add(&self, other: &Self) -> bool {
        all_joinable::<Seq<char>, i64, Sum>(self@.counts, other@.counts)
    }

    /// Whether the counts of `other` can be added to this counter's without
    /// leaving their range.
    pub fn check_add(&self, other: &Self) -> (r: bool)
        requires
            self.wf(),
            other.wf(),
        ensures
            r == self.can_add(other),
    {
        let ghost es = other.counters.entries();
        let n = other.counters.len();
        let mut i: usize = 0;
        while i < n
            invariant
                i <= n,
                n == es.len(),
                es == other.counters.entries(),
                self.wf(),
                other.wf(),
                forall|j: int|
                    0 <= j < i && self@.counts.contains_key(es[j].0) ==> self@.counts[es[j].0]
                        + (#[trigger] es[j]).1 <= i64::MAX,
            decreases n - i,
        {
            let node = other.counters.key_at(i);
            let theirs = *other.counters.value_at(i);
            proof {
                lemma_lookup::<String, i64>(es, i as int);
            }
            match self.counters.get(node) {
                Some(mine) => {
                    proof {
                        let j = lemma_entry_of::<String, i64>(self.counters.entries(), es[i as int].0);
                        assert(self.counters.entries()[j].1 >= 0);
                    }
                    if theirs > i64::MAX - *mine {
                        return false;
                    }
                },
                None => {},
            }
            i = i + 1;
        }
        proof {
            assert forall|k: Seq<char>|
                self@.counts.contains_key(k) && other@.counts.contains_key(k) implies Sum::joinable(
                #[trigger] self@.counts[k],
                other@.counts[k],
            ) by {
                let j = lemma_entry_of::<String, i64>(es, k);
                assert(es[j].1 >= 0);
                let m = lemma_entry_of::<String, i64>(self.counters.entries(), k);
                assert(self.counters.entries()[m].1 >= 0);
            }
        }
        true
    }

    /// Adds the counts of another counter to this one's, node by node, and
    /// merges the clocks. Unlike `merge` this is for counts that were
    /// gathered apart and are each to be counted.
    pub fn add_state(&mut self, other: &Self)
        requires
            old(self).wf(),
            other.wf(),
            old(self).can_add(other),
        ensures
            final(self).wf(),
            final(self)@ == added_counter(old(self)@, other@),
    {
        let ghost mine = self.counters.entries();
        self.counters.join::<Sum>(&other.counters);
        self.vclock.merge(&other.vclock);
        proof {
            let es = self.counters.entries();
            assert forall|i: int| 0 <= i < es.len() implies (#[trigger] es[i]).1 >= 0 by {
                lemma_lookup::<String, i64>(es, i);
                let k = es[i].0;
                if old(self)@.counts.contains_key(k) {
                    let j = lemma_entry_of::<String, i64>(mine, k);
                    assert(mine[j].1 >= 0);
                }
                if other@.counts.contains_key(k) {
                    let j = lemma_entry_of::<String, i64>(other.counters.entries(), k);
                    assert(other.counters.entries()[j].1 >= 0);
                }
            }
        }
    }

    /// Reading an encoded counter back gives its state, whatever follows it.
    pub proof fn lemma_parse_encoding(&self, rest: Seq<u8>)
        requires
            self.wf(),
            self.encodable(),
        ensures
            Self::parse_prefix(self.encoding() + rest) == Some(
                (self@, self.encoding().len() as int),
            ),
    {
        let first = self.counters.encoding();
        let second = self.vclock.clocks.encoding();
        let whole = self.encoding() + rest;
        assert(whole =~= first + (second + rest));
        self.counters.lemma_parse_encoding(second + rest);
        assert(whole.skip(first.len() as int) =~= second + rest);
        self.vclock.lemma_parse_encoding(rest);
    }

    /// Appends the counter's encoding to `out`.
    pub fn encode_into(&self, out: &mut Vec<u8>)
        ensures
            self.encodable(),
            final(out)@ == old(out)@ + self.encoding(),
    {
        self.counters.encode(out);
        self.vclock.encode_into(out);
        proof {
            assert(old(out)@ + self.counters.encoding() + self.vclock.clocks.encoding() =~= old(
                out,
            )@ + self.encoding());
        }
    }

    /// Reads the counter that starts at `start`, and says where it ends.
    pub fn decode_from(bytes: &[u8], start: usize) -> (r: Option<(Self, usize)>)
        requires
            start <= bytes@.len(),
        ensures
            match Self::parse_prefix(bytes@.skip(start as int)) {
                Some((s, n)) => r matches Some((x, end)) && x.wf() && x@ == s && end == start + n
                    && start <= end <= bytes@.len(),
                None => r is None,
            },
    {
        let (counters, mid) = match OrderedMap::<String, i64>::decode(bytes, start) {
            Some(part) => part,
            None => { return None; },
        };
        proof {
            assert(bytes@.skip(start as int).skip(mid - start) =~= bytes@.skip(mid as int));
        }
        let (vclock, end) = match VectorClock::decode_from(bytes, mid) {
            Some(part) => part,
            None => { return None; },
        };
        if counts_checked(&counters) {
            Some((GCounter { counters, vclock }, end))
        } else {
            None
        }
    }

    /// Reads the counter that a buffer holds from its first byte to its last.
    pub fn from_bytes(bytes: &[u8]) -> (r: Result<Self, CrdtError>)
        ensures
            match Self::parse(bytes@) {
                Some(s) => r matches Ok(x) && x.wf() && x@ == s,
                None => r matches Err(e) && e is Deserialization,
            },
    {
        proof {
            assert(bytes@.skip(0) =~= bytes@);
        }
        match Self::decode_from(bytes, 0) {
            Some((counter, end)) => {
                if end == bytes.len() {
                    Ok(counter)
                } else {
                    Err(malformed("bytes left over after the counter"))
                }
            },
            None => Err(malformed("no grow-only counter in the buffer")),
        }
    }
}

/// A reader over an encoded grow-only counter.
pub struct GCounterReader<'a> {
    bytes: &'a [u8],
}

impl<'a> GCounterReader<'a> {
    /// The bytes that the reader borrows.
    pub closed spec fn bytes(&self) -> Seq<u8> {
        self.bytes@
    }

    /// A reader over `bytes`.
    pub fn new(bytes: &'a [u8]) -> (r: Self)
        ensures
            r.bytes() == bytes@,
    {
        GCounterReader { bytes }
    }

    /// The counter that the buffer holds.
    pub fn to_gcounter(&self) -> (r: Result<GCounter, CrdtError>)
        ensures
            match GCounter::parse(self.bytes()) {
                Some(s) => r matches Ok(x) && x.wf() && x@ == s,
                None => r matches Err(e) && e is Deserialization,
            },
    {
        GCounter::from_bytes(self.bytes)
    }
}

impl<'a> CrdtReader for GCounterReader<'a> {
    open spec fn bytes(&self) -> Seq<u8> {
        GCounterReader::bytes(self)
    }

    open spec fn readable(&self) -> bool {
        GCounter::parse(self.bytes()) is Some
    }

    open spec fn holds_nothing(&self) -> bool {
        match GCounter::parse(self.bytes()) {
            Some(s) => s.counts == Map::<Seq<char>, i64>::empty(),
            None => false,
        }
    }

    fn buffer(&self) -> (b: &[u8]) {
        self.bytes
    }

    fn is_empty(&self) -> (r: Result<bool, CrdtError>) {
        buffer_is_empty::<GCounter>(self.bytes)
    }
}

impl Replica for GCounter {
    type State = GCounterState;

    open spec fn wf(&self) -> bool {
        GCounter::wf(self)
    }

    open spec fn state(&self) -> GCounterState {
        self@
    }

    open spec fn is_initial(s: GCounterState) -> bool {
        s.counts == Map::<Seq<char>, i64>::empty() && s.clock == ClockView::empty()
    }

    open spec fn blank(s: GCounterState) -> bool {
        s.counts == Map::<Seq<char>, i64>::empty()
    }

    open spec fn merged(a: GCounterState, b: GCounterState) -> GCounterState {
        merged_counter(a, b)
    }

    open spec fn encodable(&self) -> bool {
        GCounter::encodable(self)
    }

    open spec fn encoding(&self) -> Seq<u8> {
        GCounter::encoding(self)
    }

    open spec fn parse(bytes: Seq<u8>) -> Option<GCounterState> {
        GCounter::parse(bytes)
    }

    proof fn lemma_merge_idempotent(a: Self) {
        lemma_greatest_idempotent::<Seq<char>, i64>(a@.counts);
        lemma_merged_clock_idempotent(a@.clock);
    }

    proof fn lemma_merge_commutative(a: Self, b: Self) {
        lemma_greatest_commutative::<Seq<char>, i64>(a@.counts, b@.counts);
        lemma_merged_clock_commutative(a@.clock, b@.clock);
    }

    proof fn lemma_merge_associative(a: Self, b: Self, c: Self) {
        lemma_greatest_associative::<Seq<char>, i64>(a@.counts, b@.counts, c@.counts);
        lemma_merged_clock_associative(a@.clock, b@.clock, c@.clock);
    }

    proof fn lemma_round_trip(a: Self) {
        let none = Seq::<u8>::empty();
        a.lemma_parse_encoding(none);
        assert(GCounter::encoding(&a) + none =~= GCounter::encoding(&a));
    }

    fn fresh() -> (r: Self) {
        GCounter::new()
    }

    fn merge(&mut self, other: &Self) {
        GCounter::merge(self, other)
    }

    fn from_bytes(bytes: &[u8]) -> (r: Result<Self, CrdtError>) {
        GCounter::from_bytes(bytes)
    }

    fn validate(&self) -> (r: Result<(), CrdtError>) {
        if !self.counters.check() {
            Err(invalid("counter nodes out of order"))
        } else if !self.vclock.clocks.check() {
            Err(invalid("vector clock nodes out of order"))
        } else if !counts_checked(&self.counters) {
            Err(invalid("negative count"))
        } else {
            Ok(())
        }
    }

    fn is_empty(&self) -> (r: bool) {
        GCounter::is_empty(self)
    }

    fn to_capnp_bytes(&self) -> (r: Vec<u8>) {
        let mut out: Vec<u8> = Vec::new();
        self.encode_into(&mut out);
        proof {
            Self::lemma_round_trip(*self);
            assert(Seq::<u8>::empty() + GCounter::encoding(self) =~= GCounter::encoding(self));
        }
        out
    }
}

impl Crdt for GCounter {
    type Reader<'a> = GCounterReader<'a>;

    fn merge_from_readers(readers: &[GCounterReader<'_>]) -> (r: Result<Self, CrdtError>) {
        merge_buffers::<GCounter, GCounterReader<'_>>(readers)
    }
}

} // verus!
