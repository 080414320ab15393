//! Dotted storage: what the observed-remove set and the multi-value register
//! share. Each stored value is paired with the dots that wrote it, a dot
//! being the node and the counter of one write; a value is present while it
//! has a dot. Together with a vector clock this tells a value that a peer has
//! removed from one that it has never seen.

use crate::element::Element;
use crate::ordered_map::{
    as_map, lemma_entry_of, lemma_lookup, lemma_take_next, Combine, Keep, OrderedMap,
};
use crate::vector_clock::{
    covers, lemma_merged_clock_associative, lemma_merged_clock_commutative,
    lemma_merged_clock_counter, lemma_merged_clock_idempotent, merged_clock, ClockView,
    VectorClock,
};
use vstd::prelude::*;
use vstd::string::*;

verus! {

/// A dot as contracts speak of it: a node and the counter of one of its writes.
pub type DotView = (Seq<char>, u64);

/// Values with their dots, one entry for each pair of a value and a dot.
pub type DotMap<T> = OrderedMap<(T, (String, u64)), ()>;

/// What dotted storage stands for: the pairs of a value and a dot, and the
/// clock of all that the replica has seen.
#[verifier::ext_equal]
#[verifier::reject_recursive_types(E)]
pub struct DotState<E> {
    pub dots: Set<(E, DotView)>,
    pub clock: ClockView,
}

/// Whether a value has a dot.
pub open spec fn member<E>(dots: Set<(E, DotView)>, e: E) -> bool {
    exists|d: DotView| dots.contains((e, d))
}

/// The values that have a dot.
pub open spec fn elements_of<E>(dots: Set<(E, DotView)>) -> Set<E> {
    Set::new(|e: E| member(dots, e))
}

/// The pairs that are left when a value loses all its dots.
pub open spec fn dots_without<E>(dots: Set<(E, DotView)>, e: E) -> Set<(E, DotView)> {
    Set::new(|p: (E, DotView)| dots.contains(p) && p.0 != e)
}

/// The pairs after the values of a list were added one after another under
/// dots of `node`, the first under the counter `base + 1`.
pub open spec fn dots_added<E>(
    dots: Set<(E, DotView)>,
    node: Seq<char>,
    base: nat,
    items: Seq<E>,
) -> Set<(E, DotView)>
    decreases items.len(),
{
    if items.len() == 0 {
        dots
    } else {
        dots_added(dots, node, base, items.drop_last()).insert(
            (items.last(), (node, (base + items.len()) as u64)),
        )
    }
}

/// The pairs that are left when the values of a list lose all their dots.
pub open spec fn dots_without_all<E>(dots: Set<(E, DotView)>, items: Seq<E>) -> Set<(E, DotView)> {
    Set::new(|p: (E, DotView)| dots.contains(p) && !items.contains(p.0))
}

/// Whether a pair of one side outlives a merge with a peer: the peer has
/// not yet seen its dot, or the peer still holds the pair.
pub open spec fn outlives<E>(p: (E, DotView), peer: Set<(E, DotView)>, peer_clock: ClockView)
    -> bool {
    !covers(peer_clock, p.1.0, p.1.1) || peer.contains(p)
}

/// The pairs of two sides after a merge: those of either side that outlive
/// the other.
pub open spec fn merged_dots<E>(
    a: Set<(E, DotView)>,
    a_clock: ClockView,
    b: Set<(E, DotView)>,
    b_clock: ClockView,
) -> Set<(E, DotView)> {
    Set::new(
        |p: (E, DotView)|
            (a.contains(p) && outlives(p, b, b_clock)) || (b.contains(p) && outlives(
                p,
                a,
                a_clock,
            )),
    )
}

/// The merge of two dotted states.
pub open spec fn merged_state<E>(a: DotState<E>, b: DotState<E>) -> DotState<E> {
    DotState {
        dots: merged_dots(a.dots, a.clock, b.dots, b.clock),
        clock: merged_clock(a.clock, b.clock),
    }
}

/// Merging a dotted state with itself changes nothing.
pub proof fn lemma_merged_state_idempotent<E>(a: DotState<E>)
    ensures
        merged_state(a, a) == a,
{
    lemma_merged_clock_idempotent(a.clock);
    assert(merged_state(a, a).dots =~= a.dots);
    assert(merged_state(a, a) =~= a);
}

/// Merging two dotted states gives the same either way round.
pub proof fn lemma_merged_state_commutative<E>(a: DotState<E>, b: DotState<E>)
    ensures
        merged_state(a, b) == merged_state(b, a),
{
    lemma_merged_clock_commutative(a.clock, b.clock);
    assert(merged_state(a, b).dots =~= merged_state(b, a).dots);
    assert(merged_state(a, b) =~= merged_state(b, a));
}

/// Merging three dotted states gives the same however they are grouped.
pub proof fn lemma_merged_state_associative<E>(a: DotState<E>, b: DotState<E>, c: DotState<E>)
    ensures
        merged_state(merged_state(a, b), c) == merged_state(a, merged_state(b, c)),
{
    lemma_merged_clock_associative(a.clock, b.clock, c.clock);
    let left = merged_state(merged_state(a, b), c);
    let right = merged_state(a, merged_state(b, c));
    assert forall|p: (E, DotView)| left.dots.contains(p) == right.dots.contains(p) by {
        lemma_merged_clock_counter(a.clock, b.clock, p.1.0);
        lemma_merged_clock_counter(b.clock, c.clock, p.1.0);
    }
    assert(left.dots =~= right.dots);
    assert(left =~= right);
}

/// One more pair adds its value to the values that have a dot.
pub proof fn lemma_elements_insert<E>(dots: Set<(E, DotView)>, p: (E, DotView))
    ensures
        elements_of(dots.insert(p)) == elements_of(dots).insert(p.0),
{
    let l = elements_of(dots.insert(p));
    let r = elements_of(dots).insert(p.0);
    assert forall|e: E| l.contains(e) == r.contains(e) by {
        if member(dots.insert(p), e) {
            let d = choose|d: DotView| dots.insert(p).contains((e, d));
            if (e, d) != p {
                assert(dots.contains((e, d)));
            }
        }
        if r.contains(e) {
            if e == p.0 {
                assert(dots.insert(p).contains((p.0, p.1)));
            } else {
                let d = choose|d: DotView| dots.contains((e, d));
                assert(dots.insert(p).contains((e, d)));
            }
        }
    }
    assert(l =~= r);
}

/// Unit values stored under one key are one unit value.
pub struct Unit;

impl Combine<()> for Unit {
    open spec fn joinable(a: (), b: ()) -> bool {
        true
    }

    open spec fn join(a: (), b: ()) -> () {
        ()
    }

    fn combine(a: &(), b: &()) -> (r: ()) {
        ()
    }
}

/// The test that keeps the pairs which outlive a merge with a peer.
pub struct Survivor<'a, T: Element> {
    pub peer: &'a DotMap<T>,
    pub peer_clock: &'a VectorClock,
}

impl<'a, T: Element> Keep<(T, (String, u64)), ()> for Survivor<'a, T> {
    open spec fn ready(&self) -> bool {
        self.peer.wf() && self.peer_clock.wf()
    }

    open spec fn keeps(&self, k: (T::V, DotView), v: ()) -> bool {
        outlives(k, self.peer@.dom(), self.peer_clock@)
    }

    fn test(&self, k: &(T, (String, u64)), v: &()) -> (r: bool) {
        if k.1.1 > self.peer_clock.counter(k.1.0.as_str()) {
            true
        } else {
            self.peer.contains_key(k)
        }
    }
}

/// The test that keeps the pairs of every value but one.
pub struct Except<'a, T: Element> {
    pub element: &'a T,
}

impl<'a, T: Element> Keep<(T, (String, u64)), ()> for Except<'a, T> {
    open spec fn ready(&self) -> bool {
        true
    }

    open spec fn keeps(&self, k: (T::V, DotView), v: ()) -> bool {
        k.0 != self.element.deep_view()
    }

    fn test(&self, k: &(T, (String, u64)), v: &()) -> (r: bool) {
        !k.0.same(self.element)
    }
}

/// Merges the pairs of two sides: each side keeps what outlives the other.
pub fn merge_dots<T: Element>(
    mine: &DotMap<T>,
    my_clock: &VectorClock,
    theirs: &DotMap<T>,
    their_clock: &VectorClock,
) -> (r: DotMap<T>)
    requires
        mine.wf(),
        my_clock.wf(),
        theirs.wf(),
        their_clock.wf(),
    ensures
        r.wf(),
        r@.dom() == merged_dots(mine@.dom(), my_clock@, theirs@.dom(), their_clock@),
{
    let keep_mine = Survivor { peer: theirs, peer_clock: their_clock };
    let keep_theirs = Survivor { peer: mine, peer_clock: my_clock };
    let mut r = mine.filter(&keep_mine);
    let other = theirs.filter(&keep_theirs);
    r.join::<Unit>(&other);
    proof {
        assert(r@.dom() =~= merged_dots(mine@.dom(), my_clock@, theirs@.dom(), their_clock@));
    }
    r
}

/// The pairs of every value but `element`.
pub fn without<T: Element>(m: &DotMap<T>, element: &T) -> (r: DotMap<T>)
    requires
        m.wf(),
    ensures
        r.wf(),
        r@.dom() == dots_without(m@.dom(), element.deep_view()),
{
    let r = m.filter(&Except { element });
    proof {
        assert(r@.dom() =~= dots_without(m@.dom(), element.deep_view()));
    }
    r
}

/// Whether `element` has a dot.
pub fn holds<T: Element>(m: &DotMap<T>, element: &T) -> (r: bool)
    requires
        m.wf(),
    ensures
        r == member(m@.dom(), element.deep_view()),
{
    let ghost es = m.entries();
    let ghost e = element.deep_view();
    let n = m.len();
    let mut i: usize = 0;
    while i < n
        invariant
            i <= n,
            n == es.len(),
            es == m.entries(),
            e == element.deep_view(),
            m.wf(),
            forall|j: int| 0 <= j < i ==> (#[trigger] es[j]).0.0 != e,
        decreases n - i,
    {
        if m.key_at(i).0.same(element) {
            proof {
                lemma_lookup::<(T, (String, u64)), ()>(es, i as int);
                assert(m@.dom().contains((e, es[i as int].0.1)));
            }
            return true;
        }
        i = i + 1;
    }
    proof {
        if member(m@.dom(), e) {
            let d = choose|d: DotView| m@.dom().contains((e, d));
            let j = lemma_entry_of::<(T, (String, u64)), ()>(es, (e, d));
            assert(es[j].0.0 == e);
        }
    }
    false
}

/// The values that have a dot, each once.
pub fn distinct<T: Element>(m: &DotMap<T>) -> (r: OrderedMap<T, ()>)
    requires
        m.wf(),
    ensures
        r.wf(),
        r@.dom() == elements_of(m@.dom()),
{
    let ghost es = m.entries();
    let n = m.len();
    let mut r: OrderedMap<T, ()> = OrderedMap::new();
    let mut i: usize = 0;
    proof {
        assert(es.take(0) =~= Seq::empty());
        assert(as_map(es.take(0)).dom() =~= Set::empty());
        assert(r@.dom() =~= elements_of(as_map(es.take(0)).dom()));
    }
    while i < n
        invariant
            i <= n,
            n == es.len(),
            es == m.entries(),
            m.wf(),
            r.wf(),
            r@.dom() == elements_of(as_map(es.take(i as int)).dom()),
        decreases n - i,
    {
        proof {
            lemma_take_next::<(T, (String, u64)), ()>(es, i as int);
            lemma_elements_insert(as_map(es.take(i as int)).dom(), es[i as int].0);
            assert(as_map(es.take(i + 1)).dom() =~= as_map(es.take(i as int)).dom().insert(
                es[i as int].0,
            ));
        }
        r.insert(m.key_at(i).0.duplicate(), ());
        proof {
            assert(r@.dom() =~= elements_of(as_map(es.take(i + 1)).dom()));
        }
        i = i + 1;
    }
    proof {
        assert(es.take(n as int) =~= es);
    }
    r
}

/// Whether a dotted state can be encoded.
pub open spec fn dot_state_encodable<T: Element>(m: &DotMap<T>, clock: &VectorClock) -> bool {
    m.encodable() && clock.encodable()
}

/// A dotted state on the wire: the pairs, then the clock.
pub open spec fn dot_state_encoding<T: Element>(m: &DotMap<T>, clock: &VectorClock) -> Seq<u8> {
    m.encoding() + clock.clocks.encoding()
}

/// The dotted state that a buffer starts with, and the bytes it takes.
pub open spec fn parse_dot_state<T: Element>(s: Seq<u8>) -> Option<(DotState<T::V>, int)> {
    match DotMap::<T>::parse(s) {
        Some((es, n)) => match VectorClock::parse_prefix(s.skip(n)) {
            Some((c, m)) => Some((DotState { dots: as_map(es).dom(), clock: c }, n + m)),
            None => None,
        },
        None => None,
    }
}

/// Reading an encoded dotted state back gives the state, whatever follows it.
pub proof fn lemma_parse_dot_state<T: Element>(m: &DotMap<T>, clock: &VectorClock, rest: Seq<u8>)
    requires
        m.wf(),
        clock.wf(),
        dot_state_encodable(m, clock),
    ensures
        parse_dot_state::<T>(dot_state_encoding(m, clock) + rest) == Some(
            (
                DotState { dots: m@.dom(), clock: clock@ },
                dot_state_encoding(m, clock).len() as int,
            ),
        ),
{
    let first = m.encoding();
    let second = clock.clocks.encoding();
    let whole = dot_state_encoding(m, clock) + rest;
    assert(whole =~= first + (second + rest));
    m.lemma_parse_encoding(second + rest);
    assert(whole.skip(first.len() as int) =~= second + rest);
    clock.lemma_parse_encoding(rest);
}

/// Appends the encoding of a dotted state.
pub fn encode_dot_state<T: Element>(m: &DotMap<T>, clock: &VectorClock, out: &mut Vec<u8>)
    ensures
        dot_state_encodable(m, clock),
        final(out)@ == old(out)@ + dot_state_encoding(m, clock),
{
    m.encode(out);
    clock.encode_into(out);
    proof {
        assert(old(out)@ + m.encoding() + clock.clocks.encoding() =~= old(out)@
            + dot_state_encoding(m, clock));
    }
}

/// Reads the dotted state that starts at `start`, and says where it ends.
pub fn decode_dot_state<T: Element>(bytes: &[u8], start: usize) -> (r: Option<
    (DotMap<T>, VectorClock, usize),
>)
    requires
        start <= bytes@.len(),
    ensures
        match parse_dot_state::<T>(bytes@.skip(start as int)) {
            Some((s, n)) => r matches Some((m, clock, end)) && m.wf() && clock.wf() && s
                == (DotState { dots: m@.dom(), clock: clock@ }) && end == start + n && start
                <= end <= bytes@.len(),
            None => r is None,
        },
{
    let (m, mid) = match DotMap::<T>::decode(bytes, start) {
        Some(part) => part,
        None => { return None; },
    };
    proof {
        assert(bytes@.skip(start as int).skip(mid - start) =~= bytes@.skip(mid as int));
    }
    match VectorClock::decode_from(bytes, mid) {
        Some((clock, end)) => Some((m, clock, end)),
        None => None,
    }
}

} // verus!
