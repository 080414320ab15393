//! Deltas: what a client asks of a replicated value in one request, a count
//! to add, elements to add and to remove, a value to write. Each kind of
//! delta says when it fits a state and what state it leaves.

use crate::dots::{dots_added, dots_without_all, DotState, DotView};
use crate::element::Element;
use crate::fww_register::FWWRegister;
use crate::g_counter::{count_of, GCounter, GCounterState};
use crate::g_set::{GSet, GSetState};
use crate::lww_map::{stamped, LWWMap, LWWMapState};
use crate::lww_register::{ranks_below, stamp_of, LWWRegister, RegisterState};
use crate::lww_set::{tagged, LWWSet, LWWSetState};
use crate::maximum::{lemma_raises_bounded, raised_all, raises_taken};
use crate::mv_register::MVRegister;
use crate::or_map::{pairs_without_keys, pairs_written, ORMap, ORMapState};
use crate::or_set::ORSet;
use crate::pn_counter::{PNCounter, PNCounterState};
use crate::traits::{CrdtError, Replica};
use crate::vector_clock::{advanced, counter_of, lemma_advanced_twice, ticked};
use vstd::prelude::*;
use vstd::string::*;

verus! {

/// The error for a delta that a state has no room for.
fn no_room() -> (e: CrdtError)
    ensures
        e is InvalidInput,
{
    CrdtError::InvalidInput(String::from_str("the delta does not fit the state"))
}

/// A delta for the replicated type `C`.
pub trait Patch<C: Replica> {
    /// Whether the state has room for the delta.
    spec fn fits(&self, before: C::State, node: Seq<char>) -> bool;

    /// Whether `after` is what the delta, applied for `node`, makes of
    /// `before`.
    spec fn leaves(&self, before: C::State, after: C::State, node: Seq<char>) -> bool;

    /// Applies the delta for a node. A delta that the state has no room for
    /// is reported and changes nothing.
    fn apply(&self, state: &mut C, node_id: &str) -> (r: Result<(), CrdtError>)
        requires
            old(state).wf(),
        ensures
            final(state).wf(),
            r is Ok <==> self.fits(old(state).state(), node_id@),
            r is Ok ==> self.leaves(old(state).state(), final(state).state(), node_id@),
            r matches Err(e) ==> e is InvalidInput && final(state).state() == old(
                state,
            ).state(),
    ;
}

/// The items of a list that may be missing.
pub open spec fn listed<T: DeepView>(list: Option<Vec<T>>) -> Seq<T::V> {
    match list {
        Some(items) => items.deep_view(),
        None => Seq::empty(),
    }
}

/// The number of items of a list that may be missing.
fn count_listed<T: DeepView>(list: &Option<Vec<T>>) -> (n: usize)
    ensures
        n == listed(*list).len(),
{
    match list {
        Some(items) => items.len(),
        None => 0,
    }
}

/// A count to add to a grow-only counter.
#[derive(Debug, Clone, PartialEq, Eq)]
pub enum GCounterDelta {
    Direct(i64),
    Object { increment: i64 },
}

impl GCounterDelta {
    /// The count to add.
    pub open spec fn amount_spec(&self) -> i64 {
        match self {
            GCounterDelta::Direct(v) => *v,
            GCounterDelta::Object { increment } => *increment,
        }
    }

    /// The count to add.
    pub fn amount(&self) -> (r: i64)
        ensures
            r == self.amount_spec(),
    {
        match self {
            GCounterDelta::Direct(v) => *v,
            GCounterDelta::Object { increment } => *increment,
        }
    }
}

impl Patch<GCounter> for GCounterDelta {
    open spec fn fits(&self, before: GCounterState, node: Seq<char>) -> bool {
        self.amount_spec() >= 0 ==> counter_of(before.clock, node) < u64::MAX && count_of(
            before.counts,
            node,
        ) + self.amount_spec() <= i64::MAX
    }

    open spec fn leaves(&self, before: GCounterState, after: GCounterState, node: Seq<char>)
        -> bool {
        if self.amount_spec() < 0 {
            after == before
        } else {
            &&& after.counts == before.counts.insert(
                node,
                (count_of(before.counts, node) + self.amount_spec()) as i64,
            )
            &&& ticked(before.clock, after.clock, node)
        }
    }

    fn apply(&self, state: &mut GCounter, node_id: &str) -> (r: Result<(), CrdtError>) {
        state.try_increment(node_id, self.amount())
    }
}

/// A count to add to a signed counter.
#[derive(Debug, Clone, PartialEq, Eq)]
pub enum PNCounterDelta {
    Direct(i64),
    Object { increment: i64 },
}

impl PNCounterDelta {
    /// The count to add.
    pub open spec fn amount_spec(&self) -> i64 {
        match self {
            PNCounterDelta::Direct(v) => *v,
            PNCounterDelta::Object { increment } => *increment,
        }
    }

    /// The count to add.
    pub fn amount(&self) -> (r: i64)
        ensures
            r == self.amount_spec(),
    {
        match self {
            PNCounterDelta::Direct(v) => *v,
            PNCounterDelta::Object { increment } => *increment,
        }
    }
}

impl Patch<PNCounter> for PNCounterDelta {
    open spec fn fits(&self, before: PNCounterState, node: Seq<char>) -> bool {
        &&& self.amount_spec() > i64::MIN
        &&& counter_of(before.clock, node) < u64::MAX
        &&& if self.amount_spec() >= 0 {
            counter_of(before.positive.clock, node) < u64::MAX && count_of(
                before.positive.counts,
                node,
            ) + self.amount_spec() <= i64::MAX
        } else {
            counter_of(before.negative.clock, node) < u64::MAX && count_of(
                before.negative.counts,
                node,
            ) - self.amount_spec() <= i64::MAX
        }
    }

    open spec fn leaves(&self, before: PNCounterState, after: PNCounterState, node: Seq<char>)
        -> bool {
        &&& ticked(before.clock, after.clock, node)
        &&& if self.amount_spec() >= 0 {
            &&& after.negative == before.negative
            &&& after.positive.counts == before.positive.counts.insert(
                node,
                (count_of(before.positive.counts, node) + self.amount_spec()) as i64,
            )
            &&& ticked(before.positive.clock, after.positive.clock, node)
        } else {
            &&& after.positive == before.positive
            &&& after.negative.counts == before.negative.counts.insert(
                node,
                (count_of(before.negative.counts, node) - self.amount_spec()) as i64,
            )
            &&& ticked(before.negative.clock, after.negative.clock, node)
        }
    }

    fn apply(&self, state: &mut PNCounter, node_id: &str) -> (r: Result<(), CrdtError>) {
        state.try_increment(node_id, self.amount())
    }
}

/// Elements to add to a grow-only set.
#[derive(Debug, Clone, PartialEq, Eq)]
pub enum GSetDelta<T> {
    List(Vec<T>),
    Object { add: Vec<T> },
}

impl<T: Element> GSetDelta<T> {
    /// The elements to add.
    pub open spec fn items_spec(&self) -> Seq<T::V> {
        match self {
            GSetDelta::List(items) => items.deep_view(),
            GSetDelta::Object { add } => add.deep_view(),
        }
    }

    /// The elements to add.
    pub fn items(&self) -> (r: &Vec<T>)
        ensures
            r.deep_view() == self.items_spec(),
    {
        match self {
            GSetDelta::List(items) => items,
            GSetDelta::Object { add } => add,
        }
    }
}

impl<T: Element> Patch<GSet<T>> for GSetDelta<T> {
    open spec fn fits(&self, before: GSetState<T::V>, node: Seq<char>) -> bool {
        counter_of(before.clock, node) + self.items_spec().len() <= u64::MAX
    }

    /// The elements are added; the clock ticks once for each that is new.
    open spec fn leaves(&self, before: GSetState<T::V>, after: GSetState<T::V>, node: Seq<char>)
        -> bool {
        &&& after.elements == before.elements.union(self.items_spec().to_set())
        &&& before.elements.finite()
        &&& after.elements.finite()
        &&& advanced(
            before.clock,
            after.clock,
            node,
            (after.elements.len() - before.elements.len()) as nat,
        )
    }

    fn apply(&self, state: &mut GSet<T>, node_id: &str) -> (r: Result<(), CrdtError>) {
        let items = self.items();
        if !state.vclock.has_room(node_id, items.len()) {
            return Err(no_room());
        }
        state.insert_all(node_id, items);
        Ok(())
    }
}

/// Elements to add to an observed-remove set and elements to remove from it.
#[derive(Debug, Clone, PartialEq, Eq)]
pub struct ORSetDelta<T> {
    pub add: Option<Vec<T>>,
    pub remove: Option<Vec<T>>,
}

impl<T: Element> Patch<ORSet<T>> for ORSetDelta<T> {
    open spec fn fits(&self, before: DotState<T::V>, node: Seq<char>) -> bool {
        counter_of(before.clock, node) + listed(self.add).len() <= u64::MAX
    }

    /// The adds are made, each under a fresh dot; then the removes.
    open spec fn leaves(&self, before: DotState<T::V>, after: DotState<T::V>, node: Seq<char>)
        -> bool {
        &&& after.dots == dots_without_all(
            dots_added(
                before.dots,
                node,
                counter_of(before.clock, node) as nat,
                listed(self.add),
            ),
            listed(self.remove),
        )
        &&& advanced(before.clock, after.clock, node, listed(self.add).len())
    }

    fn apply(&self, state: &mut ORSet<T>, node_id: &str) -> (r: Result<(), CrdtError>) {
        if !state.vclock.has_room(node_id, count_listed(&self.add)) {
            return Err(no_room());
        }
        match &self.add {
            Some(items) => {
                state.insert_all(node_id, items);
            },
            None => {},
        }
        match &self.remove {
            Some(items) => {
                state.remove_all(items);
            },
            None => {
                proof {
                    assert(state@.dots =~= dots_without_all(state@.dots, Seq::<T::V>::empty()));
                }
            },
        }
        Ok(())
    }
}

/// Elements to add to a last-write-wins set and elements to remove from it,
/// all at one timestamp.
#[derive(Debug, Clone, PartialEq, Eq)]
pub struct LWWSetDelta<T> {
    pub add: Option<Vec<T>>,
    pub remove: Option<Vec<T>>,
    pub timestamp: u64,
}

impl<T: Element> Patch<LWWSet<T>> for LWWSetDelta<T> {
    open spec fn fits(&self, before: LWWSetState<T::V>, node: Seq<char>) -> bool {
        counter_of(before.clock, node) + listed(self.add).len() + listed(self.remove).len()
            <= u64::MAX
    }

    /// The adds are offered, then the removes; the clock ticks once for
    /// each that is taken.
    open spec fn leaves(
        &self,
        before: LWWSetState<T::V>,
        after: LWWSetState<T::V>,
        node: Seq<char>,
    ) -> bool {
        &&& after.adds == raised_all::<T::V, (u64, String)>(
            before.adds,
            tagged(listed(self.add), (self.timestamp, node)),
        )
        &&& after.removes == raised_all::<T::V, (u64, String)>(
            before.removes,
            tagged(listed(self.remove), (self.timestamp, node)),
        )
        &&& advanced(
            before.clock,
            after.clock,
            node,
            raises_taken::<T::V, (u64, String)>(
                before.adds,
                tagged(listed(self.add), (self.timestamp, node)),
            ) + raises_taken::<T::V, (u64, String)>(
                before.removes,
                tagged(listed(self.remove), (self.timestamp, node)),
            ),
        )
    }

    fn apply(&self, state: &mut LWWSet<T>, node_id: &str) -> (r: Result<(), CrdtError>) {
        let adds = count_listed(&self.add);
        let removes = count_listed(&self.remove);
        if !state.vclock.has_room(node_id, adds) {
            return Err(no_room());
        }
        if removes as u64 > u64::MAX - state.vclock.counter(node_id) - adds as u64 {
            return Err(no_room());
        }
        let ghost tag = (self.timestamp, node_id@);
        let ghost start = state@;
        match &self.add {
            Some(items) => {
                state.insert_all(node_id, items, self.timestamp);
            },
            None => {
                proof {
                    assert(tagged(Seq::<T::V>::empty(), tag) =~= Seq::empty());
                }
            },
        }
        let ghost mid = state@;
        proof {
            lemma_raises_bounded::<T::V, (u64, String)>(
                start.adds,
                tagged(listed(self.add), tag),
            );
        }
        match &self.remove {
            Some(items) => {
                state.remove_all(node_id, items, self.timestamp);
            },
            None => {
                proof {
                    assert(tagged(Seq::<T::V>::empty(), tag) =~= Seq::empty());
                }
            },
        }
        proof {
            lemma_advanced_twice(
                start.clock,
                mid.clock,
                state@.clock,
                node_id@,
                raises_taken::<T::V, (u64, String)>(start.adds, tagged(listed(self.add), tag)),
                raises_taken::<T::V, (u64, String)>(
                    start.removes,
                    tagged(listed(self.remove), tag),
                ),
            );
        }
        Ok(())
    }
}

/// A write to offer to a last-write-wins register.
#[derive(Debug, Clone, PartialEq, Eq)]
pub struct LWWRegisterDelta<T> {
    pub value: T,
    pub timestamp: u64,
}

impl<T: Element + Default> Patch<LWWRegister<T>> for LWWRegisterDelta<T> {
    open spec fn fits(&self, before: RegisterState<T::V>, node: Seq<char>) -> bool {
        counter_of(before.clock, node) < u64::MAX
    }

    /// The write is taken if it ranks strictly above the one that the
    /// register holds.
    open spec fn leaves(
        &self,
        before: RegisterState<T::V>,
        after: RegisterState<T::V>,
        node: Seq<char>,
    ) -> bool {
        if ranks_below::<T>(stamp_of(before), (self.timestamp, (node, self.value.deep_view()))) {
            &&& stamp_of(after) == (self.timestamp, (node, self.value.deep_view()))
            &&& ticked(before.clock, after.clock, node)
        } else {
            after == before
        }
    }

    fn apply(&self, state: &mut LWWRegister<T>, node_id: &str) -> (r: Result<(), CrdtError>) {
        if !state.vclock.has_room(node_id, 1) {
            return Err(no_room());
        }
        state.set(self.value.duplicate(), self.timestamp, node_id);
        Ok(())
    }
}

/// A write to offer to a first-write-wins register.
#[derive(Debug, Clone, PartialEq, Eq)]
pub struct FWWRegisterDelta<T> {
    pub value: T,
    pub timestamp: u64,
}

impl<T: Element + Default> Patch<FWWRegister<T>> for FWWRegisterDelta<T> {
    open spec fn fits(&self, before: RegisterState<T::V>, node: Seq<char>) -> bool {
        counter_of(before.clock, node) < u64::MAX
    }

    /// The write is taken if it ranks strictly below the one that the
    /// register holds.
    open spec fn leaves(
        &self,
        before: RegisterState<T::V>,
        after: RegisterState<T::V>,
        node: Seq<char>,
    ) -> bool {
        if ranks_below::<T>((self.timestamp, (node, self.value.deep_view())), stamp_of(before)) {
            &&& stamp_of(after) == (self.timestamp, (node, self.value.deep_view()))
            &&& ticked(before.clock, after.clock, node)
        } else {
            after == before
        }
    }

    fn apply(&self, state: &mut FWWRegister<T>, node_id: &str) -> (r: Result<(), CrdtError>) {
        if !state.vclock.has_room(node_id, 1) {
            return Err(no_room());
        }
        state.set(self.value.duplicate(), self.timestamp, node_id);
        Ok(())
    }
}

/// A value to write to a multi-value register.
#[derive(Debug, Clone, PartialEq, Eq)]
pub enum MVRegisterDelta<T> {
    Direct(T),
    Object { value: T },
}

impl<T: Element> MVRegisterDelta<T> {
    /// The value to write.
    pub open spec fn value_spec(&self) -> T::V {
        match self {
            MVRegisterDelta::Direct(v) => v.deep_view(),
            MVRegisterDelta::Object { value } => value.deep_view(),
        }
    }

    /// The value to write.
    pub fn value(&self) -> (r: &T)
        ensures
            r.deep_view() == self.value_spec(),
    {
        match self {
            MVRegisterDelta::Direct(v) => v,
            MVRegisterDelta::Object { value } => value,
        }
    }
}

impl<T: Element> Patch<MVRegister<T>> for MVRegisterDelta<T> {
    open spec fn fits(&self, before: DotState<T::V>, node: Seq<char>) -> bool {
        counter_of(before.clock, node) < u64::MAX
    }

    /// The value replaces all others and stands under a fresh dot.
    open spec fn leaves(&self, before: DotState<T::V>, after: DotState<T::V>, node: Seq<char>)
        -> bool {
        &&& ticked(before.clock, after.clock, node)
        &&& after.dots == Set::<(T::V, DotView)>::empty().insert(
            (self.value_spec(), (node, (counter_of(before.clock, node) + 1) as u64)),
        )
    }

    fn apply(&self, state: &mut MVRegister<T>, node_id: &str) -> (r: Result<(), CrdtError>) {
        if !state.vclock.has_room(node_id, 1) {
            return Err(no_room());
        }
        state.set(node_id, self.value().duplicate());
        Ok(())
    }
}

/// Writes to offer to a last-write-wins map at one timestamp, and keys to
/// remove from it.
#[derive(Debug, Clone, PartialEq, Eq)]
pub struct LWWMapDelta<K, V> {
    pub set: Option<Vec<(K, V)>>,
    pub remove: Option<Vec<K>>,
    pub timestamp: u64,
}

impl<K: Element, V: Element> Patch<LWWMap<K, V>> for LWWMapDelta<K, V> {
    open spec fn fits(&self, before: LWWMapState<K::V, V::V>, node: Seq<char>) -> bool {
        counter_of(before.clock, node) + listed(self.set).len() <= u64::MAX
    }

    /// The writes are offered and the clock ticks once for each that is
    /// taken; then the keys are removed.
    open spec fn leaves(
        &self,
        before: LWWMapState<K::V, V::V>,
        after: LWWMapState<K::V, V::V>,
        node: Seq<char>,
    ) -> bool {
        &&& after.entries == raised_all::<K::V, (u64, (String, V))>(
            before.entries,
            stamped(listed(self.set), self.timestamp, node),
        ).remove_keys(listed(self.remove).to_set())
        &&& advanced(
            before.clock,
            after.clock,
            node,
            raises_taken::<K::V, (u64, (String, V))>(
                before.entries,
                stamped(listed(self.set), self.timestamp, node),
            ),
        )
    }

    fn apply(&self, state: &mut LWWMap<K, V>, node_id: &str) -> (r: Result<(), CrdtError>) {
        if !state.vclock.has_room(node_id, count_listed(&self.set)) {
            return Err(no_room());
        }
        match &self.set {
            Some(writes) => {
                state.insert_all(node_id, writes, self.timestamp);
            },
            None => {
                proof {
                    assert(stamped(Seq::<(K::V, V::V)>::empty(), self.timestamp, node_id@)
                        =~= Seq::empty());
                }
            },
        }
        match &self.remove {
            Some(keys) => {
                state.remove_all(keys);
            },
            None => {
                proof {
                    assert(Seq::<K::V>::empty().to_set() =~= Set::<K::V>::empty());
                    assert(state@.entries =~= state@.entries.remove_keys(Set::<K::V>::empty()));
                }
            },
        }
        Ok(())
    }
}

/// Writes to make to an observed-remove map, and keys to remove from it.
#[derive(Debug, Clone, PartialEq, Eq)]
pub struct ORMapDelta<K, V> {
    pub set: Option<Vec<(K, V)>>,
    pub remove: Option<Vec<K>>,
}

impl<K: Element, V: Element> Patch<ORMap<K, V>> for ORMapDelta<K, V> {
    open spec fn fits(&self, before: ORMapState<K::V, V::V>, node: Seq<char>) -> bool {
        &&& counter_of(before.pairs.clock, node) + listed(self.set).len() <= u64::MAX
        &&& counter_of(before.clock, node) + listed(self.set).len() <= u64::MAX
    }

    /// The writes are made, each under a fresh dot; then the keys are
    /// removed.
    open spec fn leaves(
        &self,
        before: ORMapState<K::V, V::V>,
        after: ORMapState<K::V, V::V>,
        node: Seq<char>,
    ) -> bool {
        &&& after.pairs.dots == pairs_without_keys(
            pairs_written(
                before.pairs.dots,
                node,
                counter_of(before.pairs.clock, node) as nat,
                listed(self.set),
            ),
            listed(self.remove),
        )
        &&& advanced(before.pairs.clock, after.pairs.clock, node, listed(self.set).len())
        &&& advanced(before.clock, after.clock, node, listed(self.set).len())
    }

    fn apply(&self, state: &mut ORMap<K, V>, node_id: &str) -> (r: Result<(), CrdtError>) {
        let writes = count_listed(&self.set);
        if !state.vclock.has_room(node_id, writes) || !state.elements.vclock.has_room(
            node_id,
            writes,
        ) {
            return Err(no_room());
        }
        match &self.set {
            Some(pairs) => {
                state.insert_all(node_id, pairs);
            },
            None => {},
        }
        match &self.remove {
            Some(keys) => {
                state.remove_all(keys);
            },
            None => {
                proof {
                    assert(state@.pairs.dots =~= pairs_without_keys(
                        state@.pairs.dots,
                        Seq::<K::V>::empty(),
                    ));
                }
            },
        }
        Ok(())
    }
}

} // verus!
