//! The bridge between encoded states and deltas of any kind: a delta is
//! applied to the state that a buffer holds, or to a fresh state, and the
//! outcome is encoded again.

use crate::deltas::{
    FWWRegisterDelta, GCounterDelta, GSetDelta, LWWMapDelta, LWWRegisterDelta, LWWSetDelta,
    MVRegisterDelta, ORMapDelta, ORSetDelta, PNCounterDelta, Patch,
};
use crate::enums::CrdtType;
use crate::fww_register::FWWRegister;
use crate::g_counter::GCounter;
use crate::g_set::GSet;
use crate::lww_map::LWWMap;
use crate::lww_register::LWWRegister;
use crate::lww_set::LWWSet;
use crate::mv_register::MVRegister;
use crate::or_map::ORMap;
use crate::or_set::ORSet;
use crate::pn_counter::PNCounter;
use crate::traits::{CrdtError, Replica};
use vstd::prelude::*;
use vstd::string::*;

verus! {

/// A delta of any kind. Elements, keys and values are text.
#[derive(Debug, Clone, PartialEq, Eq)]
pub enum Delta {
    GCounter(GCounterDelta),
    PNCounter(PNCounterDelta),
    GSet(GSetDelta<String>),
    ORSet(ORSetDelta<String>),
    LWWSet(LWWSetDelta<String>),
    LWWRegister(LWWRegisterDelta<String>),
    FWWRegister(FWWRegisterDelta<String>),
    MVRegister(MVRegisterDelta<String>),
    LWWMap(LWWMapDelta<String, String>),
    ORMap(ORMapDelta<String, String>),
}

impl Delta {
    /// The kind of state that the delta is for.
    pub open spec fn kind_spec(&self) -> CrdtType {
        match self {
            Delta::GCounter(_) => CrdtType::GCounter,
            Delta::PNCounter(_) => CrdtType::PNCounter,
            Delta::GSet(_) => CrdtType::GSet,
            Delta::ORSet(_) => CrdtType::ORSet,
            Delta::LWWSet(_) => CrdtType::LWWSet,
            Delta::LWWRegister(_) => CrdtType::LWWRegister,
            Delta::FWWRegister(_) => CrdtType::FWWRegister,
            Delta::MVRegister(_) => CrdtType::MVRegister,
            Delta::LWWMap(_) => CrdtType::LWWMap,
            Delta::ORMap(_) => CrdtType::ORMap,
        }
    }

    /// The kind of state that the delta is for.
    pub fn kind(&self) -> (r: CrdtType)
        ensures
            r == self.kind_spec(),
    {
        match self {
            Delta::GCounter(_) => CrdtType::GCounter,
            Delta::PNCounter(_) => CrdtType::PNCounter,
            Delta::GSet(_) => CrdtType::GSet,
            Delta::ORSet(_) => CrdtType::ORSet,
            Delta::LWWSet(_) => CrdtType::LWWSet,
            Delta::LWWRegister(_) => CrdtType::LWWRegister,
            Delta::FWWRegister(_) => CrdtType::FWWRegister,
            Delta::MVRegister(_) => CrdtType::MVRegister,
            Delta::LWWMap(_) => CrdtType::LWWMap,
            Delta::ORMap(_) => CrdtType::ORMap,
        }
    }
}

/// A kind of delta as one case of `Delta`.
pub trait Variant: Sized {
    /// The delta of this kind that a delta of any kind holds, if it is of
    /// this kind.
    spec fn picked(delta: Delta) -> Option<Self>;

    /// The delta of this kind that a delta of any kind holds, if it is of
    /// this kind.
    fn pick(delta: &Delta) -> (r: Option<&Self>)
        ensures
            match r {
                Some(d) => Self::picked(*delta) == Some(*d),
                None => Self::picked(*delta) is None,
            },
    ;
}

impl Variant for GCounterDelta {
    open spec fn picked(delta: Delta) -> Option<Self> {
        match delta {
            Delta::GCounter(d) => Some(d),
            _ => None,
        }
    }

    fn pick(delta: &Delta) -> (r: Option<&Self>) {
        match delta {
            Delta::GCounter(d) => Some(d),
            _ => None,
        }
    }
}

impl Variant for PNCounterDelta {
    open spec fn picked(delta: Delta) -> Option<Self> {
        match delta {
            Delta::PNCounter(d) => Some(d),
            _ => None,
        }
    }

    fn pick(delta: &Delta) -> (r: Option<&Self>) {
        match delta {
            Delta::PNCounter(d) => Some(d),
            _ => None,
        }
    }
}

impl Variant for GSetDelta<String> {
    open spec fn picked(delta: Delta) -> Option<Self> {
        match delta {
            Delta::GSet(d) => Some(d),
            _ => None,
        }
    }

    fn pick(delta: &Delta) -> (r: Option<&Self>) {
        match delta {
            Delta::GSet(d) => Some(d),
            _ => None,
        }
    }
}

impl Variant for ORSetDelta<String> {
    open spec fn picked(delta: Delta) -> Option<Self> {
        match delta {
            Delta::ORSet(d) => Some(d),
            _ => None,
        }
    }

    fn pick(delta: &Delta) -> (r: Option<&Self>) {
        match delta {
            Delta::ORSet(d) => Some(d),
            _ => None,
        }
    }
}

impl Variant for LWWSetDelta<String> {
    open spec fn picked(delta: Delta) -> Option<Self> {
        match delta {
            Delta::LWWSet(d) => Some(d),
            _ => None,
        }
    }

    fn pick(delta: &Delta) -> (r: Option<&Self>) {
        match delta {
            Delta::LWWSet(d) => Some(d),
            _ => None,
        }
    }
}

impl Variant for LWWRegisterDelta<String> {
    open spec fn picked(delta: Delta) -> Option<Self> {
        match delta {
            Delta::LWWRegister(d) => Some(d),
            _ => None,
        }
    }

    fn pick(delta: &Delta) -> (r: Option<&Self>) {
        match delta {
            Delta::LWWRegister(d) => Some(d),
            _ => None,
        }
    }
}

impl Variant for FWWRegisterDelta<String> {
    open spec fn picked(delta: Delta) -> Option<Self> {
        match delta {
            Delta::FWWRegister(d) => Some(d),
            _ => None,
        }
    }

    fn pick(delta: &Delta) -> (r: Option<&Self>) {
        match delta {
            Delta::FWWRegister(d) => Some(d),
            _ => None,
        }
    }
}

impl Variant for MVRegisterDelta<String> {
    open spec fn picked(delta: Delta) -> Option<Self> {
        match delta {
            Delta::MVRegister(d) => Some(d),
            _ => None,
        }
    }

    fn pick(delta: &Delta) -> (r: Option<&Self>) {
        match delta {
            Delta::MVRegister(d) => Some(d),
            _ => None,
        }
    }
}

impl Variant for LWWMapDelta<String, String> {
    open spec fn picked(delta: Delta) -> Option<Self> {
        match delta {
            Delta::LWWMap(d) => Some(d),
            _ => None,
        }
    }

    fn pick(delta: &Delta) -> (r: Option<&Self>) {
        match delta {
            Delta::LWWMap(d) => Some(d),
            _ => None,
        }
    }
}

impl Variant for ORMapDelta<String, String> {
    open spec fn picked(delta: Delta) -> Option<Self> {
        match delta {
            Delta::ORMap(d) => Some(d),
            _ => None,
        }
    }

    fn pick(delta: &Delta) -> (r: Option<&Self>) {
        match delta {
            Delta::ORMap(d) => Some(d),
            _ => None,
        }
    }
}

/// How far a run of deltas has come: to a state, to a delta that was
/// refused, or nowhere because the buffer to start from cannot be read.
pub enum Outcome<S> {
    Done(S),
    Refused,
    Unreadable,
}

/// What a buffer holds, if there is one.
pub open spec fn held(current: Option<&[u8]>) -> Option<Seq<u8>> {
    match current {
        Some(bytes) => Some(bytes@),
        None => None,
    }
}

/// Whether `start` is where a run begins: at the state that the buffer
/// holds, or at an initial state where there is no buffer.
pub open spec fn begun<C: Replica>(current: Option<Seq<u8>>, start: Outcome<C::State>) -> bool {
    match current {
        Some(bytes) => match C::parse(bytes) {
            Some(s) => start == Outcome::Done(s),
            None => start == Outcome::<C::State>::Unreadable,
        },
        None => start matches Outcome::Done(s) && C::is_initial(s),
    }
}

/// Whether one delta takes a run from `before` to `after`. A run that has
/// stopped stays where it is; a delta of another kind, or one that the
/// state has no room for, is refused.
pub open spec fn stepped<C: Replica, D: Patch<C> + Variant>(
    before: Outcome<C::State>,
    delta: Delta,
    node: Seq<char>,
    after: Outcome<C::State>,
) -> bool {
    match before {
        Outcome::Done(s) => match D::picked(delta) {
            Some(d) => if d.fits(s, node) {
                after matches Outcome::Done(t) && d.leaves(s, t, node)
            } else {
                after == Outcome::<C::State>::Refused
            },
            None => after == Outcome::<C::State>::Refused,
        },
        _ => after == before,
    }
}

/// Whether the deltas of a row, one after another, take a run from `start`
/// to `end`.
pub open spec fn ran<C: Replica, D: Patch<C> + Variant>(
    start: Outcome<C::State>,
    deltas: Seq<Delta>,
    node: Seq<char>,
    end: Outcome<C::State>,
) -> bool
    decreases deltas.len(),
{
    if deltas.len() == 0 {
        end == start
    } else {
        exists|mid: Outcome<C::State>|
            ran::<C, D>(start, deltas.drop_last(), node, mid) && #[trigger] stepped::<C, D>(
                mid,
                deltas.last(),
                node,
                end,
            )
    }
}

/// Whether `r` reports where a run has ended: the encoding of the state, an
/// error for a refused delta, or an error for an unreadable buffer.
pub open spec fn ended<C: Replica>(end: Outcome<C::State>, r: Result<Vec<u8>, CrdtError>) -> bool {
    match end {
        Outcome::Done(t) => r matches Ok(out) && C::parse(out@) == Some(t),
        Outcome::Refused => r matches Err(e) && e is InvalidInput,
        Outcome::Unreadable => r matches Err(e) && e is Deserialization,
    }
}

/// Whether `r` is the outcome of applying a row of deltas to the state of a
/// buffer, or to a fresh state.
pub open spec fn batched<C: Replica, D: Patch<C> + Variant>(
    current: Option<Seq<u8>>,
    deltas: Seq<Delta>,
    node: Seq<char>,
    r: Result<Vec<u8>, CrdtError>,
) -> bool {
    exists|start: Outcome<C::State>, end: Outcome<C::State>|
        begun::<C>(current, start) && #[trigger] ran::<C, D>(start, deltas, node, end)
            && ended::<C>(end, r)
}

/// Whether `r` is the outcome of applying one delta to the state of a
/// buffer, or to a fresh state. A delta of another kind is refused before
/// the buffer is read.
pub open spec fn patched<C: Replica, D: Patch<C> + Variant>(
    current: Option<Seq<u8>>,
    delta: Delta,
    node: Seq<char>,
    r: Result<Vec<u8>, CrdtError>,
) -> bool {
    if D::picked(delta) is None {
        r matches Err(e) && e is InvalidInput
    } else {
        exists|start: Outcome<C::State>, end: Outcome<C::State>|
            begun::<C>(current, start) && #[trigger] stepped::<C, D>(start, delta, node, end)
                && ended::<C>(end, r)
    }
}

/// A run that has stopped stays where it is, whatever deltas follow.
pub proof fn lemma_run_stays<C: Replica, D: Patch<C> + Variant>(
    start: Outcome<C::State>,
    deltas: Seq<Delta>,
    node: Seq<char>,
    stop: Outcome<C::State>,
    n: int,
)
    requires
        0 <= n <= deltas.len(),
        !(stop is Done),
        ran::<C, D>(start, deltas.take(n), node, stop),
    ensures
        ran::<C, D>(start, deltas, node, stop),
    decreases deltas.len() - n,
{
    if n < deltas.len() {
        let next = deltas.take(n + 1);
        assert(next.drop_last() =~= deltas.take(n));
        assert(stepped::<C, D>(stop, next.last(), node, stop));
        lemma_run_stays::<C, D>(start, deltas, node, stop, n + 1);
    } else {
        assert(deltas.take(n) =~= deltas);
    }
}

/// The error for a delta that is not of the kind of the state.
fn mismatch() -> (e: CrdtError)
    ensures
        e is InvalidInput,
{
    CrdtError::InvalidInput(String::from_str("Delta type mismatch or invalid delta"))
}

/// The state that a buffer holds, or a fresh state where there is none.
fn start_from<C: Replica>(current: Option<&[u8]>) -> (r: Result<C, CrdtError>)
    ensures
        match r {
            Ok(x) => x.wf() && begun::<C>(held(current), Outcome::Done(x.state())),
            Err(e) => e is Deserialization && begun::<C>(
                held(current),
                Outcome::<C::State>::Unreadable,
            ),
        },
{
    match current {
        Some(bytes) => C::from_bytes(bytes),
        None => Ok(C::fresh()),
    }
}

/// Applies one delta to the state of a buffer, or to a fresh state, and
/// encodes the outcome.
pub fn patch<C: Replica, D: Patch<C> + Variant>(
    current: Option<&[u8]>,
    delta: &Delta,
    node_id: &str,
) -> (r: Result<Vec<u8>, CrdtError>)
    ensures
        patched::<C, D>(held(current), *delta, node_id@, r),
{
    let change = match D::pick(delta) {
        Some(change) => change,
        None => { return Err(mismatch()); },
    };
    let mut state: C = match start_from::<C>(current) {
        Ok(state) => state,
        Err(e) => {
            let r = Err(e);
            proof {
                let stop = Outcome::<C::State>::Unreadable;
                assert(stepped::<C, D>(stop, *delta, node_id@, stop));
                assert(ended::<C>(stop, r));
            }
            return r;
        },
    };
    let ghost start = Outcome::Done(state.state());
    match change.apply(&mut state, node_id) {
        Ok(_) => {
            let r = Ok(state.to_capnp_bytes());
            proof {
                let end = Outcome::Done(state.state());
                assert(stepped::<C, D>(start, *delta, node_id@, end));
                assert(ended::<C>(end, r));
            }
            r
        },
        Err(e) => {
            let r = Err(e);
            proof {
                let end = Outcome::<C::State>::Refused;
                assert(stepped::<C, D>(start, *delta, node_id@, end));
                assert(ended::<C>(end, r));
            }
            r
        },
    }
}

/// Applies a row of deltas, one after another, to the state of a buffer, or
/// to a fresh state, and encodes the outcome. The first delta that is
/// refused ends the run.
pub fn batch<C: Replica, D: Patch<C> + Variant>(
    current: Option<&[u8]>,
    deltas: &[Delta],
    node_id: &str,
) -> (r: Result<Vec<u8>, CrdtError>)
    ensures
        batched::<C, D>(held(current), deltas@, node_id@, r),
{
    let ghost row = deltas@;
    let mut state: C = match start_from::<C>(current) {
        Ok(state) => state,
        Err(e) => {
            let r = Err(e);
            proof {
                let stop = Outcome::<C::State>::Unreadable;
                assert(row.take(0) =~= Seq::<Delta>::empty());
                lemma_run_stays::<C, D>(stop, row, node_id@, stop, 0);
                assert(ended::<C>(stop, r));
            }
            return r;
        },
    };
    let ghost start = Outcome::Done(state.state());
    let n = deltas.len();
    let mut i: usize = 0;
    proof {
        assert(row.take(0) =~= Seq::<Delta>::empty());
    }
    while i < n
        invariant
            i <= n,
            n == deltas@.len(),
            row == deltas@,
            state.wf(),
            begun::<C>(held(current), start),
            ran::<C, D>(start, row.take(i as int), node_id@, Outcome::Done(state.state())),
        decreases n - i,
    {
        let ghost before = Outcome::Done(state.state());
        proof {
            assert(row.take(i + 1).drop_last() =~= row.take(i as int));
            assert(row.take(i + 1).last() == row[i as int]);
        }
        let applied = match D::pick(&deltas[i]) {
            Some(change) => change.apply(&mut state, node_id),
            None => Err(mismatch()),
        };
        match applied {
            Ok(_) => {
                proof {
                    assert(stepped::<C, D>(
                        before,
                        row[i as int],
                        node_id@,
                        Outcome::Done(state.state()),
                    ));
                }
            },
            Err(e) => {
                let r = Err(e);
                proof {
                    let stop = Outcome::<C::State>::Refused;
                    assert(stepped::<C, D>(before, row[i as int], node_id@, stop));
                    lemma_run_stays::<C, D>(start, row, node_id@, stop, i + 1);
                    assert(ended::<C>(stop, r));
                }
                return r;
            },
        }
        i = i + 1;
    }
    let r = Ok(state.to_capnp_bytes());
    proof {
        assert(row.take(n as int) =~= row);
        assert(ended::<C>(Outcome::Done(state.state()), r));
    }
    r
}

/// Whether `r` is the outcome of applying one delta to an encoded state of
/// a kind.
pub open spec fn patched_kind(
    kind: CrdtType,
    current: Option<Seq<u8>>,
    delta: Delta,
    node: Seq<char>,
    r: Result<Vec<u8>, CrdtError>,
) -> bool {
    match kind {
        CrdtType::GCounter => patched::<GCounter, GCounterDelta>(current, delta, node, r),
        CrdtType::PNCounter => patched::<PNCounter, PNCounterDelta>(current, delta, node, r),
        CrdtType::GSet => patched::<GSet<String>, GSetDelta<String>>(current, delta, node, r),
        CrdtType::ORSet => patched::<ORSet<String>, ORSetDelta<String>>(current, delta, node, r),
        CrdtType::LWWSet => patched::<LWWSet<String>, LWWSetDelta<String>>(
            current,
            delta,
            node,
            r,
        ),
        CrdtType::LWWRegister => patched::<LWWRegister<String>, LWWRegisterDelta<String>>(
            current,
            delta,
            node,
            r,
        ),
        CrdtType::FWWRegister => patched::<FWWRegister<String>, FWWRegisterDelta<String>>(
            current,
            delta,
            node,
            r,
        ),
        CrdtType::MVRegister => patched::<MVRegister<String>, MVRegisterDelta<String>>(
            current,
            delta,
            node,
            r,
        ),
        CrdtType::LWWMap => patched::<LWWMap<String, String>, LWWMapDelta<String, String>>(
            current,
            delta,
            node,
            r,
        ),
        CrdtType::ORMap => patched::<ORMap<String, String>, ORMapDelta<String, String>>(
            current,
            delta,
            node,
            r,
        ),
    }
}

/// Whether `r` is the outcome of applying a row of deltas to an encoded
/// state of a kind.
pub open spec fn batched_kind(
    kind: CrdtType,
    current: Option<Seq<u8>>,
    deltas: Seq<Delta>,
    node: Seq<char>,
    r: Result<Vec<u8>, CrdtError>,
) -> bool {
    match kind {
        CrdtType::GCounter => batched::<GCounter, GCounterDelta>(current, deltas, node, r),
        CrdtType::PNCounter => batched::<PNCounter, PNCounterDelta>(current, deltas, node, r),
        CrdtType::GSet => batched::<GSet<String>, GSetDelta<String>>(current, deltas, node, r),
        CrdtType::ORSet => batched::<ORSet<String>, ORSetDelta<String>>(current, deltas, node, r),
        CrdtType::LWWSet => batched::<LWWSet<String>, LWWSetDelta<String>>(
            current,
            deltas,
            node,
            r,
        ),
        CrdtType::LWWRegister => batched::<LWWRegister<String>, LWWRegisterDelta<String>>(
            current,
            deltas,
            node,
            r,
        ),
        CrdtType::FWWRegister => batched::<FWWRegister<String>, FWWRegisterDelta<String>>(
            current,
            deltas,
            node,
            r,
        ),
        CrdtType::MVRegister => batched::<MVRegister<String>, MVRegisterDelta<String>>(
            current,
            deltas,
            node,
            r,
        ),
        CrdtType::LWWMap => batched::<LWWMap<String, String>, LWWMapDelta<String, String>>(
            current,
            deltas,
            node,
            r,
        ),
        CrdtType::ORMap => batched::<ORMap<String, String>, ORMapDelta<String, String>>(
            current,
            deltas,
            node,
            r,
        ),
    }
}

/// Applies a delta to the encoded state of a kind, or to a fresh state of
/// that kind, and encodes the outcome. A delta of another kind is refused.
pub fn apply_capnp_delta(
    crdt_type: CrdtType,
    current_state_bytes: Option<&[u8]>,
    delta: &Delta,
    node_id: &str,
) -> (r: Result<Vec<u8>, CrdtError>)
    ensures
        patched_kind(crdt_type, held(current_state_bytes), *delta, node_id@, r),
{
    match crdt_type {
        CrdtType::GCounter => patch::<GCounter, GCounterDelta>(
            current_state_bytes,
            delta,
            node_id,
        ),
        CrdtType::PNCounter => patch::<PNCounter, PNCounterDelta>(
            current_state_bytes,
            delta,
            node_id,
        ),
        CrdtType::GSet => patch::<GSet<String>, GSetDelta<String>>(
            current_state_bytes,
            delta,
            node_id,
        ),
        CrdtType::ORSet => patch::<ORSet<String>, ORSetDelta<String>>(
            current_state_bytes,
            delta,
            node_id,
        ),
        CrdtType::LWWSet => patch::<LWWSet<String>, LWWSetDelta<String>>(
            current_state_bytes,
            delta,
            node_id,
        ),
        CrdtType::LWWRegister => patch::<LWWRegister<String>, LWWRegisterDelta<String>>(
            current_state_bytes,
            delta,
            node_id,
        ),
        CrdtType::FWWRegister => patch::<FWWRegister<String>, FWWRegisterDelta<String>>(
            current_state_bytes,
            delta,
            node_id,
        ),
        CrdtType::MVRegister => patch::<MVRegister<String>, MVRegisterDelta<String>>(
            current_state_bytes,
            delta,
            node_id,
        ),
        CrdtType::LWWMap => patch::<LWWMap<String, String>, LWWMapDelta<String, String>>(
            current_state_bytes,
            delta,
            node_id,
        ),
        CrdtType::ORMap => patch::<ORMap<String, String>, ORMapDelta<String, String>>(
            current_state_bytes,
            delta,
            node_id,
        ),
    }
}

/// Applies a row of deltas, one after another, to the encoded state of a
/// kind, or to a fresh state of that kind, and encodes the outcome. The
/// first delta that is refused ends the run.
pub fn apply_batch_capnp_deltas(
    crdt_type: CrdtType,
    current_state_bytes: Option<&[u8]>,
    deltas: &[Delta],
    node_id: &str,
) -> (r: Result<Vec<u8>, CrdtError>)
    ensures
        batched_kind(crdt_type, held(current_state_bytes), deltas@, node_id@, r),
{
    match crdt_type {
        CrdtType::GCounter => batch::<GCounter, GCounterDelta>(
            current_state_bytes,
            deltas,
            node_id,
        ),
        CrdtType::PNCounter => batch::<PNCounter, PNCounterDelta>(
            current_state_bytes,
            deltas,
            node_id,
        ),
        CrdtType::GSet => batch::<GSet<String>, GSetDelta<String>>(
            current_state_bytes,
            deltas,
            node_id,
        ),
        CrdtType::ORSet => batch::<ORSet<String>, ORSetDelta<String>>(
            current_state_bytes,
            deltas,
            node_id,
        ),
        CrdtType::LWWSet => batch::<LWWSet<String>, LWWSetDelta<String>>(
            current_state_bytes,
            deltas,
            node_id,
        ),
        CrdtType::LWWRegister => batch::<LWWRegister<String>, LWWRegisterDelta<String>>(
            current_state_bytes,
            deltas,
            node_id,
        ),
        CrdtType::FWWRegister => batch::<FWWRegister<String>, FWWRegisterDelta<String>>(
            current_state_bytes,
            deltas,
            node_id,
        ),
        CrdtType::MVRegister => batch::<MVRegister<String>, MVRegisterDelta<String>>(
            current_state_bytes,
            deltas,
            node_id,
        ),
        CrdtType::LWWMap => batch::<LWWMap<String, String>, LWWMapDelta<String, String>>(
            current_state_bytes,
            deltas,
            node_id,
        ),
        CrdtType::ORMap => batch::<ORMap<String, String>, ORMapDelta<String, String>>(
            current_state_bytes,
            deltas,
            node_id,
        ),
    }
}

/// The bridge by name: its functions as associated functions.
pub struct SerdeCapnpBridge;

impl SerdeCapnpBridge {
    /// Applies a delta to the encoded state of a kind, or to a fresh state
    /// of that kind, and encodes the outcome.
    pub fn apply_capnp_delta(
        crdt_type: CrdtType,
        current_state_bytes: Option<&[u8]>,
        delta: &Delta,
        node_id: &str,
    ) -> (r: Result<Vec<u8>, CrdtError>)
        ensures
            patched_kind(crdt_type, held(current_state_bytes), *delta, node_id@, r),
    {
        apply_capnp_delta(crdt_type, current_state_bytes, delta, node_id)
    }

    /// Applies a row of deltas, one after another, to the encoded state of
    /// a kind, or to a fresh state of that kind, and encodes the outcome.
    pub fn apply_batch_capnp_deltas(
        crdt_type: CrdtType,
        current_state_bytes: Option<&[u8]>,
        deltas: &[Delta],
        node_id: &str,
    ) -> (r: Result<Vec<u8>, CrdtError>)
        ensures
            batched_kind(crdt_type, held(current_state_bytes), deltas@, node_id@, r),
    {
        apply_batch_capnp_deltas(crdt_type, current_state_bytes, deltas, node_id)
    }
}

} // verus!
