//! Conflict-free replicated data types: counters, sets, registers and maps
//! that replicas update on their own and merge without coordination. The
//! merges are proved idempotent, commutative and associative, and the wire
//! encoding is proved to read back to the state that was written.

pub mod bridge;
pub mod compaction;
pub mod deltas;
pub mod dots;
pub mod element;
pub mod enums;
pub mod fww_register;
pub mod g_counter;
pub mod g_set;
pub mod lww_map;
pub mod lww_register;
pub mod lww_set;
pub mod maximum;
pub mod mv_register;
pub mod or_map;
pub mod or_set;
pub mod ordered_map;
pub mod pn_counter;
pub mod text;
mod time;
pub mod traits;
pub mod vector_clock;
pub mod wire;

pub use bridge::{Delta, SerdeCapnpBridge};
pub use deltas::{
    FWWRegisterDelta, GCounterDelta, GSetDelta, LWWMapDelta, LWWRegisterDelta, LWWSetDelta,
    MVRegisterDelta, ORMapDelta, ORSetDelta, PNCounterDelta, Patch,
};
pub use element::Element;
pub use enums::{CrdtType, ProbabilisticCrdtType};
pub use fww_register::{FWWRegister, FWWRegisterReader};
pub use g_counter::{GCounter, GCounterReader};
pub use g_set::{GSet, GSetReader};
pub use lww_map::{LWWMap, LWWMapReader};
pub use lww_register::{LWWRegister, LWWRegisterReader};
pub use lww_set::{LWWSet, LWWSetReader};
pub use mv_register::{MVRegister, MVRegisterReader};
pub use or_map::{ORMap, ORMapReader};
pub use or_set::{ORSet, ORSetReader};
pub use ordered_map::OrderedMap;
pub use pn_counter::{PNCounter, PNCounterReader};
pub use traits::{Crdt, CrdtError, CrdtReader, Replica};
pub use vector_clock::{VectorClock, VectorClockReader};
