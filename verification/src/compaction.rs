//! Compaction: many encoded states of one kind become one encoded state,
//! their merge.

use crate::enums::CrdtType;
use crate::fww_register::FWWRegister;
use crate::g_counter::GCounter;
use crate::g_set::GSet;
use crate::lww_map::LWWMap;
use crate::lww_register::LWWRegister;
use crate::lww_set::LWWSet;
use crate::mv_register::MVRegister;
use crate::or_map::ORMap;
use crate::or_set::ORSet;
use crate::pn_counter::PNCounter;
use crate::traits::{merge_slices, merged_buffers, slice_views, CrdtError, Replica};
use vstd::prelude::*;
use vstd::string::*;

verus! {

/// Whether `r` is the outcome of compacting a row of buffers of the type
/// `C`: the encoding of the merge of what the buffers hold, or an error
/// where one of them cannot be read.
pub open spec fn compacts<C: Replica>(row: Seq<Seq<u8>>, r: Result<Vec<u8>, CrdtError>) -> bool {
    match merged_buffers::<C>(row) {
        Some(s) => r matches Ok(bytes) && C::parse(bytes@) == Some(s),
        None => r matches Err(e) && e is Deserialization,
    }
}

/// Whether `r` is the outcome of compacting a row of buffers of a kind.
/// Elements, keys and values are text.
pub open spec fn compacts_kind(kind: CrdtType, row: Seq<Seq<u8>>, r: Result<Vec<u8>, CrdtError>)
    -> bool {
    match kind {
        CrdtType::GCounter => compacts::<GCounter>(row, r),
        CrdtType::PNCounter => compacts::<PNCounter>(row, r),
        CrdtType::GSet => compacts::<GSet<String>>(row, r),
        CrdtType::ORSet => compacts::<ORSet<String>>(row, r),
        CrdtType::LWWSet => compacts::<LWWSet<String>>(row, r),
        CrdtType::LWWRegister => compacts::<LWWRegister<String>>(row, r),
        CrdtType::FWWRegister => compacts::<FWWRegister<String>>(row, r),
        CrdtType::MVRegister => compacts::<MVRegister<String>>(row, r),
        CrdtType::LWWMap => compacts::<LWWMap<String, String>>(row, r),
        CrdtType::ORMap => compacts::<ORMap<String, String>>(row, r),
    }
}

/// Merges the states of a row of buffers of the type `C` and encodes the
/// merge.
pub fn compact<C: Replica>(buffers: &[&[u8]]) -> (r: Result<Vec<u8>, CrdtError>)
    requires
        buffers@.len() > 0,
    ensures
        compacts::<C>(slice_views(buffers@), r),
{
    match merge_slices::<C>(buffers) {
        Ok(merged) => Ok(merged.to_capnp_bytes()),
        Err(e) => Err(e),
    }
}

/// Merges the states of a row of buffers of a kind and encodes the merge.
pub fn compact_kind(kind: CrdtType, buffers: &[&[u8]]) -> (r: Result<Vec<u8>, CrdtError>)
    requires
        buffers@.len() > 0,
    ensures
        compacts_kind(kind, slice_views(buffers@), r),
{
    match kind {
        CrdtType::GCounter => compact::<GCounter>(buffers),
        CrdtType::PNCounter => compact::<PNCounter>(buffers),
        CrdtType::GSet => compact::<GSet<String>>(buffers),
        CrdtType::ORSet => compact::<ORSet<String>>(buffers),
        CrdtType::LWWSet => compact::<LWWSet<String>>(buffers),
        CrdtType::LWWRegister => compact::<LWWRegister<String>>(buffers),
        CrdtType::FWWRegister => compact::<FWWRegister<String>>(buffers),
        CrdtType::MVRegister => compact::<MVRegister<String>>(buffers),
        CrdtType::LWWMap => compact::<LWWMap<String, String>>(buffers),
        CrdtType::ORMap => compact::<ORMap<String, String>>(buffers),
    }
}

/// Compacts a row of encoded states of the kind named `crdt_type` into one
/// encoded state. No buffer gives no bytes; an unknown name is an error.
pub fn compact_capnp_bytes(crdt_type: &str, buffers: &[&[u8]]) -> (r: Result<
    Vec<u8>,
    CrdtError,
>)
    ensures
        buffers@.len() == 0 ==> (r matches Ok(bytes) && bytes@.len() == 0),
        buffers@.len() > 0 ==> match CrdtType::of_exact(crdt_type@) {
            Some(kind) => compacts_kind(kind, slice_views(buffers@), r),
            None => r matches Err(e) && e is InvalidInput,
        },
{
    if buffers.len() == 0 {
        return Ok(Vec::new());
    }
    match CrdtType::from_exact(crdt_type) {
        Some(kind) => compact_kind(kind, buffers),
        None => Err(
            CrdtError::InvalidInput(
                String::from_str("Compaction not supported for type: ").concat(crdt_type),
            ),
        ),
    }
}

} // verus!
