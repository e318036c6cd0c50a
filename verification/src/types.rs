//! Basic identifiers of the loglet protocol: offsets and node ids.

use vstd::prelude::*;

verus! {

/// The sentinel offset: never a legal record position.
pub const OFFSET_INVALID: u64 = 0;

/// The first legal record position of a loglet.
pub const OFFSET_OLDEST: u64 = 1;

/// The larger of two offsets.
pub open spec fn offset_max(a: u64, b: u64) -> u64 {
    if a >= b {
        a
    } else {
        b
    }
}

/// The smaller of two offsets.
pub open spec fn offset_min(a: u64, b: u64) -> u64 {
    if a <= b {
        a
    } else {
        b
    }
}

/// Executable maximum of two offsets.
pub fn max_offset(a: u64, b: u64) -> (r: u64)
    ensures
        r == offset_max(a, b),
{
    if a >= b {
        a
    } else {
        b
    }
}

/// Executable minimum of two offsets.
pub fn min_offset(a: u64, b: u64) -> (r: u64)
    ensures
        r == offset_min(a, b),
{
    if a <= b {
        a
    } else {
        b
    }
}

/// Identity of a node incarnation: a stable node id paired with a generation.
/// Equality is strict on both fields. The sequencer of a loglet and the peer
/// of every request are identified this way.
#[derive(Clone, Copy, Debug, PartialEq, Eq, Structural)]
pub struct GenerationalNodeId {
    pub id: u32,
    pub generation: u32,
}

impl GenerationalNodeId {
    pub fn new(id: u32, generation: u32) -> (r: GenerationalNodeId)
        ensures
            r.id == id,
            r.generation == generation,
    {
        GenerationalNodeId { id, generation }
    }
}

/// A snapshot of the local tail: the first offset not yet durably stored,
/// together with the seal flag.
#[derive(Clone, Copy, Debug, PartialEq, Eq, Structural)]
pub struct TailView {
    pub offset: u64,
    pub sealed: bool,
}

} // verus!
