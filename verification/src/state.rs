//! The in-memory authority for one loglet: local tail, trim point, seal flag
//! and recorded sequencer, plus the monotone published view of the global
//! tail.

use vstd::prelude::*;
use crate::types::{GenerationalNodeId, TailView, offset_max, max_offset, OFFSET_OLDEST};

verus! {

/// In-memory state of one loglet.
///
/// The local tail is the first offset not yet durably stored; it never moves
/// backward. The trim point is the highest offset known to be permanently
/// unreadable; it stays strictly below the local tail and never moves
/// backward. Once sealed, the loglet stays sealed. The sequencer is recorded
/// at most once.
pub struct LogletState {
    pub local_tail: u64,
    pub sealed: bool,
    pub trim_point: u64,
    pub sequencer: Option<GenerationalNodeId>,
}

/// How one observation of a loglet's state may relate to a later one:
/// the tail and the trim point never move backward, and the seal flag never
/// clears.
pub open spec fn state_monotone(earlier: LogletState, later: LogletState) -> bool {
    &&& earlier.local_tail <= later.local_tail
    &&& (earlier.sealed ==> later.sealed)
    &&& earlier.trim_point <= later.trim_point
}

impl LogletState {
    /// Well-formedness: the tail is a legal position and the trim point lies
    /// strictly below it.
    pub open spec fn wf(&self) -> bool {
        &&& OFFSET_OLDEST <= self.local_tail
        &&& self.trim_point < self.local_tail
    }

    /// A fresh, never-written loglet.
    pub fn new() -> (r: LogletState)
        ensures
            r.wf(),
            r.local_tail == OFFSET_OLDEST,
            !r.sealed,
            r.trim_point == 0,
            r.sequencer is None,
    {
        LogletState {
            local_tail: OFFSET_OLDEST,
            sealed: false,
            trim_point: 0,
            sequencer: Option::None,
        }
    }

    /// The current trim point.
    pub fn trim_point(&self) -> (r: u64)
        ensures
            r == self.trim_point,
    {
        self.trim_point
    }

    /// Whether the loglet is sealed.
    pub fn is_sealed(&self) -> (r: bool)
        ensures
            r == self.sealed,
    {
        self.sealed
    }

    /// The recorded sequencer, if one was recorded.
    pub fn sequencer(&self) -> (r: Option<GenerationalNodeId>)
        ensures
            r == self.sequencer,
    {
        self.sequencer
    }

    /// A snapshot of the local tail.
    pub fn tail_view(&self) -> (r: TailView)
        ensures
            r.offset == self.local_tail,
            r.sealed == self.sealed,
    {
        TailView { offset: self.local_tail, sealed: self.sealed }
    }

    /// Records the sequencer if it is still unset. Callers must already have
    /// filtered mismatching sequencers: once set, the identity never changes.
    pub fn set_sequencer(&mut self, id: GenerationalNodeId) -> (changed: bool)
        requires
            old(self).sequencer is None || old(self).sequencer == Some(id),
        ensures
            final(self).sequencer == Some(id),
            changed == (old(self).sequencer is None),
            final(self).local_tail == old(self).local_tail,
            final(self).sealed == old(self).sealed,
            final(self).trim_point == old(self).trim_point,
            state_monotone(*old(self), *final(self)),
    {
        let changed = self.sequencer.is_none();
        self.sequencer = Option::Some(id);
        changed
    }

    /// Advances the trim point to `new` if that is an advance; a no-op
    /// otherwise. Returns whether the value advanced.
    pub fn update_trim_point(&mut self, new: u64) -> (advanced: bool)
        requires
            new < old(self).local_tail,
        ensures
            final(self).trim_point == offset_max(old(self).trim_point, new),
            advanced == (new > old(self).trim_point),
            final(self).local_tail == old(self).local_tail,
            final(self).sealed == old(self).sealed,
            final(self).sequencer == old(self).sequencer,
            old(self).wf() ==> final(self).wf(),
            state_monotone(*old(self), *final(self)),
    {
        if new > self.trim_point {
            self.trim_point = new;
            true
        } else {
            false
        }
    }

    /// Publishes a new durable tail. The published view is monotone: an
    /// update below the current tail leaves it unchanged.
    pub fn notify_offset_update(&mut self, offset: u64)
        ensures
            final(self).local_tail == offset_max(old(self).local_tail, offset),
            final(self).sealed == old(self).sealed,
            final(self).trim_point == old(self).trim_point,
            final(self).sequencer == old(self).sequencer,
            old(self).wf() ==> final(self).wf(),
            state_monotone(*old(self), *final(self)),
    {
        if offset > self.local_tail {
            self.local_tail = offset;
        }
    }

    /// Publishes the seal. Irreversible; idempotent.
    pub fn notify_seal(&mut self)
        ensures
            final(self).sealed,
            final(self).local_tail == old(self).local_tail,
            final(self).trim_point == old(self).trim_point,
            final(self).sequencer == old(self).sequencer,
            old(self).wf() ==> final(self).wf(),
            state_monotone(*old(self), *final(self)),
    {
        self.sealed = true;
    }
}

/// The transitivity behind the monotone-observation guarantee: whatever holds
/// between two observations and between the second and a third holds between
/// the first and the third. Any two points of a run are therefore ordered by
/// `state_monotone` whenever every single step is.
pub proof fn lemma_state_monotone_transitive(a: LogletState, b: LogletState, c: LogletState)
    requires
        state_monotone(a, b),
        state_monotone(b, c),
    ensures
        state_monotone(a, c),
{
}

/// The monotone published view of the loglet's known global tail. Observers
/// may update it concurrently; it never regresses.
pub struct GlobalTailTracker {
    pub latest: u64,
}

impl GlobalTailTracker {
    pub fn new() -> (r: GlobalTailTracker)
        ensures
            r.latest == OFFSET_OLDEST,
    {
        GlobalTailTracker { latest: OFFSET_OLDEST }
    }

    /// Raises the published value to `offset` if that is an advance.
    pub fn maybe_update(&mut self, offset: u64)
        ensures
            final(self).latest == offset_max(old(self).latest, offset),
    {
        self.latest = max_offset(self.latest, offset);
    }

    /// The current published value.
    pub fn get(&self) -> (r: u64)
        ensures
            r == self.latest,
    {
        self.latest
    }
}

} // verus!
