//! Request and response bodies of the loglet protocol, and the envelope that
//! carries a request from a peer.

use vstd::prelude::*;
use crate::types::GenerationalNodeId;
use crate::records::{KeyFilter, Record};

verus! {

/// The status a response carries back to the peer.
#[derive(Clone, Copy, Debug, PartialEq, Eq, Structural)]
pub enum Status {
    Okay,
    Sealed,
    Sealing,
    Dropped,
    Malformed,
    SequencerMismatch,
    OutOfBounds,
    Disabled,
}

/// A store request: append `payloads` starting at `first_offset`.
pub struct Store {
    pub loglet_id: u64,
    /// Absolute deadline; a store held past it is dropped at admission.
    pub timeout_at: Option<u64>,
    pub sequencer: GenerationalNodeId,
    pub known_archived: u64,
    pub known_global_tail: u64,
    pub first_offset: u64,
    /// Reserved repair-path flag; such stores still wait out an in-flight seal.
    pub ignore_seal: bool,
    pub payloads: Vec<Record>,
}

impl Store {
    /// The offset of the last record of this store, if it is representable.
    pub open spec fn last_offset_spec(&self) -> Option<u64> {
        if self.payloads@.len() == 0 {
            Option::None
        } else if self.first_offset + self.payloads@.len() - 1 < u64::MAX {
            Option::Some((self.first_offset + self.payloads@.len() - 1) as u64)
        } else {
            Option::None
        }
    }

    /// Whether this store's deadline has passed at time `now`.
    pub open spec fn expired_spec(&self, now: u64) -> bool {
        match self.timeout_at {
            Option::Some(t) => t < now,
            Option::None => false,
        }
    }
}

/// A seal request: freeze the loglet at its current tail.
pub struct Seal {
    pub loglet_id: u64,
    pub sequencer: GenerationalNodeId,
    pub known_global_tail: u64,
}

/// A release notice: the peer's view of the global tail. Carries no response.
pub struct Release {
    pub loglet_id: u64,
    pub known_global_tail: u64,
}

/// A trim request: forget everything up to and including `trim_point`.
pub struct Trim {
    pub loglet_id: u64,
    pub known_global_tail: u64,
    pub trim_point: u64,
}

/// A request for the loglet's tail, trim point and seal flag.
pub struct GetLogletInfo {
    pub loglet_id: u64,
    pub known_global_tail: u64,
}

/// A read request over `[from_offset, to_offset]`, with a key filter and an
/// optional byte budget for the response.
pub struct GetRecords {
    pub loglet_id: u64,
    pub filter: KeyFilter,
    pub total_limit_in_bytes: Option<usize>,
    pub known_global_tail: u64,
    pub from_offset: u64,
    pub to_offset: u64,
}

/// One entry of a read response: a data record, or a gap the reader skips.
pub enum MaybeRecord {
    Data(Record),
    /// Offsets up to `to` are permanently trimmed away.
    TrimGap { to: u64 },
    /// Offsets up to `to` held only records that fail the filter.
    FilteredGap { to: u64 },
}

/// Response to a store.
#[derive(Clone, Copy, Debug, PartialEq, Eq, Structural)]
pub struct Stored {
    pub local_tail: u64,
    pub sealed: bool,
    pub status: Status,
}

/// Response to a seal.
#[derive(Clone, Copy, Debug, PartialEq, Eq, Structural)]
pub struct Sealed {
    pub local_tail: u64,
    pub sealed: bool,
    pub status: Status,
}

/// Response to a loglet-info request.
#[derive(Clone, Copy, Debug, PartialEq, Eq, Structural)]
pub struct LogletInfo {
    pub local_tail: u64,
    pub trim_point: u64,
    pub sealed: bool,
    pub status: Status,
}

/// Response to a read: the emitted entries in order, and the offset at which
/// the reader would resume.
pub struct Records {
    pub local_tail: u64,
    pub sealed: bool,
    pub next_offset: u64,
    pub records: Vec<(u64, MaybeRecord)>,
    pub status: Status,
}

/// Response to a trim.
#[derive(Clone, Copy, Debug, PartialEq, Eq, Structural)]
pub struct Trimmed {
    pub local_tail: u64,
    pub sealed: bool,
    pub status: Status,
}

/// A request as received from the transport: the peer that sent it, a
/// correlation id for its response, and the decoded body.
pub struct Envelope<T> {
    pub peer: GenerationalNodeId,
    pub msg_id: u64,
    pub body: T,
}

/// The body of an outbound response.
pub enum ResponseBody {
    Stored(Stored),
    Sealed(Sealed),
    LogletInfo(LogletInfo),
    Records(Records),
    Trimmed(Trimmed),
}

/// An outbound response, addressed by the peer and correlation id of the
/// request it answers.
pub struct Response {
    pub peer: GenerationalNodeId,
    pub msg_id: u64,
    pub body: ResponseBody,
}

} // verus!
