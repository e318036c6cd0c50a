//! The durable log store behind one loglet, modeled in memory.
//!
//! The store keeps the durable record run, the persisted trim point, the
//! durable seal marker and the persisted sequencer, together with a queue of
//! operations that have been handed over but not yet made durable. Each
//! enqueue hands back a completion token; completing the queue's head applies
//! it to the durable state. A store that has entered fail-safe accepts no
//! further work and applies nothing.

use vstd::prelude::*;
use crate::types::{GenerationalNodeId, offset_max, OFFSET_OLDEST};
use crate::records::Record;
use crate::state::LogletState;

verus! {

/// An operation handed to the log store, awaiting durability.
pub enum LogStoreOp {
    StoreOp {
        first_offset: u64,
        payloads: Vec<Record>,
        persist_sequencer: bool,
        sequencer: GenerationalNodeId,
    },
    SealOp,
    TrimOp { trim_point: u64 },
}

/// Whether an offset is present in a record run.
pub open spec fn has_off(s: Seq<(u64, Record)>, o: u64) -> bool {
    exists|i: int| 0 <= i < s.len() && s[i].0 == o
}

/// The index of an offset in a record run.
pub open spec fn idx_of(s: Seq<(u64, Record)>, o: u64) -> int {
    choose|i: int| 0 <= i < s.len() && s[i].0 == o
}

/// The record stored at an offset of a record run.
pub open spec fn rec_at(s: Seq<(u64, Record)>, o: u64) -> Record {
    s[idx_of(s, o)].1
}

/// No offset occurs twice in the run.
pub open spec fn offs_unique(s: Seq<(u64, Record)>) -> bool {
    forall|i: int, j: int|
        0 <= i < s.len() && 0 <= j < s.len() && #[trigger] s[i].0 == #[trigger] s[j].0 ==> i == j
}

/// Two records that carry the same keys and the same payload bytes.
pub open spec fn same_record(a: Record, b: Record) -> bool {
    a.keys == b.keys && a.payload@ == b.payload@
}

/// The in-memory model of the durable log store for one loglet.
pub struct MemLogStore {
    /// The durable records, offsets unique, in no particular order.
    pub records: Vec<(u64, Record)>,
    /// The persisted trim point; zero when never trimmed.
    pub trim_point: u64,
    /// The durable seal marker.
    pub sealed: bool,
    /// The persisted sequencer identity.
    pub sequencer: Option<GenerationalNodeId>,
    /// Operations handed over but not yet durable, oldest first, each tagged
    /// with its completion token.
    pub pending: Vec<(u64, LogStoreOp)>,
    /// The token the next enqueue will receive.
    pub next_token: u64,
    /// Fail-safe flag: once set, the store accepts and applies nothing.
    pub disabled: bool,
}

impl MemLogStore {
    /// Well-formedness of the store model.
    pub open spec fn wf(&self) -> bool {
        &&& offs_unique(self.records@)
        &&& forall|o: u64| has_off(self.records@, o) ==> OFFSET_OLDEST <= o < u64::MAX
        &&& forall|i: int|
            0 <= i < self.pending@.len() ==> #[trigger] self.pending@[i].0 < self.next_token
        &&& forall|i: int, j: int|
            0 <= i < j < self.pending@.len() ==> #[trigger] self.pending@[i].0 < #[trigger] self.pending@[j].0
    }

    /// A fresh, empty, enabled store.
    pub fn new() -> (r: MemLogStore)
        ensures
            r.wf(),
            r.records@.len() == 0,
            r.trim_point == 0,
            !r.sealed,
            r.sequencer is None,
            r.pending@.len() == 0,
            !r.disabled,
    {
        MemLogStore {
            records: Vec::new(),
            trim_point: 0,
            sealed: false,
            sequencer: Option::None,
            pending: Vec::new(),
            next_token: 0,
            disabled: false,
        }
    }

    /// Whether the store can still accept work: it is not in fail-safe and
    /// has a completion token left to hand out.
    pub open spec fn accepts_work(&self) -> bool {
        !self.disabled && self.next_token < u64::MAX
    }

    /// Nothing besides the pending queue and the token counter changed.
    pub open spec fn durable_unchanged(old_s: &MemLogStore, new_s: &MemLogStore) -> bool {
        &&& new_s.records == old_s.records
        &&& new_s.trim_point == old_s.trim_point
        &&& new_s.sealed == old_s.sealed
        &&& new_s.sequencer == old_s.sequencer
        &&& new_s.disabled == old_s.disabled
    }

    /// Puts the store into fail-safe. Irreversible.
    pub fn disable(&mut self)
        ensures
            final(self).disabled,
            final(self).records == old(self).records,
            final(self).trim_point == old(self).trim_point,
            final(self).sealed == old(self).sealed,
            final(self).sequencer == old(self).sequencer,
            final(self).pending == old(self).pending,
            final(self).next_token == old(self).next_token,
            old(self).wf() ==> final(self).wf(),
    {
        self.disabled = true;
    }

    /// Whether operations are still awaiting durability.
    pub fn has_pending(&self) -> (r: bool)
        ensures
            r == (self.pending@.len() > 0),
    {
        self.pending.len() > 0
    }

    /// Hands an operation to the store. Returns its completion token, or
    /// refuses when the store accepts no work.
    fn enqueue(&mut self, op: LogStoreOp) -> (r: Result<u64, ()>)
        requires
            old(self).wf(),
        ensures
            final(self).wf(),
            r is Ok <==> old(self).accepts_work(),
            r matches Ok(t) ==> {
                &&& t == old(self).next_token
                &&& final(self).pending@.len() == old(self).pending@.len() + 1
                &&& final(self).pending@ == old(self).pending@.push((t, op))
                &&& final(self).next_token == old(self).next_token + 1
                &&& MemLogStore::durable_unchanged(old(self), final(self))
            },
            r is Err ==> *final(self) == *old(self),
    {
        if self.disabled || self.next_token == u64::MAX {
            return Result::Err(());
        }
        let t = self.next_token;
        self.pending.push((t, op));
        self.next_token = t + 1;
        Result::Ok(t)
    }

    /// Hands over a store operation: append `payloads` at `first_offset`,
    /// persisting the sequencer alongside when asked.
    pub fn enqueue_store(
        &mut self,
        first_offset: u64,
        payloads: Vec<Record>,
        persist_sequencer: bool,
        sequencer: GenerationalNodeId,
    ) -> (r: Result<u64, ()>)
        requires
            old(self).wf(),
        ensures
            final(self).wf(),
            r is Ok <==> old(self).accepts_work(),
            r matches Ok(t) ==> {
                &&& t == old(self).next_token
                &&& final(self).next_token == old(self).next_token + 1
                &&& final(self).pending@ == old(self).pending@.push((t, LogStoreOp::StoreOp {
                    first_offset,
                    payloads,
                    persist_sequencer,
                    sequencer,
                }))
                &&& MemLogStore::durable_unchanged(old(self), final(self))
            },
            r is Err ==> *final(self) == *old(self),
    {
        let op = LogStoreOp::StoreOp {
            first_offset,
            payloads,
            persist_sequencer,
            sequencer,
        };
        self.enqueue(op)
    }

    /// Hands over a seal operation.
    pub fn enqueue_seal(&mut self) -> (r: Result<u64, ()>)
        requires
            old(self).wf(),
        ensures
            final(self).wf(),
            r is Ok <==> old(self).accepts_work(),
            r matches Ok(t) ==> {
                &&& t == old(self).next_token
                &&& final(self).next_token == old(self).next_token + 1
                &&& final(self).pending@ == old(self).pending@.push((t, LogStoreOp::SealOp))
                &&& MemLogStore::durable_unchanged(old(self), final(self))
            },
            r is Err ==> *final(self) == *old(self),
    {
        self.enqueue(LogStoreOp::SealOp)
    }

    /// Hands over a trim operation up to and including `trim_point`.
    pub fn enqueue_trim(&mut self, trim_point: u64) -> (r: Result<u64, ()>)
        requires
            old(self).wf(),
        ensures
            final(self).wf(),
            r is Ok <==> old(self).accepts_work(),
            r matches Ok(t) ==> {
                &&& t == old(self).next_token
                &&& final(self).next_token == old(self).next_token + 1
                &&& final(self).pending@ == old(self).pending@.push(
                    (t, LogStoreOp::TrimOp { trim_point }))
                &&& MemLogStore::durable_unchanged(old(self), final(self))
            },
            r is Err ==> *final(self) == *old(self),
    {
        self.enqueue(LogStoreOp::TrimOp { trim_point })
    }

    /// Makes the oldest handed-over operation durable and returns its token,
    /// paired with whether it succeeded. In fail-safe the head is discarded
    /// unapplied and the completion reports failure.
    pub fn complete_next(&mut self) -> (r: (u64, bool))
        requires
            old(self).wf(),
            old(self).pending@.len() > 0,
        ensures
            final(self).wf(),
            r.0 == old(self).pending@[0].0,
            r.1 == !old(self).disabled,
            final(self).pending@ == old(self).pending@.drop_first(),
            final(self).next_token == old(self).next_token,
            final(self).disabled == old(self).disabled,
            old(self).disabled ==> {
                &&& final(self).records == old(self).records
                &&& final(self).trim_point == old(self).trim_point
                &&& final(self).sealed == old(self).sealed
                &&& final(self).sequencer == old(self).sequencer
            },
            !old(self).disabled ==> match old(self).pending@[0].1 {
                LogStoreOp::StoreOp { first_offset, payloads, persist_sequencer, sequencer } => {
                    &&& first_offset >= OFFSET_OLDEST
                        && first_offset + payloads@.len() <= u64::MAX ==> {
                        &&& forall|o: u64| has_off(final(self).records@, o)
                            <==> (has_off(old(self).records@, o)
                                || first_offset <= o < first_offset + payloads@.len())
                        &&& forall|o: u64|
                            first_offset <= o < first_offset + payloads@.len()
                            ==> same_record(
                                #[trigger] rec_at(final(self).records@, o),
                                payloads@[o - first_offset],
                            )
                        &&& forall|o: u64| has_off(old(self).records@, o)
                            && !(first_offset <= o < first_offset + payloads@.len())
                            ==> same_record(
                                #[trigger] rec_at(final(self).records@, o),
                                rec_at(old(self).records@, o),
                            )
                    }
                    &&& final(self).trim_point == old(self).trim_point
                    &&& final(self).sealed == old(self).sealed
                    &&& final(self).sequencer == if persist_sequencer {
                        Some(sequencer)
                    } else {
                        old(self).sequencer
                    }
                },
                LogStoreOp::SealOp => {
                    &&& final(self).records == old(self).records
                    &&& final(self).trim_point == old(self).trim_point
                    &&& final(self).sealed
                    &&& final(self).sequencer == old(self).sequencer
                },
                LogStoreOp::TrimOp { trim_point } => {
                    &&& forall|o: u64| has_off(final(self).records@, o)
                        <==> (has_off(old(self).records@, o) && o > trim_point)
                    &&& forall|o: u64| has_off(old(self).records@, o) && o > trim_point
                        ==> same_record(
                            #[trigger] rec_at(final(self).records@, o),
                            rec_at(old(self).records@, o),
                        )
                    &&& final(self).trim_point == offset_max(old(self).trim_point, trim_point)
                    &&& final(self).sealed == old(self).sealed
                    &&& final(self).sequencer == old(self).sequencer
                },
            },
    {
        let (token, op) = self.pending.remove(0);
        if self.disabled {
            return (token, false);
        }
        match op {
            LogStoreOp::StoreOp { first_offset, payloads, persist_sequencer, sequencer } => {
                if persist_sequencer {
                    self.sequencer = Option::Some(sequencer);
                }
                if first_offset >= OFFSET_OLDEST
                    && first_offset <= u64::MAX - (payloads.len() as u64)
                {
                    self.apply_store(first_offset, payloads);
                }
            },
            LogStoreOp::SealOp => {
                self.sealed = true;
            },
            LogStoreOp::TrimOp { trim_point } => {
                self.apply_trim(trim_point);
            },
        }
        (token, true)
    }

    /// Writes a run of records into the durable map, overwriting offsets
    /// already present.
    fn apply_store(&mut self, first_offset: u64, payloads: Vec<Record>)
        requires
            old(self).wf(),
            first_offset >= OFFSET_OLDEST,
            first_offset + payloads@.len() <= u64::MAX,
        ensures
            final(self).wf(),
            forall|o: u64| #[trigger] has_off(final(self).records@, o)
                <==> (has_off(old(self).records@, o)
                    || first_offset <= o < first_offset + payloads@.len()),
            forall|o: u64| first_offset <= o < first_offset + payloads@.len()
                ==> same_record(
                    #[trigger] rec_at(final(self).records@, o),
                    payloads@[o - first_offset],
                ),
            forall|o: u64| has_off(old(self).records@, o)
                && !(first_offset <= o < first_offset + payloads@.len())
                ==> same_record(
                    #[trigger] rec_at(final(self).records@, o),
                    rec_at(old(self).records@, o),
                ),
            final(self).trim_point == old(self).trim_point,
            final(self).sealed == old(self).sealed,
            final(self).sequencer == old(self).sequencer,
            final(self).pending == old(self).pending,
            final(self).next_token == old(self).next_token,
            final(self).disabled == old(self).disabled,
    {
        let ghost orig = self.records@;
        let ghost given = payloads@;
        let mut payloads = payloads;
        let n = payloads.len();
        let mut k: usize = 0;
        while k < n
            invariant
                self.wf(),
                n == given.len(),
                payloads@ == given.subrange(k as int, n as int),
                k <= n,
                first_offset >= OFFSET_OLDEST,
                first_offset + n <= u64::MAX,
                forall|o: u64| #[trigger] has_off(self.records@, o)
                    <==> (has_off(orig, o) || first_offset <= o < first_offset + k),
                forall|o: u64| #[trigger] has_off(orig, o)
                    ==> has_off(self.records@, o) || first_offset <= o < first_offset + k,
                forall|o: u64| first_offset <= o < first_offset + k
                    ==> same_record(
                        #[trigger] rec_at(self.records@, o),
                        given[o - first_offset],
                    ),
                forall|o: u64| has_off(orig, o) && !(first_offset <= o < first_offset + k)
                    ==> same_record(
                        #[trigger] rec_at(self.records@, o),
                        rec_at(orig, o),
                    ),
                self.trim_point == old(self).trim_point,
                self.sealed == old(self).sealed,
                self.sequencer == old(self).sequencer,
                self.pending == old(self).pending,
                self.next_token == old(self).next_token,
                self.disabled == old(self).disabled,
            decreases n - k,
        {
            proof {
                assert(payloads@.len() > 0);
                assert(payloads@[0] == given[k as int]);
            }
            let rec = payloads.remove(0);
            let off = first_offset + (k as u64);
            let ghost prev = self.records@;
            self.insert_or_replace(off, rec);
            k = k + 1;
            proof {
                assert(payloads@ =~= given.subrange(k as int, n as int));
                assert forall|o: u64| #[trigger] has_off(self.records@, o)
                    <==> (has_off(orig, o) || first_offset <= o < first_offset + k) by {
                    assert(has_off(self.records@, o) <==> (has_off(prev, o) || o == off));
                    assert(has_off(prev, o)
                        <==> (has_off(orig, o) || first_offset <= o < first_offset + k - 1));
                }
                assert forall|o: u64| #[trigger] has_off(orig, o)
                    implies has_off(self.records@, o) || first_offset <= o < first_offset + k by {
                    assert(has_off(prev, o)
                        <==> (has_off(orig, o) || first_offset <= o < first_offset + k - 1));
                    assert(has_off(self.records@, o) <==> (has_off(prev, o) || o == off));
                }
                assert forall|o: u64| first_offset <= o < first_offset + k
                    implies same_record(
                        #[trigger] rec_at(self.records@, o),
                        given[o - first_offset],
                    ) by {
                    if o == off {
                        assert(same_record(rec_at(self.records@, off), rec));
                    } else {
                        assert(has_off(prev, o)
                            <==> (has_off(orig, o) || first_offset <= o < first_offset + k - 1));
                        assert(has_off(prev, o));
                        assert(same_record(rec_at(prev, o), given[o - first_offset]));
                        assert(same_record(rec_at(self.records@, o), rec_at(prev, o)));
                    }
                }
                assert forall|o: u64|
                    has_off(orig, o) && !(first_offset <= o < first_offset + k)
                    implies same_record(
                        #[trigger] rec_at(self.records@, o),
                        rec_at(orig, o),
                    ) by {
                    assert(o != off);
                    assert(has_off(prev, o)
                        <==> (has_off(orig, o) || first_offset <= o < first_offset + k - 1));
                    assert(has_off(prev, o));
                    assert(same_record(rec_at(prev, o), rec_at(orig, o)));
                    assert(same_record(rec_at(self.records@, o), rec_at(prev, o)));
                }
            }
        }
    }

    /// Inserts one record, replacing any record already at its offset.
    fn insert_or_replace(&mut self, off: u64, rec: Record)
        requires
            old(self).wf(),
            OFFSET_OLDEST <= off < u64::MAX,
        ensures
            final(self).wf(),
            forall|o: u64| has_off(final(self).records@, o)
                <==> (has_off(old(self).records@, o) || o == off),
            same_record(rec_at(final(self).records@, off), rec),
            forall|o: u64| has_off(old(self).records@, o) && o != off
                ==> same_record(
                    #[trigger] rec_at(final(self).records@, o),
                    rec_at(old(self).records@, o),
                ),
            final(self).trim_point == old(self).trim_point,
            final(self).sealed == old(self).sealed,
            final(self).sequencer == old(self).sequencer,
            final(self).pending == old(self).pending,
            final(self).next_token == old(self).next_token,
            final(self).disabled == old(self).disabled,
    {
        let n = self.records.len();
        let mut i: usize = 0;
        while i < n
            invariant
                old(self).wf(),
                self == old(self),
                n == self.records@.len(),
                i <= n,
                forall|j: int| 0 <= j < i ==> #[trigger] self.records@[j].0 != off,
            decreases n - i,
        {
            if self.records[i].0 == off {
                self.records.set(i, (off, rec));
                proof {
                    lemma_records_replace(old(self).records@, self.records@, i as int);
                }
                return;
            }
            i = i + 1;
        }
        self.records.push((off, rec));
        proof {
            assert(!has_off(old(self).records@, off));
            lemma_records_push(old(self).records@, self.records@, (off, rec));
        }
    }

    /// Deletes every record at or below `trim_point` and raises the persisted
    /// trim point.
    fn apply_trim(&mut self, trim_point: u64)
        requires
            old(self).wf(),
        ensures
            final(self).wf(),
            forall|o: u64| has_off(final(self).records@, o)
                <==> (has_off(old(self).records@, o) && o > trim_point),
            forall|o: u64| has_off(old(self).records@, o) && o > trim_point
                ==> same_record(
                    #[trigger] rec_at(final(self).records@, o),
                    rec_at(old(self).records@, o),
                ),
            final(self).trim_point == offset_max(old(self).trim_point, trim_point),
            final(self).sealed == old(self).sealed,
            final(self).sequencer == old(self).sequencer,
            final(self).pending == old(self).pending,
            final(self).next_token == old(self).next_token,
            final(self).disabled == old(self).disabled,
    {
        if trim_point > self.trim_point {
            self.trim_point = trim_point;
        }
        let ghost orig = self.records@;
        let mut kept: Vec<(u64, Record)> = Vec::new();
        loop
            invariant
                offs_unique(self.records@),
                offs_unique(kept@),
                forall|o: u64|
                    has_off(self.records@, o) || has_off(kept@, o) ==> #[trigger] has_off(orig, o),
                forall|o: u64| #[trigger] has_off(orig, o) && o > trim_point
                    ==> has_off(self.records@, o) || has_off(kept@, o),
                forall|o: u64| #[trigger] has_off(self.records@, o) ==> !has_off(kept@, o),
                forall|o: u64| #[trigger] has_off(kept@, o) ==> o > trim_point,
                forall|o: u64| #[trigger] has_off(self.records@, o)
                    ==> same_record(rec_at(self.records@, o), rec_at(orig, o))
                        && OFFSET_OLDEST <= o < u64::MAX,
                forall|o: u64| #[trigger] has_off(kept@, o)
                    ==> same_record(rec_at(kept@, o), rec_at(orig, o))
                        && OFFSET_OLDEST <= o < u64::MAX,
                self.trim_point == offset_max(old(self).trim_point, trim_point),
                self.sealed == old(self).sealed,
                self.sequencer == old(self).sequencer,
                self.pending == old(self).pending,
                self.next_token == old(self).next_token,
                self.disabled == old(self).disabled,
            ensures
                self.records@.len() == 0,
            decreases self.records@.len(),
        {
            let ghost whole = self.records@;
            let popped = self.records.pop();
            match popped {
                Option::Some(pair) => {
                    proof {
                        assert(whole =~= self.records@.push(pair));
                        lemma_records_pop(whole, self.records@, pair);
                    }
                    if pair.0 > trim_point {
                        let ghost kept_before = kept@;
                        kept.push(pair);
                        proof {
                            lemma_records_push(kept_before, kept@, pair);
                            assert forall|o: u64| #[trigger] has_off(self.records@, o)
                                implies !has_off(kept@, o) by {
                                assert(has_off(whole, o));
                                assert(o != pair.0);
                                assert(!has_off(kept_before, o));
                            }
                            assert forall|o: u64| #[trigger] has_off(self.records@, o)
                                implies same_record(rec_at(self.records@, o), rec_at(orig, o))
                                    && OFFSET_OLDEST <= o < u64::MAX by {
                                assert(has_off(whole, o));
                                assert(o != pair.0);
                                assert(rec_at(whole, o) == rec_at(self.records@, o));
                            }
                            assert forall|o: u64| #[trigger] has_off(kept@, o)
                                implies same_record(rec_at(kept@, o), rec_at(orig, o))
                                    && OFFSET_OLDEST <= o < u64::MAX by {
                                if o == pair.0 {
                                    assert(rec_at(kept@, pair.0) == pair.1);
                                    assert(rec_at(whole, pair.0) == pair.1);
                                    assert(has_off(whole, pair.0));
                                } else {
                                    assert(has_off(kept_before, o));
                                    assert(rec_at(kept@, o) == rec_at(kept_before, o));
                                }
                            }
                        }
                    } else {
                        proof {
                            assert forall|o: u64| #[trigger] has_off(self.records@, o)
                                implies same_record(rec_at(self.records@, o), rec_at(orig, o))
                                    && OFFSET_OLDEST <= o < u64::MAX by {
                                assert(has_off(whole, o));
                                assert(o != pair.0);
                                assert(rec_at(whole, o) == rec_at(self.records@, o));
                            }
                            assert forall|o: u64| #[trigger] has_off(orig, o) && o > trim_point
                                implies has_off(self.records@, o) || has_off(kept@, o) by {
                                assert(o != pair.0);
                            }
                        }
                    }
                },
                Option::None => {
                    break;
                },
            }
        }
        self.records = kept;
    }

    /// What characterises an in-memory state loaded from this durable state:
    /// the trim point, seal flag and sequencer read back as persisted, and a
    /// local tail that lies past every durable record, past the persisted
    /// trim point, and is witnessed just below — by a durable record or by
    /// the trim point itself. These clauses pin the tail down uniquely.
    pub open spec fn loaded_state(store: MemLogStore, st: LogletState) -> bool {
        &&& st.trim_point == store.trim_point
        &&& st.sealed == store.sealed
        &&& st.sequencer == store.sequencer
        &&& st.wf()
        &&& forall|o: u64| #[trigger] has_off(store.records@, o) ==> o < st.local_tail
        &&& (st.local_tail == OFFSET_OLDEST
            || has_off(store.records@, (st.local_tail - 1) as u64)
            || store.trim_point == st.local_tail - 1)
    }

    /// Reconstructs the loglet's in-memory state from the durable state, as
    /// done when a node restarts: the trim point, seal flag and sequencer are
    /// read back, and the local tail is rediscovered as the first offset past
    /// everything durable — past the highest stored record and past the
    /// persisted trim point.
    pub fn load_loglet_state(&self) -> (r: LogletState)
        requires
            self.wf(),
            self.trim_point < u64::MAX,
        ensures
            MemLogStore::loaded_state(*self, r),
    {
        let mut tail: u64 = OFFSET_OLDEST;
        if self.trim_point >= tail {
            tail = self.trim_point + 1;
        }
        let n = self.records.len();
        let mut i: usize = 0;
        while i < n
            invariant
                self.wf(),
                self.trim_point < u64::MAX,
                n == self.records@.len(),
                i <= n,
                OFFSET_OLDEST <= tail,
                self.trim_point < tail,
                forall|j: int| 0 <= j < i ==> #[trigger] self.records@[j].0 < tail,
                tail == OFFSET_OLDEST
                    || self.trim_point == tail - 1
                    || exists|j: int| 0 <= j < i && #[trigger] self.records@[j].0 == tail - 1,
            decreases n - i,
        {
            let off = self.records[i].0;
            proof {
                assert(has_off(self.records@, off));
            }
            if off >= tail {
                tail = off + 1;
            }
            i = i + 1;
        }
        proof {
            assert forall|o: u64| #[trigger] has_off(self.records@, o) implies o < tail by {
                let j = idx_of(self.records@, o);
                assert(self.records@[j].0 == o);
            }
            if tail != OFFSET_OLDEST && self.trim_point != tail - 1 {
                let j = choose|j: int|
                    0 <= j < self.records@.len() && #[trigger] self.records@[j].0 == tail - 1;
                assert(has_off(self.records@, (tail - 1) as u64));
            }
        }
        LogletState {
            local_tail: tail,
            sealed: self.sealed,
            trim_point: self.trim_point,
            sequencer: self.sequencer,
        }
    }

    /// Looks a record up by offset.
    pub fn get_record(&self, off: u64) -> (r: Option<&Record>)
        requires
            self.wf(),
        ensures
            r is Some <==> has_off(self.records@, off),
            r matches Some(rec) ==> same_record(*rec, rec_at(self.records@, off)),
    {
        let n = self.records.len();
        let mut i: usize = 0;
        while i < n
            invariant
                self.wf(),
                n == self.records@.len(),
                i <= n,
                forall|j: int| 0 <= j < i ==> #[trigger] self.records@[j].0 != off,
            decreases n - i,
        {
            if self.records[i].0 == off {
                return Option::Some(&self.records[i].1);
            }
            i = i + 1;
        }
        Option::None
    }
}

/// Replacing the entry at one index, keeping its offset, changes the run at
/// that offset alone.
proof fn lemma_records_replace(before: Seq<(u64, Record)>, after: Seq<(u64, Record)>, i: int)
    requires
        offs_unique(before),
        0 <= i < before.len(),
        after == before.update(i, (before[i].0, after[i].1)),
    ensures
        offs_unique(after),
        forall|o: u64| #[trigger] has_off(after, o) <==> has_off(before, o),
        rec_at(after, before[i].0) == after[i].1,
        forall|o: u64| o != before[i].0 && #[trigger] has_off(before, o)
            ==> rec_at(after, o) == rec_at(before, o),
{
    assert(forall|j: int| 0 <= j < after.len() ==> #[trigger] after[j].0 == before[j].0);
    assert forall|i2: int, j2: int|
        0 <= i2 < after.len() && 0 <= j2 < after.len() && #[trigger] after[i2].0 == #[trigger] after[j2].0
        implies i2 == j2 by {
        assert(before[i2].0 == before[j2].0);
    }
    assert forall|o: u64| #[trigger] has_off(after, o) <==> has_off(before, o) by {
        if has_off(after, o) {
            let j = choose|j: int| 0 <= j < after.len() && after[j].0 == o;
            assert(before[j].0 == o);
            assert(has_off(before, o));
        }
        if has_off(before, o) {
            let j = choose|j: int| 0 <= j < before.len() && before[j].0 == o;
            assert(after[j].0 == o);
            assert(has_off(after, o));
        }
    }
    assert(after[i].0 == before[i].0);
    assert(has_off(after, before[i].0));
    let k = idx_of(after, before[i].0);
    assert(after[k].0 == before[i].0);
    assert(k == i);
    assert forall|o: u64| o != before[i].0 && #[trigger] has_off(before, o)
        implies rec_at(after, o) == rec_at(before, o) by {
        assert(has_off(after, o));
        let j1 = idx_of(before, o);
        assert(0 <= j1 < before.len() && before[j1].0 == o);
        let j2 = idx_of(after, o);
        assert(0 <= j2 < after.len() && after[j2].0 == o);
        assert(before[j2].0 == o);
        assert(j1 == j2);
        assert(j1 != i);
        assert(after[j2] == before[j1]);
    }
}

/// Appending an entry with a fresh offset extends the run by that offset
/// alone.
proof fn lemma_records_push(rest: Seq<(u64, Record)>, whole: Seq<(u64, Record)>, x: (u64, Record))
    requires
        offs_unique(rest),
        !has_off(rest, x.0),
        whole == rest.push(x),
    ensures
        offs_unique(whole),
        forall|o: u64| #[trigger] has_off(whole, o) <==> (has_off(rest, o) || o == x.0),
        forall|o: u64| #[trigger] has_off(rest, o) ==> has_off(whole, o),
        has_off(whole, x.0),
        rec_at(whole, x.0) == x.1,
        forall|o: u64| o != x.0 && #[trigger] has_off(rest, o)
            ==> rec_at(whole, o) == rec_at(rest, o),
{
    let n = rest.len() as int;
    assert(whole[n] == x);
    assert(forall|j: int| 0 <= j < n ==> #[trigger] whole[j] == rest[j]);
    assert forall|i: int, j: int|
        0 <= i < whole.len() && 0 <= j < whole.len() && #[trigger] whole[i].0 == #[trigger] whole[j].0
        implies i == j by {
        if i < n && j < n {
            assert(rest[i].0 == rest[j].0);
        } else if i < n && j == n {
            assert(rest[i].0 == x.0);
            assert(has_off(rest, x.0));
        } else if i == n && j < n {
            assert(rest[j].0 == x.0);
            assert(has_off(rest, x.0));
        }
    }
    assert forall|o: u64| #[trigger] has_off(whole, o) implies (has_off(rest, o) || o == x.0) by {
        let j = choose|j: int| 0 <= j < whole.len() && whole[j].0 == o;
        if j < n {
            assert(rest[j].0 == o);
        }
    }
    assert forall|o: u64| has_off(rest, o) implies #[trigger] has_off(whole, o) by {
        let j = choose|j: int| 0 <= j < rest.len() && rest[j].0 == o;
        assert(whole[j].0 == o);
    }
    assert(has_off(whole, x.0)) by {
        assert(whole[n].0 == x.0);
    }
    let k = idx_of(whole, x.0);
    assert(whole[k].0 == x.0);
    assert(k == n);
    assert forall|o: u64| o != x.0 && #[trigger] has_off(rest, o)
        implies rec_at(whole, o) == rec_at(rest, o) by {
        let j1 = idx_of(rest, o);
        assert(rest[j1].0 == o);
        assert(whole[j1].0 == o);
        let j2 = idx_of(whole, o);
        assert(whole[j2].0 == o);
        assert(j2 == j1);
    }
}

/// Removing the last entry of a duplicate-free run shrinks it by that entry's
/// offset alone.
proof fn lemma_records_pop(whole: Seq<(u64, Record)>, rest: Seq<(u64, Record)>, x: (u64, Record))
    requires
        offs_unique(whole),
        whole == rest.push(x),
    ensures
        offs_unique(rest),
        !has_off(rest, x.0),
        has_off(whole, x.0),
        forall|o: u64| #[trigger] has_off(whole, o) <==> (has_off(rest, o) || o == x.0),
        forall|o: u64| #[trigger] has_off(rest, o) ==> has_off(whole, o) && o != x.0,
        rec_at(whole, x.0) == x.1,
        forall|o: u64| o != x.0 && #[trigger] has_off(rest, o)
            ==> rec_at(whole, o) == rec_at(rest, o),
{
    let n = rest.len() as int;
    assert(forall|j: int| 0 <= j < n ==> #[trigger] whole[j] == rest[j]);
    assert forall|i: int, j: int|
        0 <= i < rest.len() && 0 <= j < rest.len() && #[trigger] rest[i].0 == #[trigger] rest[j].0
        implies i == j by {
        assert(whole[i].0 == whole[j].0);
    }
    assert(!has_off(rest, x.0)) by {
        if has_off(rest, x.0) {
            let j = choose|j: int| 0 <= j < rest.len() && rest[j].0 == x.0;
            assert(whole[j].0 == x.0);
            assert(whole[n].0 == x.0);
        }
    }
    lemma_records_push(rest, whole, x);
}

} // verus!
