//! The per-loglet worker: the sole local authority for one loglet.
//!
//! The worker owns six inboxes, one per request kind, and drains them in a
//! fixed priority order: release notices first, then seals, info requests,
//! reads, trims, and stores last. Mutating work is handed to the log store
//! and tracked until durable: store completions advance the published local
//! tail and answer the peer; the seal completion publishes the seal and
//! releases every waiter; trim completions answer the trimming peer.
//! Durability is driven explicitly: [`LogletWorker::complete_next`] makes the
//! oldest handed-over operation durable and performs the worker's reaction to
//! it, in the order the operations were handed over.

use vstd::prelude::*;
use crate::types::{
    GenerationalNodeId, offset_max, offset_min, max_offset, min_offset, OFFSET_INVALID,
    OFFSET_OLDEST,
};
use crate::records::Record;
use crate::messages::{
    Envelope, GetLogletInfo, GetRecords, LogletInfo, Records, Release, Response,
    ResponseBody, Seal, Sealed, Status, Store, Stored, Trim, Trimmed,
};
use crate::state::{GlobalTailTracker, LogletState, state_monotone};
use crate::logstore::{LogStoreOp, MemLogStore, has_off};

verus! {

/// A store handed to the log store whose completion is still outstanding:
/// enough to answer the peer and advance the tail once it is durable.
pub struct PendingStore {
    pub token: u64,
    pub peer: GenerationalNodeId,
    pub msg_id: u64,
    pub first_offset: u64,
    pub num_payloads: u64,
    /// The tail to publish when this store is durable: one past its last
    /// record, `first_offset + num_payloads`.
    pub future_tail: u64,
}

/// A trim handed to the log store whose completion is still outstanding.
pub struct PendingTrim {
    pub token: u64,
    pub peer: GenerationalNodeId,
    pub msg_id: u64,
}

/// A peer awaiting the seal notification.
pub struct SealWaiter {
    pub peer: GenerationalNodeId,
    pub msg_id: u64,
}

/// The worker state machine for one loglet.
pub struct LogletWorker {
    pub loglet_id: u64,
    pub log_store: MemLogStore,
    pub loglet_state: LogletState,
    pub global_tail_tracker: GlobalTailTracker,
    /// The local tail projected across stores handed over but not yet
    /// durable; the basis of the admission contiguity check.
    pub staging_local_tail: u64,
    /// The cached maximum of every global-tail observation. Monotone.
    pub known_global_tail: u64,
    /// Set while a seal is in flight with the log store.
    pub sealing_in_progress: bool,
    pub store_inbox: Vec<Envelope<Store>>,
    pub release_inbox: Vec<Envelope<Release>>,
    pub seal_inbox: Vec<Envelope<Seal>>,
    pub info_inbox: Vec<Envelope<GetLogletInfo>>,
    pub records_inbox: Vec<Envelope<GetRecords>>,
    pub trim_inbox: Vec<Envelope<Trim>>,
    pub in_flight_stores: Vec<PendingStore>,
    /// The completion token of the most recently handed-over seal.
    pub in_flight_seal: Option<u64>,
    pub waiting_for_seal: Vec<SealWaiter>,
    pub pending_trims: Vec<PendingTrim>,
    /// Outbound responses, in emission order.
    pub responses: Vec<Response>,
}

impl LogletWorker {
    /// One in-flight store entry is internally consistent.
    pub open spec fn store_entry_wf(e: PendingStore) -> bool {
        &&& OFFSET_OLDEST <= e.first_offset
        &&& 1 <= e.num_payloads
        &&& e.first_offset + e.num_payloads <= u64::MAX
        &&& e.future_tail == e.first_offset + e.num_payloads
    }

    /// Position `i` of the queue holds the store operation matching entry
    /// `e`.
    pub open spec fn store_op_at(p: Seq<(u64, LogStoreOp)>, i: int, e: PendingStore) -> bool {
        0 <= i < p.len() && p[i].0 == e.token
            && (p[i].1 matches LogStoreOp::StoreOp { first_offset, payloads, .. }
                && first_offset == e.first_offset && payloads@.len() == e.num_payloads)
    }

    /// Position `i` of the queue holds a trim operation with token `token`.
    pub open spec fn trim_op_at(p: Seq<(u64, LogStoreOp)>, i: int, token: u64) -> bool {
        0 <= i < p.len() && p[i].0 == token && p[i].1 is TrimOp
    }

    /// Position `i` of the queue holds a seal operation with token `token`.
    pub open spec fn seal_op_at(p: Seq<(u64, LogStoreOp)>, i: int, token: u64) -> bool {
        0 <= i < p.len() && p[i].0 == token && p[i].1 is SealOp
    }

    /// The queue holds the store operation matching entry `e` somewhere.
    pub open spec fn has_store_op(p: Seq<(u64, LogStoreOp)>, e: PendingStore) -> bool {
        exists|i: int| #[trigger] Self::store_op_at(p, i, e)
    }

    /// The queue holds a trim operation with token `token` somewhere.
    pub open spec fn has_trim_op(p: Seq<(u64, LogStoreOp)>, token: u64) -> bool {
        exists|i: int| #[trigger] Self::trim_op_at(p, i, token)
    }

    /// The queue holds a seal operation with token `token` somewhere.
    pub open spec fn has_seal_op(p: Seq<(u64, LogStoreOp)>, token: u64) -> bool {
        exists|i: int| #[trigger] Self::seal_op_at(p, i, token)
    }

    /// Some in-flight store entry carries this token.
    pub open spec fn tracked_store(st: Seq<PendingStore>, token: u64) -> bool {
        exists|j: int| 0 <= j < st.len() && (#[trigger] st[j]).token == token
    }

    /// Some outstanding trim carries this token.
    pub open spec fn tracked_trim(tr: Seq<PendingTrim>, token: u64) -> bool {
        exists|j: int| 0 <= j < tr.len() && (#[trigger] tr[j]).token == token
    }

    /// The in-flight bookkeeping matches the log store's handed-over queue:
    /// every tracked store or trim has its operation in the queue with the
    /// same token and content, every queued store or trim operation is
    /// tracked, and tokens are tracked at most once.
    pub open spec fn queue_inv(
        p: Seq<(u64, LogStoreOp)>,
        st: Seq<PendingStore>,
        tr: Seq<PendingTrim>,
    ) -> bool {
        &&& forall|j: int| 0 <= j < st.len() ==> Self::store_entry_wf(#[trigger] st[j])
        &&& forall|j: int| #![trigger st[j]] 0 <= j < st.len()
            ==> Self::has_store_op(p, st[j])
        &&& forall|i: int| 0 <= i < p.len() && (#[trigger] p[i]).1 is StoreOp
            ==> Self::tracked_store(st, p[i].0)
        &&& forall|j1: int, j2: int|
            0 <= j1 < st.len() && 0 <= j2 < st.len()
                && (#[trigger] st[j1]).token == (#[trigger] st[j2]).token ==> j1 == j2
        &&& forall|j: int| #![trigger tr[j]] 0 <= j < tr.len()
            ==> Self::has_trim_op(p, tr[j].token)
        &&& forall|i: int| 0 <= i < p.len() && (#[trigger] p[i]).1 is TrimOp
            ==> Self::tracked_trim(tr, p[i].0)
        &&& forall|j1: int, j2: int|
            0 <= j1 < tr.len() && 0 <= j2 < tr.len()
                && (#[trigger] tr[j1]).token == (#[trigger] tr[j2]).token ==> j1 == j2
    }

    /// The seal bookkeeping: while the store is live, the seal slot points at
    /// a handed-over seal operation, every handed-over seal operation is
    /// covered by the slot, a durable seal the worker has not yet published
    /// is still represented by a handed-over seal operation, and a published
    /// seal is durable.
    pub open spec fn seal_inv(
        p: Seq<(u64, LogStoreOp)>,
        disabled: bool,
        durable_sealed: bool,
        slot: Option<u64>,
        published_sealed: bool,
    ) -> bool {
        !disabled ==> {
            &&& (slot matches Some(t) ==> Self::has_seal_op(p, t))
            &&& forall|i: int| 0 <= i < p.len() && (#[trigger] p[i]).1 is SealOp
                ==> (slot matches Some(t) && t >= p[i].0)
            &&& (durable_sealed ==> published_sealed || exists|i: int|
                0 <= i < p.len() && (#[trigger] p[i]).1 is SealOp)
            &&& (published_sealed ==> durable_sealed)
        }
    }

    /// While the store is live, every durable record lies below the
    /// published tail, and the position just below the tail is witnessed
    /// durably: by a record, or by the persisted trim point.
    pub open spec fn tail_inv(
        disabled: bool,
        records: Seq<(u64, Record)>,
        trim_durable: u64,
        tail: u64,
    ) -> bool {
        !disabled ==> {
            &&& forall|o: u64| #[trigger] has_off(records, o) ==> o < tail
            &&& (tail == OFFSET_OLDEST
                || has_off(records, (tail - 1) as u64)
                || trim_durable == tail - 1)
        }
    }

    /// Every handed-over trim stays at or below the in-memory trim point and
    /// strictly below the published tail.
    pub open spec fn trim_bounds_inv(
        p: Seq<(u64, LogStoreOp)>,
        state_trim: u64,
        tail: u64,
    ) -> bool {
        forall|i: int| 0 <= i < p.len()
            ==> ((#[trigger] p[i]).1 matches LogStoreOp::TrimOp { trim_point }
                ==> trim_point <= state_trim && trim_point < tail)
    }

    /// Every handed-over store that persists a sequencer persists the
    /// recorded one.
    pub open spec fn seq_persist_inv(
        p: Seq<(u64, LogStoreOp)>,
        state_seq: Option<GenerationalNodeId>,
    ) -> bool {
        forall|i: int| 0 <= i < p.len()
            ==> ((#[trigger] p[i]).1 matches LogStoreOp::StoreOp {
                persist_sequencer: true, sequencer, ..
            } ==> Some(sequencer) == state_seq)
    }

    /// While the store is live, the persisted sequencer is the recorded one,
    /// or still unset with a handed-over store that will persist it.
    pub open spec fn seq_sync_inv(
        p: Seq<(u64, LogStoreOp)>,
        disabled: bool,
        store_seq: Option<GenerationalNodeId>,
        state_seq: Option<GenerationalNodeId>,
    ) -> bool {
        !disabled ==> (store_seq == state_seq || (store_seq is None && exists|i: int|
            0 <= i < p.len()
                && (#[trigger] p[i]).1 matches LogStoreOp::StoreOp {
                    persist_sequencer: true, ..
                }))
    }

    /// While the store is live, the persisted trim point trails the
    /// in-memory one.
    pub open spec fn trim_le_inv(disabled: bool, trim_durable: u64, state_trim: u64) -> bool {
        !disabled ==> trim_durable <= state_trim
    }

    /// While the store is live and accepting work, the in-memory trim point
    /// is persisted or about to be: the newest handed-over trim carries
    /// exactly the in-memory trim point.
    pub open spec fn trim_sync_inv(
        p: Seq<(u64, LogStoreOp)>,
        disabled: bool,
        accepts: bool,
        trim_durable: u64,
        state_trim: u64,
    ) -> bool {
        (!disabled && accepts) ==> {
            &&& ((exists|i: int| 0 <= i < p.len() && (#[trigger] p[i]).1 is TrimOp)
                || trim_durable == state_trim)
            &&& ((exists|i: int| 0 <= i < p.len() && (#[trigger] p[i]).1 is TrimOp)
                ==> exists|i: int|
                    0 <= i < p.len()
                        && ((#[trigger] p[i]).1 matches LogStoreOp::TrimOp { trim_point }
                            && trim_point == state_trim)
                        && (forall|j: int| i < j < p.len() ==> !((#[trigger] p[j]).1 is TrimOp)))
        }
    }

    /// The store inbox never holds the unimplemented repair path.
    pub open spec fn store_inbox_ok(inbox: Seq<Envelope<Store>>) -> bool {
        forall|i: int| 0 <= i < inbox.len() ==> !(#[trigger] inbox[i]).body.ignore_seal
    }

    /// Well-formedness of the whole worker.
    pub open spec fn wf(&self) -> bool {
        &&& self.loglet_state.wf()
        &&& self.log_store.wf()
        &&& Self::queue_inv(self.log_store.pending@, self.in_flight_stores@, self.pending_trims@)
        &&& Self::seal_inv(self.log_store.pending@, self.log_store.disabled,
            self.log_store.sealed, self.in_flight_seal, self.loglet_state.sealed)
        &&& Self::tail_inv(self.log_store.disabled, self.log_store.records@,
            self.log_store.trim_point, self.loglet_state.local_tail)
        &&& Self::trim_bounds_inv(self.log_store.pending@, self.loglet_state.trim_point,
            self.loglet_state.local_tail)
        &&& Self::seq_persist_inv(self.log_store.pending@, self.loglet_state.sequencer)
        &&& Self::seq_sync_inv(self.log_store.pending@, self.log_store.disabled,
            self.log_store.sequencer, self.loglet_state.sequencer)
        &&& Self::trim_le_inv(self.log_store.disabled, self.log_store.trim_point,
            self.loglet_state.trim_point)
        &&& Self::trim_sync_inv(self.log_store.pending@, self.log_store.disabled,
            self.log_store.accepts_work(), self.log_store.trim_point,
            self.loglet_state.trim_point)
        &&& Self::store_inbox_ok(self.store_inbox@)
    }

    /// Creates the worker for one loglet over a log store and the in-memory
    /// state loaded from it.
    pub fn start(
        loglet_id: u64,
        log_store: MemLogStore,
        loglet_state: LogletState,
        global_tail_tracker: GlobalTailTracker,
    ) -> (r: LogletWorker)
        requires
            log_store.wf(),
            log_store.pending@.len() == 0,
            MemLogStore::loaded_state(log_store, loglet_state),
        ensures
            r.wf(),
            r.loglet_id == loglet_id,
            r.log_store == log_store,
            r.loglet_state == loglet_state,
            r.staging_local_tail == loglet_state.local_tail,
            r.known_global_tail == global_tail_tracker.latest,
            !r.sealing_in_progress,
            r.responses@.len() == 0,
            r.in_flight_stores@.len() == 0,
            r.in_flight_seal is None,
            r.waiting_for_seal@.len() == 0,
            r.pending_trims@.len() == 0,
            r.store_inbox@.len() == 0 && r.release_inbox@.len() == 0
                && r.seal_inbox@.len() == 0 && r.info_inbox@.len() == 0
                && r.records_inbox@.len() == 0 && r.trim_inbox@.len() == 0,
    {
        let known_global_tail = global_tail_tracker.get();
        let staging_local_tail = loglet_state.local_tail;
        LogletWorker {
            loglet_id,
            log_store,
            loglet_state,
            global_tail_tracker,
            staging_local_tail,
            known_global_tail,
            sealing_in_progress: false,
            store_inbox: Vec::new(),
            release_inbox: Vec::new(),
            seal_inbox: Vec::new(),
            info_inbox: Vec::new(),
            records_inbox: Vec::new(),
            trim_inbox: Vec::new(),
            in_flight_stores: Vec::new(),
            in_flight_seal: Option::None,
            waiting_for_seal: Vec::new(),
            pending_trims: Vec::new(),
            responses: Vec::new(),
        }
    }

    /// Accepts a store request into its inbox. The reserved repair path is
    /// not implemented: a store that asks to ignore the seal is not accepted.
    pub fn enqueue_store(&mut self, msg: Envelope<Store>)
        requires
            old(self).wf(),
            !msg.body.ignore_seal,
        ensures
            final(self).wf(),
            final(self).store_inbox@ == old(self).store_inbox@.push(msg),
            final(self).release_inbox == old(self).release_inbox,
            final(self).seal_inbox == old(self).seal_inbox,
            final(self).info_inbox == old(self).info_inbox,
            final(self).records_inbox == old(self).records_inbox,
            final(self).trim_inbox == old(self).trim_inbox,
            Self::same_but_inboxes(old(self), final(self)),
            state_monotone(old(self).loglet_state, final(self).loglet_state),
    {
        self.store_inbox.push(msg);
    }

    /// Accepts a release notice into its inbox.
    pub fn enqueue_release(&mut self, msg: Envelope<Release>)
        requires
            old(self).wf(),
        ensures
            final(self).wf(),
            final(self).release_inbox@ == old(self).release_inbox@.push(msg),
            final(self).store_inbox == old(self).store_inbox,
            final(self).seal_inbox == old(self).seal_inbox,
            final(self).info_inbox == old(self).info_inbox,
            final(self).records_inbox == old(self).records_inbox,
            final(self).trim_inbox == old(self).trim_inbox,
            Self::same_but_inboxes(old(self), final(self)),
            state_monotone(old(self).loglet_state, final(self).loglet_state),
    {
        self.release_inbox.push(msg);
    }

    /// Accepts a seal request into its inbox.
    pub fn enqueue_seal(&mut self, msg: Envelope<Seal>)
        requires
            old(self).wf(),
        ensures
            final(self).wf(),
            final(self).seal_inbox@ == old(self).seal_inbox@.push(msg),
            final(self).store_inbox == old(self).store_inbox,
            final(self).release_inbox == old(self).release_inbox,
            final(self).info_inbox == old(self).info_inbox,
            final(self).records_inbox == old(self).records_inbox,
            final(self).trim_inbox == old(self).trim_inbox,
            Self::same_but_inboxes(old(self), final(self)),
            state_monotone(old(self).loglet_state, final(self).loglet_state),
    {
        self.seal_inbox.push(msg);
    }

    /// Accepts an info request into its inbox.
    pub fn enqueue_get_loglet_info(&mut self, msg: Envelope<GetLogletInfo>)
        requires
            old(self).wf(),
        ensures
            final(self).wf(),
            final(self).info_inbox@ == old(self).info_inbox@.push(msg),
            final(self).store_inbox == old(self).store_inbox,
            final(self).release_inbox == old(self).release_inbox,
            final(self).seal_inbox == old(self).seal_inbox,
            final(self).records_inbox == old(self).records_inbox,
            final(self).trim_inbox == old(self).trim_inbox,
            Self::same_but_inboxes(old(self), final(self)),
            state_monotone(old(self).loglet_state, final(self).loglet_state),
    {
        self.info_inbox.push(msg);
    }

    /// Accepts a read request into its inbox.
    pub fn enqueue_get_records(&mut self, msg: Envelope<GetRecords>)
        requires
            old(self).wf(),
        ensures
            final(self).wf(),
            final(self).records_inbox@ == old(self).records_inbox@.push(msg),
            final(self).store_inbox == old(self).store_inbox,
            final(self).release_inbox == old(self).release_inbox,
            final(self).seal_inbox == old(self).seal_inbox,
            final(self).info_inbox == old(self).info_inbox,
            final(self).trim_inbox == old(self).trim_inbox,
            Self::same_but_inboxes(old(self), final(self)),
            state_monotone(old(self).loglet_state, final(self).loglet_state),
    {
        self.records_inbox.push(msg);
    }

    /// Accepts a trim request into its inbox.
    pub fn enqueue_trim(&mut self, msg: Envelope<Trim>)
        requires
            old(self).wf(),
        ensures
            final(self).wf(),
            final(self).trim_inbox@ == old(self).trim_inbox@.push(msg),
            final(self).store_inbox == old(self).store_inbox,
            final(self).release_inbox == old(self).release_inbox,
            final(self).seal_inbox == old(self).seal_inbox,
            final(self).info_inbox == old(self).info_inbox,
            final(self).records_inbox == old(self).records_inbox,
            Self::same_but_inboxes(old(self), final(self)),
            state_monotone(old(self).loglet_state, final(self).loglet_state),
    {
        self.trim_inbox.push(msg);
    }

    /// Appends one store response to the outbox.
    fn push_stored_response(&mut self, peer: GenerationalNodeId, msg_id: u64, status: Status)
        ensures
            final(self).responses@ == old(self).responses@.push(Response {
                peer,
                msg_id,
                body: ResponseBody::Stored(Stored {
                    local_tail: old(self).loglet_state.local_tail,
                    sealed: old(self).loglet_state.sealed,
                    status,
                }),
            }),
            Self::same_but_responses(old(self), final(self)),
    {
        let body = ResponseBody::Stored(Stored {
            local_tail: self.loglet_state.local_tail,
            sealed: self.loglet_state.sealed,
            status,
        });
        self.responses.push(Response { peer, msg_id, body });
    }

    /// Classifies and admits one store request: the `STORE` branch of the
    /// worker loop. A store rejected by the admission rules is answered at
    /// once with the deciding status; an admitted store is handed to the log
    /// store, advances the staging tail past its last record, and is answered
    /// only once durable.
    pub fn process_store(&mut self, msg: Envelope<Store>, now: u64)
        requires
            old(self).wf(),
            !msg.body.ignore_seal,
        ensures
            final(self).wf(),
            state_monotone(old(self).loglet_state, final(self).loglet_state),
            final(self).known_global_tail == offset_max(
                old(self).known_global_tail, msg.body.known_global_tail),
            final(self).global_tail_tracker.latest == offset_max(
                old(self).global_tail_tracker.latest, msg.body.known_global_tail),
            Self::same_inboxes(old(self), final(self)),
            final(self).loglet_id == old(self).loglet_id,
            final(self).sealing_in_progress == old(self).sealing_in_progress,
            final(self).in_flight_seal == old(self).in_flight_seal,
            final(self).waiting_for_seal == old(self).waiting_for_seal,
            final(self).pending_trims == old(self).pending_trims,
            ({
                let next_ok = offset_max(
                    old(self).staging_local_tail,
                    offset_max(old(self).known_global_tail, msg.body.known_global_tail),
                );
                let d = store_decision(
                    old(self).loglet_state,
                    old(self).sealing_in_progress,
                    next_ok,
                    old(self).log_store.accepts_work(),
                    msg.peer,
                    msg.body,
                    now,
                );
                if d != Status::Okay {
                    &&& final(self).responses@ == old(self).responses@.push(Response {
                        peer: msg.peer,
                        msg_id: msg.msg_id,
                        body: ResponseBody::Stored(Stored {
                            local_tail: old(self).loglet_state.local_tail,
                            sealed: old(self).loglet_state.sealed,
                            status: d,
                        }),
                    })
                    &&& final(self).in_flight_stores == old(self).in_flight_stores
                    &&& final(self).staging_local_tail == old(self).staging_local_tail
                    &&& final(self).loglet_state == old(self).loglet_state
                    &&& final(self).log_store == old(self).log_store
                } else {
                    &&& final(self).responses == old(self).responses
                    &&& final(self).staging_local_tail
                        == msg.body.first_offset + msg.body.payloads@.len()
                    &&& final(self).loglet_state.local_tail == old(self).loglet_state.local_tail
                    &&& final(self).loglet_state.sealed == old(self).loglet_state.sealed
                    &&& final(self).loglet_state.trim_point == old(self).loglet_state.trim_point
                    &&& final(self).loglet_state.sequencer == Some(msg.body.sequencer)
                    &&& final(self).in_flight_stores@ == old(self).in_flight_stores@.push(
                        PendingStore {
                            token: old(self).log_store.next_token,
                            peer: msg.peer,
                            msg_id: msg.msg_id,
                            first_offset: msg.body.first_offset,
                            num_payloads: msg.body.payloads@.len() as u64,
                            future_tail: (msg.body.first_offset
                                + msg.body.payloads@.len()) as u64,
                        },
                    )
                    &&& final(self).log_store.pending@ == old(self).log_store.pending@.push((
                        old(self).log_store.next_token,
                        LogStoreOp::StoreOp {
                            first_offset: msg.body.first_offset,
                            payloads: msg.body.payloads,
                            persist_sequencer: old(self).loglet_state.sequencer is None,
                            sequencer: msg.body.sequencer,
                        },
                    ))
                    &&& final(self).log_store.next_token == old(self).log_store.next_token + 1
                    &&& MemLogStore::durable_unchanged(
                        &old(self).log_store, &final(self).log_store)
                }
            }),
    {
        self.global_tail_tracker.maybe_update(msg.body.known_global_tail);
        self.known_global_tail = max_offset(self.known_global_tail, msg.body.known_global_tail);
        let next_ok_offset = max_offset(self.staging_local_tail, self.known_global_tail);
        let peer = msg.peer;
        let msg_id = msg.msg_id;
        let body = msg.body;

        let accepts = !self.log_store.disabled && self.log_store.next_token < u64::MAX;
        let status = classify_store(
            &self.loglet_state, self.sealing_in_progress, next_ok_offset, accepts, peer, &body,
            now);
        if !matches!(status, Status::Okay) {
            self.push_stored_response(peer, msg_id, status);
            return;
        }

        let ghost pre = *self;
        let ghost pls = body.payloads;
        proof {
            assert(body.payloads@.len() > 0);
            assert(body.last_offset_spec() is Some);
        }
        let num = body.payloads.len() as u64;
        let last_offset = body.first_offset + (num - 1);
        let persist_sequencer = self.loglet_state.sequencer.is_none();
        let first_offset = body.first_offset;
        let sequencer = body.sequencer;
        self.loglet_state.set_sequencer(sequencer);
        let token = match self.log_store.enqueue_store(
            first_offset, body.payloads, persist_sequencer, sequencer) {
            Result::Ok(t) => t,
            Result::Err(_) => {
                proof {
                    assert(false);
                }
                0
            },
        };
        self.staging_local_tail = last_offset + 1;
        let entry = PendingStore {
            token,
            peer,
            msg_id,
            first_offset,
            num_payloads: num,
            future_tail: last_offset + 1,
        };
        self.in_flight_stores.push(entry);
        proof {
            let p0 = pre.log_store.pending@;
            let p1 = self.log_store.pending@;
            let x = (entry.token, LogStoreOp::StoreOp {
                first_offset,
                payloads: pls,
                persist_sequencer,
                sequencer,
            });
            assert(p1 == p0.push(x));
            assert(forall|i: int| 0 <= i < p0.len() ==> (#[trigger] p0[i]).0 < entry.token);
            lemma_queue_inv_push_store(
                p0, p1, pre.in_flight_stores@, self.in_flight_stores@, self.pending_trims@,
                entry, x);
            lemma_seal_inv_push(
                p0, p1, x, self.log_store.disabled, self.log_store.sealed, self.in_flight_seal,
                self.loglet_state.sealed);
            lemma_trim_bounds_push(
                p0, p1, x, self.loglet_state.trim_point, self.loglet_state.local_tail);
            assert(LogletWorker::seq_persist_inv(p0, Some(sequencer))) by {
                if pre.loglet_state.sequencer is Some {
                    assert(pre.loglet_state.sequencer == Some(sequencer));
                }
            }
            lemma_seq_persist_push(p0, p1, x, Some(sequencer));
            if pre.loglet_state.sequencer is None {
                if !self.log_store.disabled {
                    assert(self.log_store.sequencer is None);
                    assert(p1[p0.len() as int].1 matches LogStoreOp::StoreOp {
                        persist_sequencer: true, ..
                    });
                }
                assert(LogletWorker::seq_sync_inv(
                    p1, self.log_store.disabled, self.log_store.sequencer, Some(sequencer)));
            } else {
                lemma_seq_sync_push(
                    p0, p1, x, self.log_store.disabled, self.log_store.sequencer,
                    Some(sequencer));
            }
            lemma_trim_sync_push(
                p0, p1, x, self.log_store.disabled, pre.log_store.accepts_work(),
                self.log_store.accepts_work(), self.log_store.trim_point,
                self.loglet_state.trim_point);
        }
    }

    /// Absorbs a release notice: raises the tracker and the cached global
    /// tail. Sends no response.
    pub fn process_release(&mut self, msg: Envelope<Release>)
        requires
            old(self).wf(),
        ensures
            final(self).wf(),
            state_monotone(old(self).loglet_state, final(self).loglet_state),
            final(self).known_global_tail == offset_max(
                old(self).known_global_tail, msg.body.known_global_tail),
            final(self).global_tail_tracker.latest == offset_max(
                old(self).global_tail_tracker.latest, msg.body.known_global_tail),
            Self::same_inboxes(old(self), final(self)),
            final(self).loglet_id == old(self).loglet_id,
            final(self).log_store == old(self).log_store,
            final(self).loglet_state == old(self).loglet_state,
            final(self).staging_local_tail == old(self).staging_local_tail,
            final(self).sealing_in_progress == old(self).sealing_in_progress,
            final(self).in_flight_stores == old(self).in_flight_stores,
            final(self).in_flight_seal == old(self).in_flight_seal,
            final(self).waiting_for_seal == old(self).waiting_for_seal,
            final(self).pending_trims == old(self).pending_trims,
            final(self).responses == old(self).responses,
    {
        self.global_tail_tracker.maybe_update(msg.body.known_global_tail);
        self.known_global_tail = max_offset(self.known_global_tail, msg.body.known_global_tail);
    }

    /// Answers an info request inline with the loglet's tail, trim point and
    /// seal flag.
    pub fn process_get_loglet_info(&mut self, msg: Envelope<GetLogletInfo>)
        requires
            old(self).wf(),
        ensures
            final(self).wf(),
            state_monotone(old(self).loglet_state, final(self).loglet_state),
            final(self).known_global_tail == offset_max(
                old(self).known_global_tail, msg.body.known_global_tail),
            final(self).global_tail_tracker.latest == offset_max(
                old(self).global_tail_tracker.latest, msg.body.known_global_tail),
            Self::same_inboxes(old(self), final(self)),
            final(self).loglet_id == old(self).loglet_id,
            final(self).log_store == old(self).log_store,
            final(self).loglet_state == old(self).loglet_state,
            final(self).staging_local_tail == old(self).staging_local_tail,
            final(self).sealing_in_progress == old(self).sealing_in_progress,
            final(self).in_flight_stores == old(self).in_flight_stores,
            final(self).in_flight_seal == old(self).in_flight_seal,
            final(self).waiting_for_seal == old(self).waiting_for_seal,
            final(self).pending_trims == old(self).pending_trims,
            final(self).responses@ == old(self).responses@.push(Response {
                peer: msg.peer,
                msg_id: msg.msg_id,
                body: ResponseBody::LogletInfo(LogletInfo {
                    local_tail: old(self).loglet_state.local_tail,
                    trim_point: old(self).loglet_state.trim_point,
                    sealed: old(self).loglet_state.sealed,
                    status: Status::Okay,
                }),
            }),
    {
        self.global_tail_tracker.maybe_update(msg.body.known_global_tail);
        self.known_global_tail = max_offset(self.known_global_tail, msg.body.known_global_tail);
        let body = ResponseBody::LogletInfo(LogletInfo {
            local_tail: self.loglet_state.local_tail,
            trim_point: self.loglet_state.trim_point,
            sealed: self.loglet_state.sealed,
            status: Status::Okay,
        });
        self.responses.push(Response { peer: msg.peer, msg_id: msg.msg_id, body });
    }

    /// Serves a read request: validates the range, then answers from the
    /// durable run under the read model, or reports the store disabled.
    pub fn process_get_records(&mut self, msg: Envelope<GetRecords>)
        requires
            old(self).wf(),
        ensures
            final(self).wf(),
            state_monotone(old(self).loglet_state, final(self).loglet_state),
            final(self).known_global_tail == offset_max(
                old(self).known_global_tail, msg.body.known_global_tail),
            final(self).global_tail_tracker.latest == offset_max(
                old(self).global_tail_tracker.latest, msg.body.known_global_tail),
            Self::same_inboxes(old(self), final(self)),
            final(self).loglet_id == old(self).loglet_id,
            final(self).log_store == old(self).log_store,
            final(self).loglet_state == old(self).loglet_state,
            final(self).staging_local_tail == old(self).staging_local_tail,
            final(self).sealing_in_progress == old(self).sealing_in_progress,
            final(self).in_flight_stores == old(self).in_flight_stores,
            final(self).in_flight_seal == old(self).in_flight_seal,
            final(self).waiting_for_seal == old(self).waiting_for_seal,
            final(self).pending_trims == old(self).pending_trims,
            final(self).responses@.len() == old(self).responses@.len() + 1,
            final(self).responses@.drop_last() == old(self).responses@,
            final(self).responses@.last().peer == msg.peer,
            final(self).responses@.last().msg_id == msg.msg_id,
            final(self).responses@.last().body matches ResponseBody::Records(r) && {
                if msg.body.from_offset > msg.body.to_offset {
                    &&& r.status == Status::Malformed
                    &&& r.next_offset == msg.body.from_offset
                    &&& r.records@.len() == 0
                } else if old(self).log_store.disabled {
                    &&& r.status == Status::Disabled
                    &&& r.next_offset == msg.body.from_offset
                    &&& r.records@.len() == 0
                } else {
                    &&& r.status == Status::Okay
                    &&& r.local_tail == old(self).loglet_state.local_tail
                    &&& r.sealed == old(self).loglet_state.sealed
                    &&& crate::read::entries_view(r.records@) == crate::read::read_model(
                        old(self).log_store.records@,
                        old(self).loglet_state.trim_point,
                        old(self).loglet_state.local_tail,
                        msg.body.from_offset,
                        msg.body.to_offset,
                        msg.body.filter,
                        crate::read::budget_view(msg.body.total_limit_in_bytes),
                    ).entries
                    &&& r.next_offset == crate::read::read_model(
                        old(self).log_store.records@,
                        old(self).loglet_state.trim_point,
                        old(self).loglet_state.local_tail,
                        msg.body.from_offset,
                        msg.body.to_offset,
                        msg.body.filter,
                        crate::read::budget_view(msg.body.total_limit_in_bytes),
                    ).next
                }
            },
    {
        self.global_tail_tracker.maybe_update(msg.body.known_global_tail);
        self.known_global_tail = max_offset(self.known_global_tail, msg.body.known_global_tail);
        let rec = if msg.body.from_offset > msg.body.to_offset {
            Records {
                local_tail: self.loglet_state.local_tail,
                sealed: self.loglet_state.sealed,
                next_offset: msg.body.from_offset,
                records: Vec::new(),
                status: Status::Malformed,
            }
        } else if self.log_store.disabled {
            Records {
                local_tail: self.loglet_state.local_tail,
                sealed: self.loglet_state.sealed,
                next_offset: msg.body.from_offset,
                records: Vec::new(),
                status: Status::Disabled,
            }
        } else {
            self.log_store.read_records(
                msg.body.from_offset,
                msg.body.to_offset,
                msg.body.filter,
                msg.body.total_limit_in_bytes,
                self.loglet_state.local_tail,
                self.loglet_state.sealed,
                self.loglet_state.trim_point,
            )
        };
        let resp = Response {
            peer: msg.peer,
            msg_id: msg.msg_id,
            body: ResponseBody::Records(rec),
        };
        self.responses.push(resp);
        proof {
            assert(final(self).responses@.drop_last() =~= old(self).responses@);
        }
    }

    /// Handles a seal request: the `SEAL` branch of the worker loop. A peer
    /// sealing an already-sealed loglet is answered at once; otherwise the
    /// peer joins the seal waiters, the seal gate goes up, and a seal is
    /// handed to the log store. Every waiter is released by the single seal
    /// notification.
    pub fn process_seal(&mut self, msg: Envelope<Seal>)
        requires
            old(self).wf(),
        ensures
            final(self).wf(),
            state_monotone(old(self).loglet_state, final(self).loglet_state),
            final(self).known_global_tail == offset_max(
                old(self).known_global_tail, msg.body.known_global_tail),
            final(self).global_tail_tracker.latest == offset_max(
                old(self).global_tail_tracker.latest, msg.body.known_global_tail),
            Self::same_inboxes(old(self), final(self)),
            final(self).loglet_id == old(self).loglet_id,
            final(self).loglet_state == old(self).loglet_state,
            final(self).staging_local_tail == old(self).staging_local_tail,
            final(self).in_flight_stores == old(self).in_flight_stores,
            final(self).pending_trims == old(self).pending_trims,
            old(self).loglet_state.sealed ==> {
                &&& final(self).responses@ == old(self).responses@.push(Response {
                    peer: msg.peer,
                    msg_id: msg.msg_id,
                    body: ResponseBody::Sealed(Sealed {
                        local_tail: old(self).loglet_state.local_tail,
                        sealed: true,
                        status: Status::Okay,
                    }),
                })
                &&& !final(self).sealing_in_progress
                &&& final(self).log_store == old(self).log_store
                &&& final(self).waiting_for_seal == old(self).waiting_for_seal
                &&& final(self).in_flight_seal == old(self).in_flight_seal
            },
            !old(self).loglet_state.sealed ==> {
                &&& final(self).responses == old(self).responses
                &&& final(self).sealing_in_progress
                &&& final(self).waiting_for_seal@ == old(self).waiting_for_seal@.push(
                    SealWaiter { peer: msg.peer, msg_id: msg.msg_id })
                &&& (old(self).log_store.accepts_work() ==> {
                    &&& final(self).in_flight_seal == Some(old(self).log_store.next_token)
                    &&& final(self).log_store.pending@ == old(self).log_store.pending@.push(
                        (old(self).log_store.next_token, LogStoreOp::SealOp))
                    &&& final(self).log_store.next_token == old(self).log_store.next_token + 1
                    &&& MemLogStore::durable_unchanged(
                        &old(self).log_store, &final(self).log_store)
                })
                &&& (!old(self).log_store.accepts_work() ==> {
                    &&& final(self).in_flight_seal == old(self).in_flight_seal
                    &&& final(self).log_store == old(self).log_store
                })
            },
    {
        self.global_tail_tracker.maybe_update(msg.body.known_global_tail);
        self.known_global_tail = max_offset(self.known_global_tail, msg.body.known_global_tail);
        if self.loglet_state.sealed {
            self.sealing_in_progress = false;
            let body = ResponseBody::Sealed(Sealed {
                local_tail: self.loglet_state.local_tail,
                sealed: true,
                status: Status::Okay,
            });
            self.responses.push(Response { peer: msg.peer, msg_id: msg.msg_id, body });
            return;
        }
        self.waiting_for_seal.push(SealWaiter { peer: msg.peer, msg_id: msg.msg_id });
        self.sealing_in_progress = true;
        let ghost pre = *self;
        match self.log_store.enqueue_seal() {
            Result::Ok(token) => {
                self.in_flight_seal = Option::Some(token);
                proof {
                    let p0 = pre.log_store.pending@;
                    let p1 = self.log_store.pending@;
                    let x = (token, LogStoreOp::SealOp);
                    assert(p1 == p0.push(x));
                    let n = p0.len() as int;
                    assert(forall|i: int| 0 <= i < n ==> p1[i] == p0[i]);
                    lemma_queue_inv_push_other(
                        p0, p1, self.in_flight_stores@, self.pending_trims@, x);
                    lemma_trim_bounds_push(
                        p0, p1, x, self.loglet_state.trim_point, self.loglet_state.local_tail);
                    lemma_seq_persist_push(p0, p1, x, self.loglet_state.sequencer);
                    lemma_seq_sync_push(
                        p0, p1, x, self.log_store.disabled, self.log_store.sequencer,
                        self.loglet_state.sequencer);
                    lemma_trim_sync_push(
                        p0, p1, x, self.log_store.disabled, pre.log_store.accepts_work(),
                        self.log_store.accepts_work(), self.log_store.trim_point,
                        self.loglet_state.trim_point);
                    assert(LogletWorker::seal_inv(
                        p1, self.log_store.disabled, self.log_store.sealed,
                        self.in_flight_seal, self.loglet_state.sealed)) by {
                        if !self.log_store.disabled {
                            assert(LogletWorker::seal_op_at(p1, n, token));
                            assert(LogletWorker::has_seal_op(p1, token));
                            assert forall|i: int|
                                0 <= i < p1.len() && (#[trigger] p1[i]).1 is SealOp
                                implies token >= p1[i].0 by {
                                if i < n {
                                    assert(p1[i].0 < pre.log_store.next_token);
                                }
                            }
                        }
                    }
                }
            },
            Result::Err(_) => {
            },
        }
    }

    /// Handles a trim request: the `TRIM` branch of the worker loop. A trim
    /// point below the first legal position or at or past everything known —
    /// the local tail and the known global tail — is malformed. An acceptable
    /// trim point is clipped below the local tail, applied to the in-memory
    /// state at once, and handed to the log store; the peer is answered when
    /// the trim is durable, at once when nothing advanced, and with
    /// `Disabled` when the store accepts no work — the in-memory trim point
    /// keeps the advanced value, which over-reports until a restart reloads
    /// the persisted one.
    pub fn process_trim(&mut self, msg: Envelope<Trim>)
        requires
            old(self).wf(),
        ensures
            final(self).wf(),
            state_monotone(old(self).loglet_state, final(self).loglet_state),
            final(self).known_global_tail == offset_max(
                old(self).known_global_tail, msg.body.known_global_tail),
            final(self).global_tail_tracker.latest == offset_max(
                old(self).global_tail_tracker.latest, msg.body.known_global_tail),
            Self::same_inboxes(old(self), final(self)),
            final(self).loglet_id == old(self).loglet_id,
            final(self).loglet_state.local_tail == old(self).loglet_state.local_tail,
            final(self).loglet_state.sealed == old(self).loglet_state.sealed,
            final(self).loglet_state.sequencer == old(self).loglet_state.sequencer,
            final(self).staging_local_tail == old(self).staging_local_tail,
            final(self).sealing_in_progress == old(self).sealing_in_progress,
            final(self).in_flight_stores == old(self).in_flight_stores,
            final(self).in_flight_seal == old(self).in_flight_seal,
            final(self).waiting_for_seal == old(self).waiting_for_seal,
            ({
                let kgt2 = offset_max(old(self).known_global_tail, msg.body.known_global_tail);
                let tail = old(self).loglet_state.local_tail;
                let high_watermark = offset_max(kgt2, tail);
                let clipped = offset_min(msg.body.trim_point, (tail - 1) as u64);
                if msg.body.trim_point < OFFSET_OLDEST
                    || msg.body.trim_point >= high_watermark {
                    &&& final(self).responses@ == old(self).responses@.push(Response {
                        peer: msg.peer,
                        msg_id: msg.msg_id,
                        body: ResponseBody::Trimmed(Trimmed {
                            local_tail: tail,
                            sealed: old(self).loglet_state.sealed,
                            status: Status::Malformed,
                        }),
                    })
                    &&& final(self).loglet_state == old(self).loglet_state
                    &&& final(self).log_store == old(self).log_store
                    &&& final(self).pending_trims == old(self).pending_trims
                } else if clipped > old(self).loglet_state.trim_point {
                    &&& final(self).loglet_state.trim_point == clipped
                    &&& MemLogStore::durable_unchanged(
                        &old(self).log_store, &final(self).log_store)
                    &&& (old(self).log_store.accepts_work() ==> {
                        &&& final(self).responses == old(self).responses
                        &&& final(self).pending_trims@ == old(self).pending_trims@.push(
                            PendingTrim {
                                token: old(self).log_store.next_token,
                                peer: msg.peer,
                                msg_id: msg.msg_id,
                            })
                        &&& final(self).log_store.pending@
                            == old(self).log_store.pending@.push((
                            old(self).log_store.next_token,
                            LogStoreOp::TrimOp { trim_point: clipped },
                        ))
                        &&& final(self).log_store.next_token
                            == old(self).log_store.next_token + 1
                    })
                    &&& (!old(self).log_store.accepts_work() ==> {
                        &&& final(self).responses@ == old(self).responses@.push(Response {
                            peer: msg.peer,
                            msg_id: msg.msg_id,
                            body: ResponseBody::Trimmed(Trimmed {
                                local_tail: tail,
                                sealed: old(self).loglet_state.sealed,
                                status: Status::Disabled,
                            }),
                        })
                        &&& final(self).pending_trims == old(self).pending_trims
                        &&& final(self).log_store == old(self).log_store
                    })
                } else {
                    &&& final(self).responses@ == old(self).responses@.push(Response {
                        peer: msg.peer,
                        msg_id: msg.msg_id,
                        body: ResponseBody::Trimmed(Trimmed {
                            local_tail: tail,
                            sealed: old(self).loglet_state.sealed,
                            status: Status::Okay,
                        }),
                    })
                    &&& final(self).loglet_state == old(self).loglet_state
                    &&& final(self).log_store == old(self).log_store
                    &&& final(self).pending_trims == old(self).pending_trims
                }
            }),
    {
        self.global_tail_tracker.maybe_update(msg.body.known_global_tail);
        self.known_global_tail = max_offset(self.known_global_tail, msg.body.known_global_tail);
        let local_tail = self.loglet_state.local_tail;
        let high_watermark = max_offset(self.known_global_tail, local_tail);
        if msg.body.trim_point < OFFSET_OLDEST || msg.body.trim_point >= high_watermark {
            let body = ResponseBody::Trimmed(Trimmed {
                local_tail,
                sealed: self.loglet_state.sealed,
                status: Status::Malformed,
            });
            self.responses.push(Response { peer: msg.peer, msg_id: msg.msg_id, body });
            return;
        }
        let clipped = min_offset(msg.body.trim_point, local_tail - 1);
        let advanced = self.loglet_state.update_trim_point(clipped);
        if advanced {
            let ghost pre = *self;
            match self.log_store.enqueue_trim(clipped) {
                Result::Ok(token) => {
                    self.pending_trims.push(PendingTrim {
                        token,
                        peer: msg.peer,
                        msg_id: msg.msg_id,
                    });
                    proof {
                        let p0 = pre.log_store.pending@;
                        let p1 = self.log_store.pending@;
                        let x = (token, LogStoreOp::TrimOp { trim_point: clipped });
                        assert(p1 == p0.push(x));
                        let n = p0.len() as int;
                        assert(forall|i: int| 0 <= i < n ==> p1[i] == p0[i]);
                        lemma_queue_inv_push_trim(
                            p0, p1, self.in_flight_stores@, pre.pending_trims@,
                            self.pending_trims@,
                            PendingTrim { token, peer: msg.peer, msg_id: msg.msg_id }, x);
                        lemma_seal_inv_push(
                            p0, p1, x, self.log_store.disabled, self.log_store.sealed,
                            self.in_flight_seal, self.loglet_state.sealed);
                        assert(LogletWorker::trim_bounds_inv(
                            p1, self.loglet_state.trim_point,
                            self.loglet_state.local_tail)) by {
                            assert(forall|i: int| 0 <= i < n
                                ==> ((#[trigger] p0[i]).1 matches LogStoreOp::TrimOp {
                                    trim_point,
                                } ==> trim_point <= pre.loglet_state.trim_point));
                            assert(pre.loglet_state.trim_point <= clipped);
                            assert(p1[n] == x);
                        }
                        lemma_seq_persist_push(p0, p1, x, self.loglet_state.sequencer);
                        lemma_seq_sync_push(
                            p0, p1, x, self.log_store.disabled, self.log_store.sequencer,
                            self.loglet_state.sequencer);
                        assert(LogletWorker::trim_sync_inv(
                            p1, self.log_store.disabled, self.log_store.accepts_work(),
                            self.log_store.trim_point, self.loglet_state.trim_point)) by {
                            if !self.log_store.disabled && self.log_store.accepts_work() {
                                assert(p1[n].1 is TrimOp);
                                assert((p1[n].1 matches LogStoreOp::TrimOp { trim_point }
                                    && trim_point == self.loglet_state.trim_point));
                                assert(forall|j: int| n < j < p1.len()
                                    ==> !((#[trigger] p1[j]).1 is TrimOp));
                            }
                        }
                    }
                },
                Result::Err(_) => {
                    proof {
                        assert(LogletWorker::trim_bounds_inv(
                            self.log_store.pending@, self.loglet_state.trim_point,
                            self.loglet_state.local_tail)) by {
                            assert(forall|i: int|
                                0 <= i < self.log_store.pending@.len()
                                ==> ((#[trigger] self.log_store.pending@[i]).1
                                    matches LogStoreOp::TrimOp { trim_point }
                                    ==> trim_point <= pre.loglet_state.trim_point));
                        }
                    }
                    let body = ResponseBody::Trimmed(Trimmed {
                        local_tail,
                        sealed: self.loglet_state.sealed,
                        status: Status::Disabled,
                    });
                    self.responses.push(Response { peer: msg.peer, msg_id: msg.msg_id, body });
                },
            }
        } else {
            let body = ResponseBody::Trimmed(Trimmed {
                local_tail,
                sealed: self.loglet_state.sealed,
                status: Status::Okay,
            });
            self.responses.push(Response { peer: msg.peer, msg_id: msg.msg_id, body });
        }
    }

    /// A store response with status `Okay` answers one of the given
    /// in-flight entries and reports a local tail that covers its records:
    /// at least the request's first offset plus its payload count.
    pub open spec fn stored_ok_covers(r: Response, st: Seq<PendingStore>) -> bool {
        match r.body {
            ResponseBody::Stored(s) => s.status == Status::Okay ==> exists|j: int|
                0 <= j < st.len() && (#[trigger] st[j]).peer == r.peer
                    && st[j].msg_id == r.msg_id
                    && s.local_tail >= st[j].first_offset + st[j].num_payloads,
            _ => true,
        }
    }

    /// Finds the in-flight store entry carrying a completion token.
    fn find_store_entry(st: &Vec<PendingStore>, token: u64) -> (r: Option<usize>)
        ensures
            r matches Some(j) ==> j < st@.len() && st@[j as int].token == token,
            r is None ==> !Self::tracked_store(st@, token),
    {
        let n = st.len();
        let mut i: usize = 0;
        while i < n
            invariant
                n == st@.len(),
                i <= n,
                forall|k: int| 0 <= k < i ==> (#[trigger] st@[k]).token != token,
            decreases n - i,
        {
            if st[i].token == token {
                return Option::Some(i);
            }
            i = i + 1;
        }
        Option::None
    }

    /// Finds the outstanding trim carrying a completion token.
    fn find_trim_entry(tr: &Vec<PendingTrim>, token: u64) -> (r: Option<usize>)
        ensures
            r matches Some(j) ==> j < tr@.len() && tr@[j as int].token == token,
            r is None ==> !Self::tracked_trim(tr@, token),
    {
        let n = tr.len();
        let mut i: usize = 0;
        while i < n
            invariant
                n == tr@.len(),
                i <= n,
                forall|k: int| 0 <= k < i ==> (#[trigger] tr@[k]).token != token,
            decreases n - i,
        {
            if tr[i].token == token {
                return Option::Some(i);
            }
            i = i + 1;
        }
        Option::None
    }

    /// The position of the in-flight store entry carrying a token; tokens
    /// are tracked at most once, so the position is unique.
    pub open spec fn entry_index(st: Seq<PendingStore>, token: u64) -> int {
        choose|j: int| 0 <= j < st.len() && (#[trigger] st[j]).token == token
    }

    /// The position of the outstanding trim carrying a token.
    pub open spec fn trim_index(tr: Seq<PendingTrim>, token: u64) -> int {
        choose|j: int| 0 <= j < tr.len() && (#[trigger] tr[j]).token == token
    }

    /// The response a seal waiter receives once the loglet seals at `tail`.
    pub open spec fn seal_response(w: SealWaiter, tail: u64) -> Response {
        Response {
            peer: w.peer,
            msg_id: w.msg_id,
            body: ResponseBody::Sealed(Sealed {
                local_tail: tail,
                sealed: true,
                status: Status::Okay,
            }),
        }
    }

    /// Makes the oldest handed-over operation durable and performs the
    /// worker's reaction to it. A durable store advances the tail to cover
    /// its records and answers its peer `Stored{Okay}` with the new tail; the
    /// durable seal that the seal slot points at publishes the seal and
    /// answers every waiter `Sealed{Okay}`; a durable trim answers its peer
    /// `Trimmed{Okay}`. A completion that failed because the store is in
    /// fail-safe answers store and trim peers with `Disabled`; seal waiters
    /// keep waiting.
    pub fn complete_next(&mut self)
        requires
            old(self).wf(),
            old(self).log_store.pending@.len() > 0,
        ensures
            final(self).wf(),
            state_monotone(old(self).loglet_state, final(self).loglet_state),
            Self::same_inboxes(old(self), final(self)),
            final(self).loglet_id == old(self).loglet_id,
            final(self).log_store.pending@.len() == old(self).log_store.pending@.len() - 1,
            final(self).global_tail_tracker == old(self).global_tail_tracker,
            final(self).known_global_tail == old(self).known_global_tail,
            final(self).staging_local_tail == old(self).staging_local_tail,
            final(self).responses@.len() >= old(self).responses@.len(),
            final(self).responses@.subrange(0, old(self).responses@.len() as int)
                == old(self).responses@,
            forall|k: int|
                old(self).responses@.len() <= k < final(self).responses@.len()
                ==> Self::stored_ok_covers(
                    #[trigger] final(self).responses@[k], old(self).in_flight_stores@),
            ({
                let t = old(self).log_store.pending@[0].0;
                let live = !old(self).log_store.disabled;
                match old(self).log_store.pending@[0].1 {
                    LogStoreOp::StoreOp { .. } => {
                        let j = Self::entry_index(old(self).in_flight_stores@, t);
                        let e = old(self).in_flight_stores@[j];
                        &&& Self::tracked_store(old(self).in_flight_stores@, t)
                        &&& 0 <= j < old(self).in_flight_stores@.len()
                        &&& final(self).in_flight_stores@
                            == old(self).in_flight_stores@.remove(j)
                        &&& final(self).pending_trims == old(self).pending_trims
                        &&& final(self).waiting_for_seal == old(self).waiting_for_seal
                        &&& final(self).in_flight_seal == old(self).in_flight_seal
                        &&& final(self).sealing_in_progress == old(self).sealing_in_progress
                        &&& final(self).loglet_state.sealed == old(self).loglet_state.sealed
                        &&& final(self).loglet_state.trim_point
                            == old(self).loglet_state.trim_point
                        &&& final(self).loglet_state.sequencer
                            == old(self).loglet_state.sequencer
                        &&& final(self).loglet_state.local_tail == (if live {
                            offset_max(old(self).loglet_state.local_tail, e.future_tail)
                        } else {
                            old(self).loglet_state.local_tail
                        })
                        &&& final(self).responses@ == old(self).responses@.push(Response {
                            peer: e.peer,
                            msg_id: e.msg_id,
                            body: ResponseBody::Stored(Stored {
                                local_tail: final(self).loglet_state.local_tail,
                                sealed: old(self).loglet_state.sealed,
                                status: if live {
                                    Status::Okay
                                } else {
                                    Status::Disabled
                                },
                            }),
                        })
                    },
                    LogStoreOp::TrimOp { .. } => {
                        let j = Self::trim_index(old(self).pending_trims@, t);
                        let e = old(self).pending_trims@[j];
                        &&& Self::tracked_trim(old(self).pending_trims@, t)
                        &&& 0 <= j < old(self).pending_trims@.len()
                        &&& final(self).pending_trims@ == old(self).pending_trims@.remove(j)
                        &&& final(self).in_flight_stores == old(self).in_flight_stores
                        &&& final(self).waiting_for_seal == old(self).waiting_for_seal
                        &&& final(self).in_flight_seal == old(self).in_flight_seal
                        &&& final(self).sealing_in_progress == old(self).sealing_in_progress
                        &&& final(self).loglet_state == old(self).loglet_state
                        &&& final(self).responses@ == old(self).responses@.push(Response {
                            peer: e.peer,
                            msg_id: e.msg_id,
                            body: ResponseBody::Trimmed(Trimmed {
                                local_tail: old(self).loglet_state.local_tail,
                                sealed: old(self).loglet_state.sealed,
                                status: if live {
                                    Status::Okay
                                } else {
                                    Status::Disabled
                                },
                            }),
                        })
                    },
                    LogStoreOp::SealOp => {
                        &&& final(self).in_flight_stores == old(self).in_flight_stores
                        &&& final(self).pending_trims == old(self).pending_trims
                        &&& final(self).loglet_state.local_tail
                            == old(self).loglet_state.local_tail
                        &&& final(self).loglet_state.trim_point
                            == old(self).loglet_state.trim_point
                        &&& final(self).loglet_state.sequencer
                            == old(self).loglet_state.sequencer
                        &&& if old(self).in_flight_seal == Some(t) && live {
                            &&& final(self).loglet_state.sealed
                            &&& !final(self).sealing_in_progress
                            &&& final(self).in_flight_seal is None
                            &&& final(self).waiting_for_seal@.len() == 0
                            &&& final(self).responses@ == old(self).responses@
                                + old(self).waiting_for_seal@.map(
                                |i: int, w: SealWaiter| Self::seal_response(
                                    w, old(self).loglet_state.local_tail))
                        } else {
                            &&& final(self).loglet_state.sealed
                                == old(self).loglet_state.sealed
                            &&& final(self).sealing_in_progress
                                == old(self).sealing_in_progress
                            &&& final(self).waiting_for_seal == old(self).waiting_for_seal
                            &&& final(self).responses == old(self).responses
                            &&& final(self).in_flight_seal == (
                                if old(self).in_flight_seal == Some(t) {
                                    Option::<u64>::None
                                } else {
                                    old(self).in_flight_seal
                                })
                        }
                    },
                }
            }),
    {
        let ghost pre = *self;
        let ghost p0 = pre.log_store.pending@;
        let (token, success) = self.log_store.complete_next();
        let ghost p1 = self.log_store.pending@;
        proof {
            assert(forall|i: int| 0 <= i < p1.len() ==> p1[i] == p0[i + 1]);
        }

        match Self::find_store_entry(&self.in_flight_stores, token) {
            Option::Some(j) => {
                proof {
                    assert(Self::has_store_op(p0, pre.in_flight_stores@[j as int]));
                    let i = choose|i: int|
                        #[trigger] Self::store_op_at(p0, i, pre.in_flight_stores@[j as int]);
                    assert(p0[i].0 == token);
                    assert(p0[0].0 == token);
                    assert(i == 0);
                    assert(p0[0].1 is StoreOp);
                    // the found position is the unique tracked position
                    assert(Self::tracked_store(pre.in_flight_stores@, token));
                    let j2 = Self::entry_index(pre.in_flight_stores@, token);
                    assert(0 <= j2 < pre.in_flight_stores@.len()
                        && pre.in_flight_stores@[j2].token == token);
                    assert(j2 == j as int);
                }
                let entry = self.in_flight_stores.remove(j);
                let status = if success {
                    self.loglet_state.notify_offset_update(entry.future_tail);
                    Status::Okay
                } else {
                    Status::Disabled
                };
                let body = ResponseBody::Stored(Stored {
                    local_tail: self.loglet_state.local_tail,
                    sealed: self.loglet_state.sealed,
                    status,
                });
                self.responses.push(Response { peer: entry.peer, msg_id: entry.msg_id, body });
                proof {
                    lemma_queue_inv_remove_store(
                        p0, p1, pre.in_flight_stores@, self.in_flight_stores@,
                        self.pending_trims@, j as int);
                    lemma_seal_inv_remove_nonseal(
                        p0, p1, self.log_store.disabled, self.log_store.sealed,
                        self.in_flight_seal, self.loglet_state.sealed);
                    lemma_drop_first_trim_bounds(
                        p0, p1, self.loglet_state.trim_point, pre.loglet_state.local_tail,
                        self.loglet_state.local_tail);
                    lemma_drop_first_seq_persist(p0, p1, self.loglet_state.sequencer);
                    assert(Self::seq_sync_inv(
                        p1, self.log_store.disabled, self.log_store.sequencer,
                        self.loglet_state.sequencer)) by {
                        if !self.log_store.disabled
                            && self.log_store.sequencer != self.loglet_state.sequencer {
                            let i = choose|i: int| 0 <= i < p0.len()
                                && (#[trigger] p0[i]).1 matches LogStoreOp::StoreOp {
                                    persist_sequencer: true, ..
                                };
                            assert(i != 0);
                            assert(p1[i - 1] == p0[i]);
                        }
                    }
                    assert(Self::trim_sync_inv(
                        p1, self.log_store.disabled, self.log_store.accepts_work(),
                        self.log_store.trim_point, self.loglet_state.trim_point)) by {
                        if !self.log_store.disabled && self.log_store.accepts_work() {
                            lemma_drop_first_trim_sync_nontrim(
                                p0, p1, self.log_store.trim_point,
                                self.loglet_state.trim_point);
                        }
                    }
                    assert(Self::tail_inv(
                        self.log_store.disabled, self.log_store.records@,
                        self.log_store.trim_point, self.loglet_state.local_tail)) by {
                        if !self.log_store.disabled {
                            let e = pre.in_flight_stores@[j as int];
                            let t1 = self.loglet_state.local_tail;
                            assert(t1 == offset_max(pre.loglet_state.local_tail, e.future_tail));
                            assert forall|o: u64| #[trigger] has_off(self.log_store.records@, o)
                                implies o < t1 by {
                                if !(e.first_offset <= o < e.future_tail) {
                                    assert(has_off(pre.log_store.records@, o));
                                }
                            }
                            if t1 != OFFSET_OLDEST {
                                if e.future_tail > pre.loglet_state.local_tail {
                                    assert(t1 == e.future_tail);
                                    assert(e.first_offset <= t1 - 1 < e.future_tail);
                                    assert(has_off(self.log_store.records@, (t1 - 1) as u64));
                                } else {
                                    assert(t1 == pre.loglet_state.local_tail);
                                    if has_off(pre.log_store.records@, (t1 - 1) as u64) {
                                        assert(has_off(
                                            self.log_store.records@, (t1 - 1) as u64));
                                    }
                                }
                            }
                        }
                    }
                    assert(final(self).responses@.subrange(
                        0, old(self).responses@.len() as int) =~= old(self).responses@);
                    assert forall|k: int|
                        old(self).responses@.len() <= k < final(self).responses@.len()
                        implies Self::stored_ok_covers(
                            #[trigger] final(self).responses@[k],
                            old(self).in_flight_stores@) by {
                        assert(k == old(self).responses@.len());
                        let r = final(self).responses@[k];
                        if success {
                            let e = pre.in_flight_stores@[j as int];
                            assert(r.peer == e.peer && r.msg_id == e.msg_id);
                            assert(self.loglet_state.local_tail >= e.future_tail);
                            assert(e.future_tail == e.first_offset + e.num_payloads);
                        }
                    }
                }
            },
            Option::None => {
                match Self::find_trim_entry(&self.pending_trims, token) {
                    Option::Some(j) => {
                        proof {
                            assert(Self::has_trim_op(p0, pre.pending_trims@[j as int].token));
                            let i = choose|i: int| #[trigger] Self::trim_op_at(
                                p0, i, pre.pending_trims@[j as int].token);
                            assert(p0[i].0 == token);
                            assert(p0[0].0 == token);
                            assert(i == 0);
                            assert(p0[0].1 is TrimOp);
                            // the found position is the unique tracked position
                            assert(Self::tracked_trim(pre.pending_trims@, token));
                            let j2 = Self::trim_index(pre.pending_trims@, token);
                            assert(0 <= j2 < pre.pending_trims@.len()
                                && pre.pending_trims@[j2].token == token);
                            assert(j2 == j as int);
                        }
                        let tentry = self.pending_trims.remove(j);
                        let status = if success {
                            Status::Okay
                        } else {
                            Status::Disabled
                        };
                        let body = ResponseBody::Trimmed(Trimmed {
                            local_tail: self.loglet_state.local_tail,
                            sealed: self.loglet_state.sealed,
                            status,
                        });
                        self.responses.push(Response {
                            peer: tentry.peer,
                            msg_id: tentry.msg_id,
                            body,
                        });
                        proof {
                            let ghost tp = p0[0].1->TrimOp_trim_point;
                            lemma_queue_inv_remove_trim(
                                p0, p1, self.in_flight_stores@, pre.pending_trims@,
                                self.pending_trims@, j as int);
                            lemma_seal_inv_remove_nonseal(
                                p0, p1, self.log_store.disabled, self.log_store.sealed,
                                self.in_flight_seal, self.loglet_state.sealed);
                            lemma_drop_first_trim_bounds(
                                p0, p1, self.loglet_state.trim_point,
                                pre.loglet_state.local_tail, self.loglet_state.local_tail);
                            lemma_drop_first_seq_persist(p0, p1, self.loglet_state.sequencer);
                            assert(Self::seq_sync_inv(
                                p1, self.log_store.disabled, self.log_store.sequencer,
                                self.loglet_state.sequencer)) by {
                                if !self.log_store.disabled
                                    && self.log_store.sequencer != self.loglet_state.sequencer {
                                    let i = choose|i: int| 0 <= i < p0.len()
                                        && (#[trigger] p0[i]).1 matches LogStoreOp::StoreOp {
                                            persist_sequencer: true, ..
                                        };
                                    assert(i != 0);
                                    assert(p1[i - 1] == p0[i]);
                                }
                            }
                            assert(Self::trim_le_inv(
                                self.log_store.disabled, self.log_store.trim_point,
                                self.loglet_state.trim_point)) by {
                                if !self.log_store.disabled {
                                    assert(tp <= self.loglet_state.trim_point);
                                }
                            }
                            assert(Self::trim_sync_inv(
                                p1, self.log_store.disabled, self.log_store.accepts_work(),
                                self.log_store.trim_point, self.loglet_state.trim_point)) by {
                                if !self.log_store.disabled && self.log_store.accepts_work() {
                                    lemma_drop_first_trim_sync_trim(
                                        p0, p1, pre.log_store.trim_point,
                                        self.log_store.trim_point,
                                        self.loglet_state.trim_point);
                                }
                            }
                            assert(Self::tail_inv(
                                self.log_store.disabled, self.log_store.records@,
                                self.log_store.trim_point, self.loglet_state.local_tail)) by {
                                if !self.log_store.disabled {
                                    let t = self.loglet_state.local_tail;
                                    assert(tp < t);
                                    assert forall|o: u64|
                                        #[trigger] has_off(self.log_store.records@, o)
                                        implies o < t by {
                                        assert(has_off(pre.log_store.records@, o));
                                    }
                                    if t != OFFSET_OLDEST
                                        && self.log_store.trim_point != t - 1 {
                                        assert(self.log_store.trim_point
                                            == offset_max(pre.log_store.trim_point, tp));
                                        assert(pre.log_store.trim_point != t - 1);
                                        assert(has_off(
                                            pre.log_store.records@, (t - 1) as u64));
                                        assert(tp != t - 1);
                                        assert(has_off(
                                            self.log_store.records@, (t - 1) as u64));
                                    }
                                }
                            }
                            assert(final(self).responses@.subrange(
                                0, old(self).responses@.len() as int) =~= old(self).responses@);
                        }
                    },
                    Option::None => {
                        proof {
                            assert(!(p0[0].1 is StoreOp)) by {
                                if p0[0].1 is StoreOp {
                                    assert(Self::tracked_store(
                                        pre.in_flight_stores@, p0[0].0));
                                }
                            }
                            assert(!(p0[0].1 is TrimOp)) by {
                                if p0[0].1 is TrimOp {
                                    assert(Self::tracked_trim(pre.pending_trims@, p0[0].0));
                                }
                            }
                            assert(p0[0].1 is SealOp);
                        }
                        let is_slot = match self.in_flight_seal {
                            Option::Some(t) => t == token,
                            Option::None => false,
                        };
                        if is_slot {
                            self.in_flight_seal = Option::None;
                            if success {
                                self.loglet_state.notify_seal();
                                self.sealing_in_progress = false;
                                proof {
                                    assert forall|i: int|
                                        0 <= i < p1.len()
                                        implies !((#[trigger] p1[i]).1 is SealOp) by {
                                        assert(p1[i] == p0[i + 1]);
                                        if p0[i + 1].1 is SealOp {
                                            assert(token >= p0[i + 1].0);
                                            assert(p0[0].0 < p0[i + 1].0);
                                        }
                                    }
                                }
                                let ghost mid = *self;
                                let ghost ws = self.waiting_for_seal@;
                                let n_w = self.waiting_for_seal.len();
                                let mut k: usize = 0;
                                while k < n_w
                                    invariant
                                        n_w == ws.len(),
                                        k <= n_w,
                                        self.loglet_id == mid.loglet_id,
                                        self.log_store == mid.log_store,
                                        self.loglet_state == mid.loglet_state,
                                        self.global_tail_tracker == mid.global_tail_tracker,
                                        self.staging_local_tail == mid.staging_local_tail,
                                        self.known_global_tail == mid.known_global_tail,
                                        self.sealing_in_progress == mid.sealing_in_progress,
                                        Self::same_inboxes(&mid, self),
                                        self.in_flight_stores == mid.in_flight_stores,
                                        self.in_flight_seal == mid.in_flight_seal,
                                        self.pending_trims == mid.pending_trims,
                                        self.waiting_for_seal@ == ws.skip(k as int),
                                        self.responses@ == mid.responses@ + ws.take(k as int)
                                            .map(|i: int, w: SealWaiter| Self::seal_response(
                                                w, mid.loglet_state.local_tail)),
                                    decreases n_w - k,
                                {
                                    let w = self.waiting_for_seal.remove(0);
                                    let body = ResponseBody::Sealed(Sealed {
                                        local_tail: self.loglet_state.local_tail,
                                        sealed: true,
                                        status: Status::Okay,
                                    });
                                    self.responses.push(Response {
                                        peer: w.peer,
                                        msg_id: w.msg_id,
                                        body,
                                    });
                                    k = k + 1;
                                    proof {
                                        assert(self.waiting_for_seal@ =~= ws.skip(k as int));
                                        assert(self.responses@ =~= mid.responses@
                                            + ws.take(k as int).map(
                                            |i: int, w2: SealWaiter| Self::seal_response(
                                                w2, mid.loglet_state.local_tail)));
                                    }
                                }
                                proof {
                                    assert(ws.take(n_w as int) =~= ws);
                                    assert(self.responses@ =~= old(self).responses@
                                        + old(self).waiting_for_seal@.map(
                                        |i: int, w: SealWaiter| Self::seal_response(
                                            w, old(self).loglet_state.local_tail)));
                                }
                            }
                        }
                        proof {
                            lemma_queue_inv_remove_other(
                                p0, p1, self.in_flight_stores@, self.pending_trims@);
                            lemma_drop_first_trim_bounds(
                                p0, p1, self.loglet_state.trim_point,
                                pre.loglet_state.local_tail, self.loglet_state.local_tail);
                            lemma_drop_first_seq_persist(p0, p1, self.loglet_state.sequencer);
                            assert(Self::seq_sync_inv(
                                p1, self.log_store.disabled, self.log_store.sequencer,
                                self.loglet_state.sequencer)) by {
                                if !self.log_store.disabled
                                    && self.log_store.sequencer != self.loglet_state.sequencer {
                                    let i = choose|i: int| 0 <= i < p0.len()
                                        && (#[trigger] p0[i]).1 matches LogStoreOp::StoreOp {
                                            persist_sequencer: true, ..
                                        };
                                    assert(i != 0);
                                    assert(p1[i - 1] == p0[i]);
                                }
                            }
                            assert(Self::trim_sync_inv(
                                p1, self.log_store.disabled, self.log_store.accepts_work(),
                                self.log_store.trim_point, self.loglet_state.trim_point)) by {
                                if !self.log_store.disabled && self.log_store.accepts_work() {
                                    lemma_drop_first_trim_sync_nontrim(
                                        p0, p1, self.log_store.trim_point,
                                        self.loglet_state.trim_point);
                                }
                            }
                            assert(Self::seal_inv(
                                p1, self.log_store.disabled, self.log_store.sealed,
                                self.in_flight_seal, self.loglet_state.sealed)) by {
                                if !self.log_store.disabled {
                                    if is_slot {
                                        if success {
                                            assert(self.loglet_state.sealed);
                                        } else {
                                            assert(false);
                                        }
                                    } else {
                                        if pre.in_flight_seal is Some {
                                            let t = pre.in_flight_seal->0;
                                            assert(Self::has_seal_op(p0, t));
                                            let i = choose|i: int|
                                                #[trigger] Self::seal_op_at(p0, i, t);
                                            assert(i != 0);
                                            assert(Self::seal_op_at(p1, i - 1, t));
                                            assert(Self::has_seal_op(p1, t));
                                            assert forall|i2: int|
                                                0 <= i2 < p1.len()
                                                    && (#[trigger] p1[i2]).1 is SealOp
                                                implies pre.in_flight_seal matches Some(tt)
                                                    && tt >= p1[i2].0 by {
                                                assert(p1[i2] == p0[i2 + 1]);
                                            }
                                            if self.log_store.sealed
                                                && !self.loglet_state.sealed {
                                                assert(Self::seal_op_at(p1, i - 1, t));
                                                assert(p1[i - 1].1 is SealOp);
                                            }
                                        } else {
                                            assert(forall|i: int|
                                                0 <= i < p0.len()
                                                ==> !((#[trigger] p0[i]).1 is SealOp));
                                            assert(p0[0].1 is SealOp);
                                            assert(false);
                                        }
                                    }
                                }
                            }
                            assert(Self::tail_inv(
                                self.log_store.disabled, self.log_store.records@,
                                self.log_store.trim_point, self.loglet_state.local_tail)) by {
                                if !self.log_store.disabled {
                                    assert forall|o: u64|
                                        #[trigger] has_off(self.log_store.records@, o)
                                        implies o < self.loglet_state.local_tail by {
                                        assert(has_off(pre.log_store.records@, o));
                                    }
                                }
                            }
                            assert(final(self).responses@.subrange(
                                0, old(self).responses@.len() as int) =~= old(self).responses@);
                        }
                    },
                }
            },
        }
    }

    /// One store request dequeued and classified, inboxes aside: exactly the
    /// contract of [`LogletWorker::process_store`].
    #[verifier::opaque]
    pub open spec fn store_step(pre: LogletWorker, post: LogletWorker, e: Envelope<Store>, now: u64) -> bool {
        &&& post.wf()
        &&& state_monotone(pre.loglet_state, post.loglet_state)
        &&& post.known_global_tail == offset_max(
            pre.known_global_tail, e.body.known_global_tail)
        &&& post.global_tail_tracker.latest == offset_max(
            pre.global_tail_tracker.latest, e.body.known_global_tail)
        &&& post.loglet_id == pre.loglet_id
        &&& post.sealing_in_progress == pre.sealing_in_progress
        &&& post.in_flight_seal == pre.in_flight_seal
        &&& post.waiting_for_seal == pre.waiting_for_seal
        &&& post.pending_trims == pre.pending_trims
        &&& ({
            let next_ok = offset_max(
                pre.staging_local_tail,
                offset_max(pre.known_global_tail, e.body.known_global_tail),
            );
            let d = store_decision(
                pre.loglet_state,
                pre.sealing_in_progress,
                next_ok,
                pre.log_store.accepts_work(),
                e.peer,
                e.body,
                now,
            );
            if d != Status::Okay {
                &&& post.responses@ == pre.responses@.push(Response {
                    peer: e.peer,
                    msg_id: e.msg_id,
                    body: ResponseBody::Stored(Stored {
                        local_tail: pre.loglet_state.local_tail,
                        sealed: pre.loglet_state.sealed,
                        status: d,
                    }),
                })
                &&& post.in_flight_stores == pre.in_flight_stores
                &&& post.staging_local_tail == pre.staging_local_tail
                &&& post.loglet_state == pre.loglet_state
                &&& post.log_store == pre.log_store
            } else {
                &&& post.responses == pre.responses
                &&& post.staging_local_tail
                    == e.body.first_offset + e.body.payloads@.len()
                &&& post.loglet_state.local_tail == pre.loglet_state.local_tail
                &&& post.loglet_state.sealed == pre.loglet_state.sealed
                &&& post.loglet_state.trim_point == pre.loglet_state.trim_point
                &&& post.loglet_state.sequencer == Some(e.body.sequencer)
                &&& post.in_flight_stores@ == pre.in_flight_stores@.push(
                    PendingStore {
                        token: pre.log_store.next_token,
                        peer: e.peer,
                        msg_id: e.msg_id,
                        first_offset: e.body.first_offset,
                        num_payloads: e.body.payloads@.len() as u64,
                        future_tail: (e.body.first_offset
                            + e.body.payloads@.len()) as u64,
                    },
                )
                &&& post.log_store.pending@ == pre.log_store.pending@.push((
                    pre.log_store.next_token,
                    LogStoreOp::StoreOp {
                        first_offset: e.body.first_offset,
                        payloads: e.body.payloads,
                        persist_sequencer: pre.loglet_state.sequencer is None,
                        sequencer: e.body.sequencer,
                    },
                ))
                &&& post.log_store.next_token == pre.log_store.next_token + 1
                &&& MemLogStore::durable_unchanged(
                    &pre.log_store, &post.log_store)
            }
        })
    }

    /// One release notice absorbed, inboxes aside: exactly the contract of
    /// [`LogletWorker::process_release`].
    #[verifier::opaque]
    pub open spec fn release_step(pre: LogletWorker, post: LogletWorker, e: Envelope<Release>) -> bool {
        &&& post.wf()
        &&& state_monotone(pre.loglet_state, post.loglet_state)
        &&& post.known_global_tail == offset_max(
            pre.known_global_tail, e.body.known_global_tail)
        &&& post.global_tail_tracker.latest == offset_max(
            pre.global_tail_tracker.latest, e.body.known_global_tail)
        &&& post.loglet_id == pre.loglet_id
        &&& post.log_store == pre.log_store
        &&& post.loglet_state == pre.loglet_state
        &&& post.staging_local_tail == pre.staging_local_tail
        &&& post.sealing_in_progress == pre.sealing_in_progress
        &&& post.in_flight_stores == pre.in_flight_stores
        &&& post.in_flight_seal == pre.in_flight_seal
        &&& post.waiting_for_seal == pre.waiting_for_seal
        &&& post.pending_trims == pre.pending_trims
        &&& post.responses == pre.responses
    }

    /// One seal request handled, inboxes aside: exactly the contract of
    /// [`LogletWorker::process_seal`].
    #[verifier::opaque]
    pub open spec fn seal_step(pre: LogletWorker, post: LogletWorker, e: Envelope<Seal>) -> bool {
        &&& post.wf()
        &&& state_monotone(pre.loglet_state, post.loglet_state)
        &&& post.known_global_tail == offset_max(
            pre.known_global_tail, e.body.known_global_tail)
        &&& post.global_tail_tracker.latest == offset_max(
            pre.global_tail_tracker.latest, e.body.known_global_tail)
        &&& post.loglet_id == pre.loglet_id
        &&& post.loglet_state == pre.loglet_state
        &&& post.staging_local_tail == pre.staging_local_tail
        &&& post.in_flight_stores == pre.in_flight_stores
        &&& post.pending_trims == pre.pending_trims
        &&& pre.loglet_state.sealed ==> {
            &&& post.responses@ == pre.responses@.push(Response {
                peer: e.peer,
                msg_id: e.msg_id,
                body: ResponseBody::Sealed(Sealed {
                    local_tail: pre.loglet_state.local_tail,
                    sealed: true,
                    status: Status::Okay,
                }),
            })
            &&& !post.sealing_in_progress
            &&& post.log_store == pre.log_store
            &&& post.waiting_for_seal == pre.waiting_for_seal
            &&& post.in_flight_seal == pre.in_flight_seal
        }
        &&& !pre.loglet_state.sealed ==> {
            &&& post.responses == pre.responses
            &&& post.sealing_in_progress
            &&& post.waiting_for_seal@ == pre.waiting_for_seal@.push(
                SealWaiter { peer: e.peer, msg_id: e.msg_id })
            &&& (pre.log_store.accepts_work() ==> {
                &&& post.in_flight_seal == Some(pre.log_store.next_token)
                &&& post.log_store.pending@ == pre.log_store.pending@.push(
                    (pre.log_store.next_token, LogStoreOp::SealOp))
                &&& post.log_store.next_token == pre.log_store.next_token + 1
                &&& MemLogStore::durable_unchanged(
                    &pre.log_store, &post.log_store)
            })
            &&& (!pre.log_store.accepts_work() ==> {
                &&& post.in_flight_seal == pre.in_flight_seal
                &&& post.log_store == pre.log_store
            })
        }
    }

    /// One info request answered, inboxes aside: exactly the contract of
    /// [`LogletWorker::process_get_loglet_info`].
    #[verifier::opaque]
    pub open spec fn info_step(pre: LogletWorker, post: LogletWorker, e: Envelope<GetLogletInfo>) -> bool {
        &&& post.wf()
        &&& state_monotone(pre.loglet_state, post.loglet_state)
        &&& post.known_global_tail == offset_max(
            pre.known_global_tail, e.body.known_global_tail)
        &&& post.global_tail_tracker.latest == offset_max(
            pre.global_tail_tracker.latest, e.body.known_global_tail)
        &&& post.loglet_id == pre.loglet_id
        &&& post.log_store == pre.log_store
        &&& post.loglet_state == pre.loglet_state
        &&& post.staging_local_tail == pre.staging_local_tail
        &&& post.sealing_in_progress == pre.sealing_in_progress
        &&& post.in_flight_stores == pre.in_flight_stores
        &&& post.in_flight_seal == pre.in_flight_seal
        &&& post.waiting_for_seal == pre.waiting_for_seal
        &&& post.pending_trims == pre.pending_trims
        &&& post.responses@ == pre.responses@.push(Response {
            peer: e.peer,
            msg_id: e.msg_id,
            body: ResponseBody::LogletInfo(LogletInfo {
                local_tail: pre.loglet_state.local_tail,
                trim_point: pre.loglet_state.trim_point,
                sealed: pre.loglet_state.sealed,
                status: Status::Okay,
            }),
        })
    }

    /// One read request served, inboxes aside: exactly the contract of
    /// [`LogletWorker::process_get_records`].
    #[verifier::opaque]
    pub open spec fn records_step(pre: LogletWorker, post: LogletWorker, e: Envelope<GetRecords>) -> bool {
        &&& post.wf()
        &&& state_monotone(pre.loglet_state, post.loglet_state)
        &&& post.known_global_tail == offset_max(
            pre.known_global_tail, e.body.known_global_tail)
        &&& post.global_tail_tracker.latest == offset_max(
            pre.global_tail_tracker.latest, e.body.known_global_tail)
        &&& post.loglet_id == pre.loglet_id
        &&& post.log_store == pre.log_store
        &&& post.loglet_state == pre.loglet_state
        &&& post.staging_local_tail == pre.staging_local_tail
        &&& post.sealing_in_progress == pre.sealing_in_progress
        &&& post.in_flight_stores == pre.in_flight_stores
        &&& post.in_flight_seal == pre.in_flight_seal
        &&& post.waiting_for_seal == pre.waiting_for_seal
        &&& post.pending_trims == pre.pending_trims
        &&& post.responses@.len() == pre.responses@.len() + 1
        &&& post.responses@.drop_last() == pre.responses@
        &&& post.responses@.last().peer == e.peer
        &&& post.responses@.last().msg_id == e.msg_id
        &&& post.responses@.last().body matches ResponseBody::Records(r) && {
            if e.body.from_offset > e.body.to_offset {
                &&& r.status == Status::Malformed
                &&& r.next_offset == e.body.from_offset
                &&& r.records@.len() == 0
            } else if pre.log_store.disabled {
                &&& r.status == Status::Disabled
                &&& r.next_offset == e.body.from_offset
                &&& r.records@.len() == 0
            } else {
                &&& r.status == Status::Okay
                &&& r.local_tail == pre.loglet_state.local_tail
                &&& r.sealed == pre.loglet_state.sealed
                &&& crate::read::entries_view(r.records@) == crate::read::read_model(
                    pre.log_store.records@,
                    pre.loglet_state.trim_point,
                    pre.loglet_state.local_tail,
                    e.body.from_offset,
                    e.body.to_offset,
                    e.body.filter,
                    crate::read::budget_view(e.body.total_limit_in_bytes),
                ).entries
                &&& r.next_offset == crate::read::read_model(
                    pre.log_store.records@,
                    pre.loglet_state.trim_point,
                    pre.loglet_state.local_tail,
                    e.body.from_offset,
                    e.body.to_offset,
                    e.body.filter,
                    crate::read::budget_view(e.body.total_limit_in_bytes),
                ).next
            }
        }
    }

    /// One trim request handled, inboxes aside: exactly the contract of
    /// [`LogletWorker::process_trim`].
    #[verifier::opaque]
    pub open spec fn trim_step(pre: LogletWorker, post: LogletWorker, e: Envelope<Trim>) -> bool {
        &&& post.wf()
        &&& state_monotone(pre.loglet_state, post.loglet_state)
        &&& post.known_global_tail == offset_max(
            pre.known_global_tail, e.body.known_global_tail)
        &&& post.global_tail_tracker.latest == offset_max(
            pre.global_tail_tracker.latest, e.body.known_global_tail)
        &&& post.loglet_id == pre.loglet_id
        &&& post.loglet_state.local_tail == pre.loglet_state.local_tail
        &&& post.loglet_state.sealed == pre.loglet_state.sealed
        &&& post.loglet_state.sequencer == pre.loglet_state.sequencer
        &&& post.staging_local_tail == pre.staging_local_tail
        &&& post.sealing_in_progress == pre.sealing_in_progress
        &&& post.in_flight_stores == pre.in_flight_stores
        &&& post.in_flight_seal == pre.in_flight_seal
        &&& post.waiting_for_seal == pre.waiting_for_seal
        &&& ({
            let kgt2 = offset_max(pre.known_global_tail, e.body.known_global_tail);
            let tail = pre.loglet_state.local_tail;
            let high_watermark = offset_max(kgt2, tail);
            let clipped = offset_min(e.body.trim_point, (tail - 1) as u64);
            if e.body.trim_point < OFFSET_OLDEST
                || e.body.trim_point >= high_watermark {
                &&& post.responses@ == pre.responses@.push(Response {
                    peer: e.peer,
                    msg_id: e.msg_id,
                    body: ResponseBody::Trimmed(Trimmed {
                        local_tail: tail,
                        sealed: pre.loglet_state.sealed,
                        status: Status::Malformed,
                    }),
                })
                &&& post.loglet_state == pre.loglet_state
                &&& post.log_store == pre.log_store
                &&& post.pending_trims == pre.pending_trims
            } else if clipped > pre.loglet_state.trim_point {
                &&& post.loglet_state.trim_point == clipped
                &&& MemLogStore::durable_unchanged(
                    &pre.log_store, &post.log_store)
                &&& (pre.log_store.accepts_work() ==> {
                    &&& post.responses == pre.responses
                    &&& post.pending_trims@ == pre.pending_trims@.push(
                        PendingTrim {
                            token: pre.log_store.next_token,
                            peer: e.peer,
                            msg_id: e.msg_id,
                        })
                    &&& post.log_store.pending@
                        == pre.log_store.pending@.push((
                        pre.log_store.next_token,
                        LogStoreOp::TrimOp { trim_point: clipped },
                    ))
                    &&& post.log_store.next_token
                        == pre.log_store.next_token + 1
                })
                &&& (!pre.log_store.accepts_work() ==> {
                    &&& post.responses@ == pre.responses@.push(Response {
                        peer: e.peer,
                        msg_id: e.msg_id,
                        body: ResponseBody::Trimmed(Trimmed {
                            local_tail: tail,
                            sealed: pre.loglet_state.sealed,
                            status: Status::Disabled,
                        }),
                    })
                    &&& post.pending_trims == pre.pending_trims
                    &&& post.log_store == pre.log_store
                })
            } else {
                &&& post.responses@ == pre.responses@.push(Response {
                    peer: e.peer,
                    msg_id: e.msg_id,
                    body: ResponseBody::Trimmed(Trimmed {
                        local_tail: tail,
                        sealed: pre.loglet_state.sealed,
                        status: Status::Okay,
                    }),
                })
                &&& post.loglet_state == pre.loglet_state
                &&& post.log_store == pre.log_store
                &&& post.pending_trims == pre.pending_trims
            }
        })
    }

    /// One handed-over operation made durable, with the worker's reaction:
    /// exactly the contract of [`LogletWorker::complete_next`], applicable
    /// while operations are still handed over.
    #[verifier::opaque]
    pub open spec fn completion_step(pre: LogletWorker, post: LogletWorker) -> bool {
        &&& pre.log_store.pending@.len() > 0
        &&& post.wf()
        &&& state_monotone(pre.loglet_state, post.loglet_state)
        &&& Self::same_inboxes(&pre, &post)
        &&& post.loglet_id == pre.loglet_id
        &&& post.log_store.pending@.len() == pre.log_store.pending@.len() - 1
        &&& post.global_tail_tracker == pre.global_tail_tracker
        &&& post.known_global_tail == pre.known_global_tail
        &&& post.staging_local_tail == pre.staging_local_tail
        &&& post.responses@.len() >= pre.responses@.len()
        &&& post.responses@.subrange(0, pre.responses@.len() as int)
            == pre.responses@
        &&& forall|k: int|
            pre.responses@.len() <= k < post.responses@.len()
            ==> Self::stored_ok_covers(
                #[trigger] post.responses@[k], pre.in_flight_stores@)
        &&& ({
            let t = pre.log_store.pending@[0].0;
            let live = !pre.log_store.disabled;
            match pre.log_store.pending@[0].1 {
                LogStoreOp::StoreOp { .. } => {
                    let j = Self::entry_index(pre.in_flight_stores@, t);
                    let e = pre.in_flight_stores@[j];
                    &&& Self::tracked_store(pre.in_flight_stores@, t)
                    &&& 0 <= j < pre.in_flight_stores@.len()
                    &&& post.in_flight_stores@
                        == pre.in_flight_stores@.remove(j)
                    &&& post.pending_trims == pre.pending_trims
                    &&& post.waiting_for_seal == pre.waiting_for_seal
                    &&& post.in_flight_seal == pre.in_flight_seal
                    &&& post.sealing_in_progress == pre.sealing_in_progress
                    &&& post.loglet_state.sealed == pre.loglet_state.sealed
                    &&& post.loglet_state.trim_point
                        == pre.loglet_state.trim_point
                    &&& post.loglet_state.sequencer
                        == pre.loglet_state.sequencer
                    &&& post.loglet_state.local_tail == (if live {
                        offset_max(pre.loglet_state.local_tail, e.future_tail)
                    } else {
                        pre.loglet_state.local_tail
                    })
                    &&& post.responses@ == pre.responses@.push(Response {
                        peer: e.peer,
                        msg_id: e.msg_id,
                        body: ResponseBody::Stored(Stored {
                            local_tail: post.loglet_state.local_tail,
                            sealed: pre.loglet_state.sealed,
                            status: if live {
                                Status::Okay
                            } else {
                                Status::Disabled
                            },
                        }),
                    })
                },
                LogStoreOp::TrimOp { .. } => {
                    let j = Self::trim_index(pre.pending_trims@, t);
                    let e = pre.pending_trims@[j];
                    &&& Self::tracked_trim(pre.pending_trims@, t)
                    &&& 0 <= j < pre.pending_trims@.len()
                    &&& post.pending_trims@ == pre.pending_trims@.remove(j)
                    &&& post.in_flight_stores == pre.in_flight_stores
                    &&& post.waiting_for_seal == pre.waiting_for_seal
                    &&& post.in_flight_seal == pre.in_flight_seal
                    &&& post.sealing_in_progress == pre.sealing_in_progress
                    &&& post.loglet_state == pre.loglet_state
                    &&& post.responses@ == pre.responses@.push(Response {
                        peer: e.peer,
                        msg_id: e.msg_id,
                        body: ResponseBody::Trimmed(Trimmed {
                            local_tail: pre.loglet_state.local_tail,
                            sealed: pre.loglet_state.sealed,
                            status: if live {
                                Status::Okay
                            } else {
                                Status::Disabled
                            },
                        }),
                    })
                },
                LogStoreOp::SealOp => {
                    &&& post.in_flight_stores == pre.in_flight_stores
                    &&& post.pending_trims == pre.pending_trims
                    &&& post.loglet_state.local_tail
                        == pre.loglet_state.local_tail
                    &&& post.loglet_state.trim_point
                        == pre.loglet_state.trim_point
                    &&& post.loglet_state.sequencer
                        == pre.loglet_state.sequencer
                    &&& if pre.in_flight_seal == Some(t) && live {
                        &&& post.loglet_state.sealed
                        &&& !post.sealing_in_progress
                        &&& post.in_flight_seal is None
                        &&& post.waiting_for_seal@.len() == 0
                        &&& post.responses@ == pre.responses@
                            + pre.waiting_for_seal@.map(
                            |i: int, w: SealWaiter| Self::seal_response(
                                w, pre.loglet_state.local_tail))
                    } else {
                        &&& post.loglet_state.sealed
                            == pre.loglet_state.sealed
                        &&& post.sealing_in_progress
                            == pre.sealing_in_progress
                        &&& post.waiting_for_seal == pre.waiting_for_seal
                        &&& post.responses == pre.responses
                        &&& post.in_flight_seal == (
                            if pre.in_flight_seal == Some(t) {
                                Option::<u64>::None
                            } else {
                                pre.in_flight_seal
                            })
                    }
                },
            }
        })
    }

    /// One dequeued message of any kind.
    pub open spec fn message_step(
        pre: LogletWorker,
        post: LogletWorker,
        m: MsgCase,
        now: u64,
    ) -> bool {
        match m {
            MsgCase::MRelease(e) => Self::release_step(pre, post, e),
            MsgCase::MSeal(e) => Self::seal_step(pre, post, e),
            MsgCase::MInfo(e) => Self::info_step(pre, post, e),
            MsgCase::MRecords(e) => Self::records_step(pre, post, e),
            MsgCase::MTrim(e) => Self::trim_step(pre, post, e),
            MsgCase::MStore(e) => Self::store_step(pre, post, e, now),
        }
    }

    /// The worker stepped through these messages, in order: each one by its
    /// handler's contract. Every step fixes the next state, so the chain
    /// fixes the end state up to the inboxes.
    pub open spec fn messages_processed(
        pre: LogletWorker,
        post: LogletWorker,
        msgs: Seq<MsgCase>,
        now: u64,
    ) -> bool
        decreases msgs.len(),
    {
        if msgs.len() == 0 {
            post == pre
        } else {
            exists|mid: LogletWorker|
                #[trigger] Self::message_step(pre, mid, msgs[0], now)
                    && Self::messages_processed(mid, post, msgs.drop_first(), now)
        }
    }

    /// Every handed-over operation was made durable in order, each with the
    /// worker's reaction per [`LogletWorker::completion_step`].
    pub open spec fn completions_drained(pre: LogletWorker, post: LogletWorker) -> bool
        decreases pre.log_store.pending@.len(),
    {
        if pre.log_store.pending@.len() == 0 {
            post == pre
        } else {
            exists|mid: LogletWorker|
                {
                    &&& #[trigger] Self::completion_step(pre, mid)
                    &&& mid.log_store.pending@.len() == pre.log_store.pending@.len() - 1
                    &&& Self::completions_drained(mid, post)
                }
        }
    }

    /// The cached global tail raised to the tracker's published value;
    /// nothing else moved.
    pub open spec fn tracker_observed(pre: LogletWorker, post: LogletWorker) -> bool {
        &&& post.known_global_tail == offset_max(
            pre.known_global_tail, pre.global_tail_tracker.latest)
        &&& post.loglet_id == pre.loglet_id
        &&& post.log_store == pre.log_store
        &&& post.loglet_state == pre.loglet_state
        &&& post.global_tail_tracker == pre.global_tail_tracker
        &&& post.staging_local_tail == pre.staging_local_tail
        &&& post.sealing_in_progress == pre.sealing_in_progress
        &&& Self::same_inboxes(&pre, &post)
        &&& post.in_flight_stores == pre.in_flight_stores
        &&& post.in_flight_seal == pre.in_flight_seal
        &&& post.waiting_for_seal == pre.waiting_for_seal
        &&& post.pending_trims == pre.pending_trims
        &&& post.responses == pre.responses
    }

    /// Everything the six inboxes hold, in the order the loop drains them:
    /// release notices first, then seals, info requests, reads, trims, and
    /// stores last, each inbox oldest first.
    pub open spec fn inbox_contents(w: LogletWorker) -> Seq<MsgCase> {
        w.release_inbox@.map(|i: int, e: Envelope<Release>| MsgCase::MRelease(e))
            + w.seal_inbox@.map(|i: int, e: Envelope<Seal>| MsgCase::MSeal(e))
            + w.info_inbox@.map(|i: int, e: Envelope<GetLogletInfo>| MsgCase::MInfo(e))
            + w.records_inbox@.map(|i: int, e: Envelope<GetRecords>| MsgCase::MRecords(e))
            + w.trim_inbox@.map(|i: int, e: Envelope<Trim>| MsgCase::MTrim(e))
            + w.store_inbox@.map(|i: int, e: Envelope<Store>| MsgCase::MStore(e))
    }

    /// What one poll does: observe the tracker, then step through everything
    /// the inboxes held, in priority order.
    pub open spec fn polled(pre: LogletWorker, post: LogletWorker, now: u64) -> bool {
        exists|w0: LogletWorker|
            {
                &&& #[trigger] Self::tracker_observed(pre, w0)
                &&& Self::messages_processed(w0, post, Self::inbox_contents(pre), now)
            }
    }

    /// Dequeues and handles the oldest release notice.
    fn poll_one_release(&mut self, now: u64)
        requires
            old(self).wf(),
            old(self).release_inbox@.len() > 0,
        ensures
            final(self).wf(),
            state_monotone(old(self).loglet_state, final(self).loglet_state),
            final(self).loglet_id == old(self).loglet_id,
            final(self).release_inbox@ == old(self).release_inbox@.drop_first(),
            final(self).store_inbox == old(self).store_inbox,
            final(self).seal_inbox == old(self).seal_inbox,
            final(self).info_inbox == old(self).info_inbox,
            final(self).records_inbox == old(self).records_inbox,
            final(self).trim_inbox == old(self).trim_inbox,
            Self::message_step(
                *old(self), *final(self), MsgCase::MRelease(old(self).release_inbox@[0]), now),
    {
        let msg = self.release_inbox.remove(0);
        self.process_release(msg);
        proof {
            reveal(LogletWorker::release_step);
            assert(Self::release_step(
                *old(self), *final(self), old(self).release_inbox@[0]));
        }
    }

    /// Dequeues and handles the oldest seal request.
    fn poll_one_seal(&mut self, now: u64)
        requires
            old(self).wf(),
            old(self).seal_inbox@.len() > 0,
        ensures
            final(self).wf(),
            state_monotone(old(self).loglet_state, final(self).loglet_state),
            final(self).loglet_id == old(self).loglet_id,
            final(self).seal_inbox@ == old(self).seal_inbox@.drop_first(),
            final(self).store_inbox == old(self).store_inbox,
            final(self).release_inbox == old(self).release_inbox,
            final(self).info_inbox == old(self).info_inbox,
            final(self).records_inbox == old(self).records_inbox,
            final(self).trim_inbox == old(self).trim_inbox,
            Self::message_step(
                *old(self), *final(self), MsgCase::MSeal(old(self).seal_inbox@[0]), now),
    {
        let msg = self.seal_inbox.remove(0);
        self.process_seal(msg);
        proof {
            reveal(LogletWorker::seal_step);
            assert(Self::seal_step(*old(self), *final(self), old(self).seal_inbox@[0]));
        }
    }

    /// Dequeues and answers the oldest info request.
    fn poll_one_info(&mut self, now: u64)
        requires
            old(self).wf(),
            old(self).info_inbox@.len() > 0,
        ensures
            final(self).wf(),
            state_monotone(old(self).loglet_state, final(self).loglet_state),
            final(self).loglet_id == old(self).loglet_id,
            final(self).info_inbox@ == old(self).info_inbox@.drop_first(),
            final(self).store_inbox == old(self).store_inbox,
            final(self).release_inbox == old(self).release_inbox,
            final(self).seal_inbox == old(self).seal_inbox,
            final(self).records_inbox == old(self).records_inbox,
            final(self).trim_inbox == old(self).trim_inbox,
            Self::message_step(
                *old(self), *final(self), MsgCase::MInfo(old(self).info_inbox@[0]), now),
    {
        let msg = self.info_inbox.remove(0);
        self.process_get_loglet_info(msg);
        proof {
            reveal(LogletWorker::info_step);
            assert(Self::info_step(*old(self), *final(self), old(self).info_inbox@[0]));
        }
    }

    /// Dequeues and serves the oldest read request.
    fn poll_one_records(&mut self, now: u64)
        requires
            old(self).wf(),
            old(self).records_inbox@.len() > 0,
        ensures
            final(self).wf(),
            state_monotone(old(self).loglet_state, final(self).loglet_state),
            final(self).loglet_id == old(self).loglet_id,
            final(self).records_inbox@ == old(self).records_inbox@.drop_first(),
            final(self).store_inbox == old(self).store_inbox,
            final(self).release_inbox == old(self).release_inbox,
            final(self).seal_inbox == old(self).seal_inbox,
            final(self).info_inbox == old(self).info_inbox,
            final(self).trim_inbox == old(self).trim_inbox,
            Self::message_step(
                *old(self), *final(self), MsgCase::MRecords(old(self).records_inbox@[0]), now),
    {
        let msg = self.records_inbox.remove(0);
        self.process_get_records(msg);
        proof {
            reveal(LogletWorker::records_step);
            assert(Self::records_step(
                *old(self), *final(self), old(self).records_inbox@[0]));
        }
    }

    /// Dequeues and handles the oldest trim request.
    fn poll_one_trim(&mut self, now: u64)
        requires
            old(self).wf(),
            old(self).trim_inbox@.len() > 0,
        ensures
            final(self).wf(),
            state_monotone(old(self).loglet_state, final(self).loglet_state),
            final(self).loglet_id == old(self).loglet_id,
            final(self).trim_inbox@ == old(self).trim_inbox@.drop_first(),
            final(self).store_inbox == old(self).store_inbox,
            final(self).release_inbox == old(self).release_inbox,
            final(self).seal_inbox == old(self).seal_inbox,
            final(self).info_inbox == old(self).info_inbox,
            final(self).records_inbox == old(self).records_inbox,
            Self::message_step(
                *old(self), *final(self), MsgCase::MTrim(old(self).trim_inbox@[0]), now),
    {
        let msg = self.trim_inbox.remove(0);
        self.process_trim(msg);
        proof {
            reveal(LogletWorker::trim_step);
            assert(Self::trim_step(*old(self), *final(self), old(self).trim_inbox@[0]));
        }
    }

    /// Dequeues and handles the oldest store request.
    fn poll_one_store(&mut self, now: u64)
        requires
            old(self).wf(),
            old(self).store_inbox@.len() > 0,
        ensures
            final(self).wf(),
            state_monotone(old(self).loglet_state, final(self).loglet_state),
            final(self).loglet_id == old(self).loglet_id,
            final(self).store_inbox@ == old(self).store_inbox@.drop_first(),
            final(self).release_inbox == old(self).release_inbox,
            final(self).seal_inbox == old(self).seal_inbox,
            final(self).info_inbox == old(self).info_inbox,
            final(self).records_inbox == old(self).records_inbox,
            final(self).trim_inbox == old(self).trim_inbox,
            Self::message_step(
                *old(self), *final(self), MsgCase::MStore(old(self).store_inbox@[0]), now),
    {
        proof {
            assert(!self.store_inbox@[0].body.ignore_seal);
        }
        let msg = self.store_inbox.remove(0);
        self.process_store(msg, now);
        proof {
            reveal(LogletWorker::store_step);
            assert(Self::store_step(
                *old(self), *final(self), old(self).store_inbox@[0], now));
        }
    }

    /// Drains the inboxes in the loop's priority order: release notices
    /// first, then seals, info requests, reads, trims, and stores last. The
    /// bias guarantees that a seal wins over any queued store already
    /// visible. The whole drain is exactly one tracker observation followed
    /// by one contracted step per message, in that order.
    #[verifier::rlimit(100)]
    pub fn poll(&mut self, now: u64)
        requires
            old(self).wf(),
        ensures
            final(self).wf(),
            state_monotone(old(self).loglet_state, final(self).loglet_state),
            final(self).loglet_id == old(self).loglet_id,
            final(self).store_inbox@.len() == 0,
            final(self).release_inbox@.len() == 0,
            final(self).seal_inbox@.len() == 0,
            final(self).info_inbox@.len() == 0,
            final(self).records_inbox@.len() == 0,
            final(self).trim_inbox@.len() == 0,
            Self::polled(*old(self), *final(self), now),
    {
        let latest = self.global_tail_tracker.get();
        self.known_global_tail = max_offset(self.known_global_tail, latest);
        let ghost w0 = *self;
        proof {
            assert(Self::tracker_observed(*old(self), w0));
        }
        let ghost mut done: Seq<MsgCase> = Seq::empty();
        proof {
            assert(Self::messages_processed(w0, *self, done, now));
            assert(done + Self::inbox_contents(*self) =~= Self::inbox_contents(w0));
        }
        loop
            invariant
                self.wf(),
                state_monotone(old(self).loglet_state, self.loglet_state),
                self.loglet_id == old(self).loglet_id,
                Self::messages_processed(w0, *self, done, now),
                done + Self::inbox_contents(*self) == Self::inbox_contents(w0),
            ensures
                self.store_inbox@.len() == 0,
                self.release_inbox@.len() == 0,
                self.seal_inbox@.len() == 0,
                self.info_inbox@.len() == 0,
                self.records_inbox@.len() == 0,
                self.trim_inbox@.len() == 0,
                Self::messages_processed(w0, *self, Self::inbox_contents(w0), now),
            decreases
                self.release_inbox@.len() + self.seal_inbox@.len() + self.info_inbox@.len()
                    + self.records_inbox@.len() + self.trim_inbox@.len()
                    + self.store_inbox@.len(),
        {
            let ghost prev = *self;
            let ghost before = Self::inbox_contents(prev);
            if self.release_inbox.len() > 0 {
                let ghost m = MsgCase::MRelease(prev.release_inbox@[0]);
                proof {
                    assert(before[0] == m);
                }
                self.poll_one_release(now);
                proof {
                    lemma_messages_processed_snoc(w0, prev, *self, done, m, now);
                    done = done.push(m);
                    assert(Self::inbox_contents(*self) =~= before.drop_first());
                    assert(done + Self::inbox_contents(*self) =~= Self::inbox_contents(w0));
                }
            } else if self.seal_inbox.len() > 0 {
                let ghost m = MsgCase::MSeal(prev.seal_inbox@[0]);
                proof {
                    assert(before[0] == m);
                }
                self.poll_one_seal(now);
                proof {
                    lemma_messages_processed_snoc(w0, prev, *self, done, m, now);
                    done = done.push(m);
                    assert(Self::inbox_contents(*self) =~= before.drop_first());
                    assert(done + Self::inbox_contents(*self) =~= Self::inbox_contents(w0));
                }
            } else if self.info_inbox.len() > 0 {
                let ghost m = MsgCase::MInfo(prev.info_inbox@[0]);
                proof {
                    assert(before[0] == m);
                }
                self.poll_one_info(now);
                proof {
                    lemma_messages_processed_snoc(w0, prev, *self, done, m, now);
                    done = done.push(m);
                    assert(Self::inbox_contents(*self) =~= before.drop_first());
                    assert(done + Self::inbox_contents(*self) =~= Self::inbox_contents(w0));
                }
            } else if self.records_inbox.len() > 0 {
                let ghost m = MsgCase::MRecords(prev.records_inbox@[0]);
                proof {
                    assert(before[0] == m);
                }
                self.poll_one_records(now);
                proof {
                    lemma_messages_processed_snoc(w0, prev, *self, done, m, now);
                    done = done.push(m);
                    assert(Self::inbox_contents(*self) =~= before.drop_first());
                    assert(done + Self::inbox_contents(*self) =~= Self::inbox_contents(w0));
                }
            } else if self.trim_inbox.len() > 0 {
                let ghost m = MsgCase::MTrim(prev.trim_inbox@[0]);
                proof {
                    assert(before[0] == m);
                }
                self.poll_one_trim(now);
                proof {
                    lemma_messages_processed_snoc(w0, prev, *self, done, m, now);
                    done = done.push(m);
                    assert(Self::inbox_contents(*self) =~= before.drop_first());
                    assert(done + Self::inbox_contents(*self) =~= Self::inbox_contents(w0));
                }
            } else if self.store_inbox.len() > 0 {
                let ghost m = MsgCase::MStore(prev.store_inbox@[0]);
                proof {
                    assert(before[0] == m);
                }
                self.poll_one_store(now);
                proof {
                    lemma_messages_processed_snoc(w0, prev, *self, done, m, now);
                    done = done.push(m);
                    assert(Self::inbox_contents(*self) =~= before.drop_first());
                    assert(done + Self::inbox_contents(*self) =~= Self::inbox_contents(w0));
                }
            } else {
                proof {
                    assert(Self::inbox_contents(*self) =~= Seq::<MsgCase>::empty());
                    assert(done =~= Self::inbox_contents(w0));
                }
                break;
            }
        }
        proof {
            assert(Self::inbox_contents(w0) =~= Self::inbox_contents(*old(self)));
            assert(Self::polled(*old(self), *final(self), now));
        }
    }

    /// Drains the inboxes, then makes every handed-over operation durable in
    /// order, performing each reaction as it lands: one poll, then one
    /// contracted completion step per handed-over operation until none is
    /// left. Everything tracked in flight is therefore answered.
    pub fn run(&mut self, now: u64)
        requires
            old(self).wf(),
        ensures
            final(self).wf(),
            state_monotone(old(self).loglet_state, final(self).loglet_state),
            final(self).loglet_id == old(self).loglet_id,
            final(self).log_store.pending@.len() == 0,
            final(self).in_flight_stores@.len() == 0,
            final(self).pending_trims@.len() == 0,
            final(self).store_inbox@.len() == 0,
            final(self).release_inbox@.len() == 0,
            final(self).seal_inbox@.len() == 0,
            final(self).info_inbox@.len() == 0,
            final(self).records_inbox@.len() == 0,
            final(self).trim_inbox@.len() == 0,
            exists|mid: LogletWorker|
                {
                    &&& #[trigger] Self::polled(*old(self), mid, now)
                    &&& Self::completions_drained(mid, *final(self))
                },
    {
        self.poll(now);
        let ghost mid = *self;
        loop
            invariant
                self.wf(),
                state_monotone(old(self).loglet_state, self.loglet_state),
                self.loglet_id == old(self).loglet_id,
                self.store_inbox@.len() == 0,
                self.release_inbox@.len() == 0,
                self.seal_inbox@.len() == 0,
                self.info_inbox@.len() == 0,
                self.records_inbox@.len() == 0,
                self.trim_inbox@.len() == 0,
                forall|post: LogletWorker| Self::completions_drained(*self, post)
                    ==> #[trigger] Self::completions_drained(mid, post),
            ensures
                self.log_store.pending@.len() == 0,
                self.wf(),
                forall|post: LogletWorker| Self::completions_drained(*self, post)
                    ==> #[trigger] Self::completions_drained(mid, post),
            decreases self.log_store.pending@.len(),
        {
            if !self.log_store.has_pending() {
                break;
            }
            let ghost prev = *self;
            self.complete_next();
            proof {
                assert(Self::completion_step(prev, *self)) by {
                    reveal(LogletWorker::completion_step);
                }
                assert forall|post: LogletWorker| Self::completions_drained(*self, post)
                    implies #[trigger] Self::completions_drained(mid, post) by {
                    assert(Self::completions_drained(prev, post));
                }
            }
        }
        proof {
            assert(Self::completions_drained(*self, *self));
            assert(Self::completions_drained(mid, *final(self)));
            assert(final(self).in_flight_stores@.len() == 0) by {
                if final(self).in_flight_stores@.len() > 0 {
                    assert(LogletWorker::has_store_op(
                        final(self).log_store.pending@, final(self).in_flight_stores@[0]));
                    let i = choose|i: int| #[trigger] LogletWorker::store_op_at(
                        final(self).log_store.pending@, i, final(self).in_flight_stores@[0]);
                }
            }
            assert(final(self).pending_trims@.len() == 0) by {
                if final(self).pending_trims@.len() > 0 {
                    assert(LogletWorker::has_trim_op(
                        final(self).log_store.pending@,
                        final(self).pending_trims@[0].token));
                    let i = choose|i: int| #[trigger] LogletWorker::trim_op_at(
                        final(self).log_store.pending@, i,
                        final(self).pending_trims@[0].token);
                }
            }
        }
    }

    /// The hand-off into the outbox: moves every accumulated response out,
    /// oldest first.
    pub fn take_responses(&mut self) -> (r: Vec<Response>)
        ensures
            r == old(self).responses,
            final(self).responses@.len() == 0,
            Self::same_but_responses(old(self), final(self)),
            old(self).wf() ==> final(self).wf(),
    {
        let mut out: Vec<Response> = Vec::new();
        core::mem::swap(&mut out, &mut self.responses);
        out
    }

    /// Everything except the responses is unchanged.
    pub open spec fn same_but_responses(a: &LogletWorker, b: &LogletWorker) -> bool {
        &&& b.loglet_id == a.loglet_id
        &&& b.log_store == a.log_store
        &&& b.loglet_state == a.loglet_state
        &&& b.global_tail_tracker == a.global_tail_tracker
        &&& b.staging_local_tail == a.staging_local_tail
        &&& b.known_global_tail == a.known_global_tail
        &&& b.sealing_in_progress == a.sealing_in_progress
        &&& b.in_flight_stores == a.in_flight_stores
        &&& b.in_flight_seal == a.in_flight_seal
        &&& b.waiting_for_seal == a.waiting_for_seal
        &&& b.pending_trims == a.pending_trims
        &&& Self::same_inboxes(a, b)
    }

    /// The six inboxes are unchanged.
    pub open spec fn same_inboxes(a: &LogletWorker, b: &LogletWorker) -> bool {
        &&& b.store_inbox == a.store_inbox
        &&& b.release_inbox == a.release_inbox
        &&& b.seal_inbox == a.seal_inbox
        &&& b.info_inbox == a.info_inbox
        &&& b.records_inbox == a.records_inbox
        &&& b.trim_inbox == a.trim_inbox
    }

    /// Everything except the inboxes is unchanged.
    pub open spec fn same_but_inboxes(a: &LogletWorker, b: &LogletWorker) -> bool {
        &&& b.loglet_id == a.loglet_id
        &&& b.log_store == a.log_store
        &&& b.loglet_state == a.loglet_state
        &&& b.global_tail_tracker == a.global_tail_tracker
        &&& b.staging_local_tail == a.staging_local_tail
        &&& b.known_global_tail == a.known_global_tail
        &&& b.sealing_in_progress == a.sealing_in_progress
        &&& b.in_flight_stores == a.in_flight_stores
        &&& b.in_flight_seal == a.in_flight_seal
        &&& b.waiting_for_seal == a.waiting_for_seal
        &&& b.pending_trims == a.pending_trims
        &&& b.responses == a.responses
    }
}

/// Executable mirror of [`store_decision`].
fn classify_store(
    state: &LogletState,
    sealing_in_progress: bool,
    next_ok_offset: u64,
    store_accepts: bool,
    peer: GenerationalNodeId,
    body: &Store,
    now: u64,
) -> (r: Status)
    ensures
        r == store_decision(
            *state, sealing_in_progress, next_ok_offset, store_accepts, peer, *body, now),
{
    if state.sealed && !body.ignore_seal {
        return Status::Sealed;
    }
    if sealing_in_progress {
        return Status::Sealing;
    }
    let expired = match body.timeout_at {
        Option::Some(t) => t < now,
        Option::None => false,
    };
    if expired {
        return Status::Dropped;
    }
    if body.payloads.len() == 0 {
        return Status::Malformed;
    }
    let num = body.payloads.len() as u64;
    match body.first_offset.checked_add(num - 1) {
        Option::Some(last) => {
            if last == u64::MAX {
                return Status::Malformed;
            }
        },
        Option::None => {
            return Status::Malformed;
        },
    };
    if body.first_offset == OFFSET_INVALID {
        return Status::Malformed;
    }
    let seq_mismatch = match state.sequencer {
        Option::Some(s) => s != body.sequencer,
        Option::None => false,
    };
    if seq_mismatch {
        return Status::SequencerMismatch;
    }
    if body.first_offset < next_ok_offset && peer != body.sequencer {
        return Status::SequencerMismatch;
    }
    if body.first_offset > next_ok_offset {
        return Status::OutOfBounds;
    }
    if !store_accepts {
        return Status::Disabled;
    }
    Status::Okay
}

/// One request of any kind, as the worker's loop dequeues it.
pub enum MsgCase {
    MStore(Envelope<Store>),
    MRelease(Envelope<Release>),
    MSeal(Envelope<Seal>),
    MInfo(Envelope<GetLogletInfo>),
    MRecords(Envelope<GetRecords>),
    MTrim(Envelope<Trim>),
}

/// The status a store request is answered with, given the worker's view at
/// admission time: the loglet's state, the seal gate, the admission bound
/// `next_ok_offset = max(staging tail, known global tail)`, and whether the
/// log store accepts work. The rules are checked in this order; the first
/// that applies decides.
pub open spec fn store_decision(
    state: LogletState,
    sealing_in_progress: bool,
    next_ok_offset: u64,
    store_accepts: bool,
    peer: GenerationalNodeId,
    body: Store,
    now: u64,
) -> Status {
    if state.sealed && !body.ignore_seal {
        Status::Sealed
    } else if sealing_in_progress {
        Status::Sealing
    } else if body.expired_spec(now) {
        Status::Dropped
    } else if body.payloads@.len() == 0 {
        Status::Malformed
    } else if body.last_offset_spec() is None {
        Status::Malformed
    } else if body.first_offset == OFFSET_INVALID {
        Status::Malformed
    } else if state.sequencer matches Some(s) && s != body.sequencer {
        Status::SequencerMismatch
    } else if body.first_offset < next_ok_offset && peer != body.sequencer {
        Status::SequencerMismatch
    } else if body.first_offset > next_ok_offset {
        Status::OutOfBounds
    } else if !store_accepts {
        Status::Disabled
    } else {
        Status::Okay
    }
}

/// A store that begins past the admission bound — past everything staged
/// locally and everything globally known — is refused out of hand: there is
/// no out-of-order buffering. Stated for stores that no earlier admission
/// rule already rejects; a sealed loglet, for one, answers `Sealed` instead.
pub proof fn lemma_store_out_of_bounds(
    state: LogletState,
    sealing_in_progress: bool,
    next_ok_offset: u64,
    store_accepts: bool,
    peer: GenerationalNodeId,
    body: Store,
    now: u64,
)
    requires
        !state.sealed,
        !sealing_in_progress,
        !body.expired_spec(now),
        body.payloads@.len() > 0,
        body.last_offset_spec() is Some,
        body.first_offset != OFFSET_INVALID,
        state.sequencer is None || state.sequencer == Some(body.sequencer),
        body.first_offset > next_ok_offset,
    ensures
        store_decision(state, sealing_in_progress, next_ok_offset, store_accepts, peer, body, now)
            == Status::OutOfBounds,
{
}

/// A store whose sequencer field differs from the recorded sequencer is
/// refused as a sequencer mismatch. Stated for stores that no earlier
/// admission rule already rejects.
pub proof fn lemma_store_sequencer_mismatch(
    state: LogletState,
    sealing_in_progress: bool,
    next_ok_offset: u64,
    store_accepts: bool,
    peer: GenerationalNodeId,
    body: Store,
    now: u64,
    s: GenerationalNodeId,
)
    requires
        !state.sealed,
        !sealing_in_progress,
        !body.expired_spec(now),
        body.payloads@.len() > 0,
        body.last_offset_spec() is Some,
        body.first_offset != OFFSET_INVALID,
        state.sequencer == Some(s),
        s != body.sequencer,
    ensures
        store_decision(state, sealing_in_progress, next_ok_offset, store_accepts, peer, body, now)
            == Status::SequencerMismatch,
{
}

/// Once a seal has been requested — the seal gate is up or the loglet is
/// already sealed — every later store is answered `Sealing` or `Sealed`,
/// whatever else it carries.
pub proof fn lemma_store_after_seal(
    state: LogletState,
    sealing_in_progress: bool,
    next_ok_offset: u64,
    store_accepts: bool,
    peer: GenerationalNodeId,
    body: Store,
    now: u64,
)
    requires
        state.sealed || sealing_in_progress,
        !body.ignore_seal,
    ensures
        store_decision(state, sealing_in_progress, next_ok_offset, store_accepts, peer, body, now)
            == Status::Sealed
            || store_decision(
                state, sealing_in_progress, next_ok_offset, store_accepts, peer, body, now)
            == Status::Sealing,
{
}

/// Pushing a non-seal operation preserves the seal bookkeeping.
proof fn lemma_seal_inv_push(
    p0: Seq<(u64, LogStoreOp)>,
    p1: Seq<(u64, LogStoreOp)>,
    x: (u64, LogStoreOp),
    disabled: bool,
    durable_sealed: bool,
    slot: Option<u64>,
    published_sealed: bool,
)
    requires
        LogletWorker::seal_inv(p0, disabled, durable_sealed, slot, published_sealed),
        p1 == p0.push(x),
        !(x.1 is SealOp),
    ensures
        LogletWorker::seal_inv(p1, disabled, durable_sealed, slot, published_sealed),
{
    if !disabled {
        let n = p0.len() as int;
        assert(forall|i: int| 0 <= i < n ==> p1[i] == p0[i]);
        if slot is Some {
            let t = slot->0;
            let i = choose|i: int| #[trigger] LogletWorker::seal_op_at(p0, i, t);
            assert(LogletWorker::seal_op_at(p1, i, t));
            assert(LogletWorker::has_seal_op(p1, t));
        }
        if durable_sealed && !published_sealed {
            let i = choose|i: int| 0 <= i < p0.len() && (#[trigger] p0[i]).1 is SealOp;
            assert(p1[i].1 is SealOp);
        }
        assert forall|i: int| 0 <= i < p1.len() && (#[trigger] p1[i]).1 is SealOp
            implies (slot matches Some(t) && t >= p1[i].0) by {
            assert(i < n);
            assert(p0[i].1 is SealOp);
        }
    }
}

/// Pushing an operation that respects the trim bounds preserves them.
proof fn lemma_trim_bounds_push(
    p0: Seq<(u64, LogStoreOp)>,
    p1: Seq<(u64, LogStoreOp)>,
    x: (u64, LogStoreOp),
    state_trim: u64,
    tail: u64,
)
    requires
        LogletWorker::trim_bounds_inv(p0, state_trim, tail),
        p1 == p0.push(x),
        x.1 matches LogStoreOp::TrimOp { trim_point }
            ==> trim_point <= state_trim && trim_point < tail,
    ensures
        LogletWorker::trim_bounds_inv(p1, state_trim, tail),
{
    let n = p0.len() as int;
    assert(forall|i: int| 0 <= i < n ==> p1[i] == p0[i]);
    assert(p1[n] == x);
}

/// Pushing an operation that persists only the recorded sequencer preserves
/// the persistence bookkeeping.
proof fn lemma_seq_persist_push(
    p0: Seq<(u64, LogStoreOp)>,
    p1: Seq<(u64, LogStoreOp)>,
    x: (u64, LogStoreOp),
    state_seq: Option<GenerationalNodeId>,
)
    requires
        LogletWorker::seq_persist_inv(p0, state_seq),
        p1 == p0.push(x),
        x.1 matches LogStoreOp::StoreOp { persist_sequencer: true, sequencer, .. }
            ==> Some(sequencer) == state_seq,
    ensures
        LogletWorker::seq_persist_inv(p1, state_seq),
{
    let n = p0.len() as int;
    assert(forall|i: int| 0 <= i < n ==> p1[i] == p0[i]);
    assert(p1[n] == x);
}

/// Pushing an operation preserves the sequencer synchronisation as long as
/// the recorded sequencer does not change.
proof fn lemma_seq_sync_push(
    p0: Seq<(u64, LogStoreOp)>,
    p1: Seq<(u64, LogStoreOp)>,
    x: (u64, LogStoreOp),
    disabled: bool,
    store_seq: Option<GenerationalNodeId>,
    state_seq: Option<GenerationalNodeId>,
)
    requires
        LogletWorker::seq_sync_inv(p0, disabled, store_seq, state_seq),
        p1 == p0.push(x),
    ensures
        LogletWorker::seq_sync_inv(p1, disabled, store_seq, state_seq),
{
    let n = p0.len() as int;
    assert(forall|i: int| 0 <= i < n ==> p1[i] == p0[i]);
    if !disabled && store_seq != state_seq {
        let i = choose|i: int| 0 <= i < p0.len()
            && (#[trigger] p0[i]).1 matches LogStoreOp::StoreOp { persist_sequencer: true, .. };
        assert(p1[i] == p0[i]);
        assert(p1[i].1 matches LogStoreOp::StoreOp { persist_sequencer: true, .. });
    }
}

/// Pushing a non-trim operation preserves the trim synchronisation as long
/// as the in-memory trim point does not change.
proof fn lemma_trim_sync_push(
    p0: Seq<(u64, LogStoreOp)>,
    p1: Seq<(u64, LogStoreOp)>,
    x: (u64, LogStoreOp),
    disabled: bool,
    accepts0: bool,
    accepts1: bool,
    trim_durable: u64,
    state_trim: u64,
)
    requires
        LogletWorker::trim_sync_inv(p0, disabled, accepts0, trim_durable, state_trim),
        p1 == p0.push(x),
        !(x.1 is TrimOp),
        accepts1 ==> accepts0,
    ensures
        LogletWorker::trim_sync_inv(p1, disabled, accepts1, trim_durable, state_trim),
{
    let n = p0.len() as int;
    assert(forall|i: int| 0 <= i < n ==> p1[i] == p0[i]);
    assert(p1[n] == x);
    if !disabled && accepts1 {
        if exists|i: int| 0 <= i < p1.len() && (#[trigger] p1[i]).1 is TrimOp {
            let i = choose|i: int| 0 <= i < p1.len() && (#[trigger] p1[i]).1 is TrimOp;
            assert(i < n);
            assert(p0[i].1 is TrimOp);
            let k = choose|k: int|
                0 <= k < p0.len()
                    && ((#[trigger] p0[k]).1 matches LogStoreOp::TrimOp { trim_point }
                        && trim_point == state_trim)
                    && (forall|j: int| k < j < p0.len() ==> !((#[trigger] p0[j]).1 is TrimOp));
            assert(p1[k] == p0[k]);
            assert forall|j: int| k < j < p1.len() implies !((#[trigger] p1[j]).1 is TrimOp) by {
                if j < n {
                    assert(p1[j] == p0[j]);
                }
            }
        }
    }
}

/// Extending the queue by a store operation and its matching in-flight entry
/// preserves the queue bookkeeping, provided the entry's token is fresh.
proof fn lemma_queue_inv_push_store(
    p0: Seq<(u64, LogStoreOp)>,
    p1: Seq<(u64, LogStoreOp)>,
    st0: Seq<PendingStore>,
    st1: Seq<PendingStore>,
    tr: Seq<PendingTrim>,
    entry: PendingStore,
    x: (u64, LogStoreOp),
)
    requires
        LogletWorker::queue_inv(p0, st0, tr),
        p1 == p0.push(x),
        st1 == st0.push(entry),
        LogletWorker::store_entry_wf(entry),
        x.0 == entry.token,
        x.1 matches LogStoreOp::StoreOp { first_offset, payloads, .. }
            && first_offset == entry.first_offset && payloads@.len() == entry.num_payloads,
        forall|i: int| 0 <= i < p0.len() ==> (#[trigger] p0[i]).0 < entry.token,
    ensures
        LogletWorker::queue_inv(p1, st1, tr),
{
    let n = p0.len() as int;
    let m = st0.len() as int;
    assert(forall|i: int| 0 <= i < n ==> p1[i] == p0[i]);
    assert(forall|j: int| 0 <= j < m ==> st1[j] == st0[j]);
    assert(p1[n] == x);
    assert(st1[m] == entry);
    assert forall|j: int| 0 <= j < st0.len() implies (#[trigger] st0[j]).token < entry.token by {
        let i = choose|i: int| #[trigger] LogletWorker::store_op_at(p0, i, st0[j]);
        assert(p0[i].0 < entry.token);
    }
    assert forall|j: int| #![trigger st1[j]] 0 <= j < st1.len()
        implies LogletWorker::has_store_op(p1, st1[j]) by {
        if j < m {
            assert(LogletWorker::has_store_op(p0, st0[j]));
            let i = choose|i: int| #[trigger] LogletWorker::store_op_at(p0, i, st0[j]);
            assert(p1[i] == p0[i]);
            assert(LogletWorker::store_op_at(p1, i, st1[j]));
        } else {
            assert(LogletWorker::store_op_at(p1, n, entry));
            assert(st1[j] == entry);
        }
    }
    assert forall|i: int| 0 <= i < p1.len() && (#[trigger] p1[i]).1 is StoreOp
        implies LogletWorker::tracked_store(st1, p1[i].0) by {
        if i < n {
            assert(LogletWorker::tracked_store(st0, p0[i].0));
            let j = choose|j: int| 0 <= j < st0.len() && (#[trigger] st0[j]).token == p0[i].0;
            assert(st1[j].token == p1[i].0);
        } else {
            assert(st1[m].token == p1[i].0);
        }
    }
    assert forall|j1: int, j2: int|
        0 <= j1 < st1.len() && 0 <= j2 < st1.len()
            && (#[trigger] st1[j1]).token == (#[trigger] st1[j2]).token implies j1 == j2 by {
        if j1 < m && j2 < m {
            assert(st0[j1].token == st0[j2].token);
        } else if j1 < m && j2 == m {
            assert(st0[j1].token < entry.token);
        } else if j1 == m && j2 < m {
            assert(st0[j2].token < entry.token);
        }
    }
    assert forall|j: int| #![trigger tr[j]] 0 <= j < tr.len()
        implies LogletWorker::has_trim_op(p1, tr[j].token) by {
        assert(LogletWorker::has_trim_op(p0, tr[j].token));
        let i = choose|i: int| #[trigger] LogletWorker::trim_op_at(p0, i, tr[j].token);
        assert(p1[i] == p0[i]);
        assert(LogletWorker::trim_op_at(p1, i, tr[j].token));
    }
    assert forall|i: int| 0 <= i < p1.len() && (#[trigger] p1[i]).1 is TrimOp
        implies LogletWorker::tracked_trim(tr, p1[i].0) by {
        assert(i < n);
        assert(p0[i].1 is TrimOp);
    }
}

/// Extending the queue by a seal operation leaves the store and trim
/// bookkeeping intact.
proof fn lemma_queue_inv_push_other(
    p0: Seq<(u64, LogStoreOp)>,
    p1: Seq<(u64, LogStoreOp)>,
    st: Seq<PendingStore>,
    tr: Seq<PendingTrim>,
    x: (u64, LogStoreOp),
)
    requires
        LogletWorker::queue_inv(p0, st, tr),
        p1 == p0.push(x),
        !(x.1 is StoreOp),
        !(x.1 is TrimOp),
    ensures
        LogletWorker::queue_inv(p1, st, tr),
{
    let n = p0.len() as int;
    assert(forall|i: int| 0 <= i < n ==> p1[i] == p0[i]);
    assert(p1[n] == x);
    assert forall|j: int| #![trigger st[j]] 0 <= j < st.len()
        implies LogletWorker::has_store_op(p1, st[j]) by {
        assert(LogletWorker::has_store_op(p0, st[j]));
        let i = choose|i: int| #[trigger] LogletWorker::store_op_at(p0, i, st[j]);
        assert(p1[i] == p0[i]);
        assert(LogletWorker::store_op_at(p1, i, st[j]));
    }
    assert forall|i: int| 0 <= i < p1.len() && (#[trigger] p1[i]).1 is StoreOp
        implies LogletWorker::tracked_store(st, p1[i].0) by {
        assert(i < n);
        assert(p0[i].1 is StoreOp);
    }
    assert forall|j: int| #![trigger tr[j]] 0 <= j < tr.len()
        implies LogletWorker::has_trim_op(p1, tr[j].token) by {
        assert(LogletWorker::has_trim_op(p0, tr[j].token));
        let i = choose|i: int| #[trigger] LogletWorker::trim_op_at(p0, i, tr[j].token);
        assert(p1[i] == p0[i]);
        assert(LogletWorker::trim_op_at(p1, i, tr[j].token));
    }
    assert forall|i: int| 0 <= i < p1.len() && (#[trigger] p1[i]).1 is TrimOp
        implies LogletWorker::tracked_trim(tr, p1[i].0) by {
        assert(i < n);
        assert(p0[i].1 is TrimOp);
    }
}

/// Extending the queue by a trim operation and its outstanding entry
/// preserves the queue bookkeeping, provided the entry's token is fresh.
proof fn lemma_queue_inv_push_trim(
    p0: Seq<(u64, LogStoreOp)>,
    p1: Seq<(u64, LogStoreOp)>,
    st: Seq<PendingStore>,
    tr0: Seq<PendingTrim>,
    tr1: Seq<PendingTrim>,
    entry: PendingTrim,
    x: (u64, LogStoreOp),
)
    requires
        LogletWorker::queue_inv(p0, st, tr0),
        p1 == p0.push(x),
        tr1 == tr0.push(entry),
        x.0 == entry.token,
        x.1 is TrimOp,
        forall|i: int| 0 <= i < p0.len() ==> (#[trigger] p0[i]).0 < entry.token,
    ensures
        LogletWorker::queue_inv(p1, st, tr1),
{
    let n = p0.len() as int;
    let m = tr0.len() as int;
    assert(forall|i: int| 0 <= i < n ==> p1[i] == p0[i]);
    assert(forall|j: int| 0 <= j < m ==> tr1[j] == tr0[j]);
    assert(p1[n] == x);
    assert(tr1[m] == entry);
    assert forall|j: int| 0 <= j < tr0.len() implies (#[trigger] tr0[j]).token < entry.token by {
        assert(LogletWorker::has_trim_op(p0, tr0[j].token));
        let i = choose|i: int| #[trigger] LogletWorker::trim_op_at(p0, i, tr0[j].token);
        assert(p0[i].0 < entry.token);
    }
    assert forall|j: int| #![trigger st[j]] 0 <= j < st.len()
        implies LogletWorker::has_store_op(p1, st[j]) by {
        assert(LogletWorker::has_store_op(p0, st[j]));
        let i = choose|i: int| #[trigger] LogletWorker::store_op_at(p0, i, st[j]);
        assert(p1[i] == p0[i]);
        assert(LogletWorker::store_op_at(p1, i, st[j]));
    }
    assert forall|i: int| 0 <= i < p1.len() && (#[trigger] p1[i]).1 is StoreOp
        implies LogletWorker::tracked_store(st, p1[i].0) by {
        assert(i < n);
        assert(p0[i].1 is StoreOp);
    }
    assert forall|j: int| #![trigger tr1[j]] 0 <= j < tr1.len()
        implies LogletWorker::has_trim_op(p1, tr1[j].token) by {
        if j < m {
            assert(LogletWorker::has_trim_op(p0, tr0[j].token));
            let i = choose|i: int| #[trigger] LogletWorker::trim_op_at(p0, i, tr0[j].token);
            assert(p1[i] == p0[i]);
            assert(LogletWorker::trim_op_at(p1, i, tr1[j].token));
        } else {
            assert(LogletWorker::trim_op_at(p1, n, entry.token));
        }
    }
    assert forall|i: int| 0 <= i < p1.len() && (#[trigger] p1[i]).1 is TrimOp
        implies LogletWorker::tracked_trim(tr1, p1[i].0) by {
        if i < n {
            assert(LogletWorker::tracked_trim(tr0, p0[i].0));
            let j = choose|j: int| 0 <= j < tr0.len() && (#[trigger] tr0[j]).token == p0[i].0;
            assert(tr1[j].token == p1[i].0);
        } else {
            assert(tr1[m].token == p1[i].0);
        }
    }
    assert forall|j1: int, j2: int|
        0 <= j1 < tr1.len() && 0 <= j2 < tr1.len()
            && (#[trigger] tr1[j1]).token == (#[trigger] tr1[j2]).token implies j1 == j2 by {
        if j1 < m && j2 < m {
            assert(tr0[j1].token == tr0[j2].token);
        } else if j1 < m && j2 == m {
            assert(tr0[j1].token < entry.token);
        } else if j1 == m && j2 < m {
            assert(tr0[j2].token < entry.token);
        }
    }
}

/// Completing the queue's head store operation and dropping its in-flight
/// entry preserves the queue bookkeeping.
proof fn lemma_queue_inv_remove_store(
    p0: Seq<(u64, LogStoreOp)>,
    p1: Seq<(u64, LogStoreOp)>,
    st0: Seq<PendingStore>,
    st1: Seq<PendingStore>,
    tr: Seq<PendingTrim>,
    j: int,
)
    requires
        LogletWorker::queue_inv(p0, st0, tr),
        p0.len() > 0,
        p1 == p0.drop_first(),
        p0[0].1 is StoreOp,
        0 <= j < st0.len(),
        st0[j].token == p0[0].0,
        st1 == st0.remove(j),
        forall|i1: int, i2: int| 0 <= i1 < i2 < p0.len()
            ==> (#[trigger] p0[i1]).0 < (#[trigger] p0[i2]).0,
    ensures
        LogletWorker::queue_inv(p1, st1, tr),
{
    let n = p0.len() as int;
    let m = st0.len() as int;
    assert(forall|i: int| 0 <= i < p1.len() ==> p1[i] == p0[i + 1]);
    assert(forall|k: int| 0 <= k < j ==> st1[k] == st0[k]);
    assert(forall|k: int| j <= k < st1.len() ==> st1[k] == st0[k + 1]);
    assert forall|k: int| #![trigger st1[k]] 0 <= k < st1.len()
        implies LogletWorker::has_store_op(p1, st1[k]) && LogletWorker::store_entry_wf(st1[k]) by {
        let k0 = if k < j { k } else { k + 1 };
        assert(st1[k] == st0[k0]);
        assert(LogletWorker::has_store_op(p0, st0[k0]));
        let i = choose|i: int| #[trigger] LogletWorker::store_op_at(p0, i, st0[k0]);
        assert(i != 0) by {
            if i == 0 {
                assert(st0[k0].token == p0[0].0);
                assert(st0[j].token == st0[k0].token);
                assert(k0 == j);
            }
        }
        assert(p1[i - 1] == p0[i]);
        assert(LogletWorker::store_op_at(p1, i - 1, st1[k]));
    }
    assert forall|i: int| 0 <= i < p1.len() && (#[trigger] p1[i]).1 is StoreOp
        implies LogletWorker::tracked_store(st1, p1[i].0) by {
        assert(p1[i] == p0[i + 1]);
        assert(LogletWorker::tracked_store(st0, p0[i + 1].0));
        let k = choose|k: int| 0 <= k < st0.len() && (#[trigger] st0[k]).token == p0[i + 1].0;
        assert(k != j) by {
            assert(p0[0].0 < p0[i + 1].0);
        }
        if k < j {
            assert(st1[k].token == p1[i].0);
        } else {
            assert(st1[k - 1].token == p1[i].0);
        }
    }
    assert forall|k1: int, k2: int|
        0 <= k1 < st1.len() && 0 <= k2 < st1.len()
            && (#[trigger] st1[k1]).token == (#[trigger] st1[k2]).token implies k1 == k2 by {
        let a1 = if k1 < j { k1 } else { k1 + 1 };
        let a2 = if k2 < j { k2 } else { k2 + 1 };
        assert(st0[a1].token == st0[a2].token);
    }
    assert forall|k: int| #![trigger tr[k]] 0 <= k < tr.len()
        implies LogletWorker::has_trim_op(p1, tr[k].token) by {
        assert(LogletWorker::has_trim_op(p0, tr[k].token));
        let i = choose|i: int| #[trigger] LogletWorker::trim_op_at(p0, i, tr[k].token);
        assert(i != 0);
        assert(p1[i - 1] == p0[i]);
        assert(LogletWorker::trim_op_at(p1, i - 1, tr[k].token));
    }
    assert forall|i: int| 0 <= i < p1.len() && (#[trigger] p1[i]).1 is TrimOp
        implies LogletWorker::tracked_trim(tr, p1[i].0) by {
        assert(p1[i] == p0[i + 1]);
        assert(p0[i + 1].1 is TrimOp);
    }
}

/// Completing the queue's head trim operation and dropping its outstanding
/// entry preserves the queue bookkeeping.
proof fn lemma_queue_inv_remove_trim(
    p0: Seq<(u64, LogStoreOp)>,
    p1: Seq<(u64, LogStoreOp)>,
    st: Seq<PendingStore>,
    tr0: Seq<PendingTrim>,
    tr1: Seq<PendingTrim>,
    j: int,
)
    requires
        LogletWorker::queue_inv(p0, st, tr0),
        p0.len() > 0,
        p1 == p0.drop_first(),
        p0[0].1 is TrimOp,
        0 <= j < tr0.len(),
        tr0[j].token == p0[0].0,
        tr1 == tr0.remove(j),
        forall|i1: int, i2: int| 0 <= i1 < i2 < p0.len()
            ==> (#[trigger] p0[i1]).0 < (#[trigger] p0[i2]).0,
    ensures
        LogletWorker::queue_inv(p1, st, tr1),
{
    let n = p0.len() as int;
    let m = tr0.len() as int;
    assert(forall|i: int| 0 <= i < p1.len() ==> p1[i] == p0[i + 1]);
    assert(forall|k: int| 0 <= k < j ==> tr1[k] == tr0[k]);
    assert(forall|k: int| j <= k < tr1.len() ==> tr1[k] == tr0[k + 1]);
    assert forall|k: int| #![trigger st[k]] 0 <= k < st.len()
        implies LogletWorker::has_store_op(p1, st[k]) by {
        assert(LogletWorker::has_store_op(p0, st[k]));
        let i = choose|i: int| #[trigger] LogletWorker::store_op_at(p0, i, st[k]);
        assert(i != 0);
        assert(p1[i - 1] == p0[i]);
        assert(LogletWorker::store_op_at(p1, i - 1, st[k]));
    }
    assert forall|i: int| 0 <= i < p1.len() && (#[trigger] p1[i]).1 is StoreOp
        implies LogletWorker::tracked_store(st, p1[i].0) by {
        assert(p1[i] == p0[i + 1]);
        assert(p0[i + 1].1 is StoreOp);
    }
    assert forall|k: int| #![trigger tr1[k]] 0 <= k < tr1.len()
        implies LogletWorker::has_trim_op(p1, tr1[k].token) by {
        let k0 = if k < j { k } else { k + 1 };
        assert(tr1[k] == tr0[k0]);
        assert(LogletWorker::has_trim_op(p0, tr0[k0].token));
        let i = choose|i: int| #[trigger] LogletWorker::trim_op_at(p0, i, tr0[k0].token);
        assert(i != 0) by {
            if i == 0 {
                assert(tr0[k0].token == p0[0].0);
                assert(tr0[j].token == tr0[k0].token);
                assert(k0 == j);
            }
        }
        assert(p1[i - 1] == p0[i]);
        assert(LogletWorker::trim_op_at(p1, i - 1, tr1[k].token));
    }
    assert forall|i: int| 0 <= i < p1.len() && (#[trigger] p1[i]).1 is TrimOp
        implies LogletWorker::tracked_trim(tr1, p1[i].0) by {
        assert(p1[i] == p0[i + 1]);
        assert(LogletWorker::tracked_trim(tr0, p0[i + 1].0));
        let k = choose|k: int| 0 <= k < tr0.len() && (#[trigger] tr0[k]).token == p0[i + 1].0;
        assert(k != j) by {
            assert(p0[0].0 < p0[i + 1].0);
        }
        if k < j {
            assert(tr1[k].token == p1[i].0);
        } else {
            assert(tr1[k - 1].token == p1[i].0);
        }
    }
    assert forall|k1: int, k2: int|
        0 <= k1 < tr1.len() && 0 <= k2 < tr1.len()
            && (#[trigger] tr1[k1]).token == (#[trigger] tr1[k2]).token implies k1 == k2 by {
        let a1 = if k1 < j { k1 } else { k1 + 1 };
        let a2 = if k2 < j { k2 } else { k2 + 1 };
        assert(tr0[a1].token == tr0[a2].token);
    }
}

/// Completing a queue head that is neither a store nor a trim preserves the
/// queue bookkeeping without touching the tracked entries.
proof fn lemma_queue_inv_remove_other(
    p0: Seq<(u64, LogStoreOp)>,
    p1: Seq<(u64, LogStoreOp)>,
    st: Seq<PendingStore>,
    tr: Seq<PendingTrim>,
)
    requires
        LogletWorker::queue_inv(p0, st, tr),
        p0.len() > 0,
        p1 == p0.drop_first(),
        !(p0[0].1 is StoreOp),
        !(p0[0].1 is TrimOp),
    ensures
        LogletWorker::queue_inv(p1, st, tr),
{
    assert(forall|i: int| 0 <= i < p1.len() ==> p1[i] == p0[i + 1]);
    assert forall|k: int| #![trigger st[k]] 0 <= k < st.len()
        implies LogletWorker::has_store_op(p1, st[k]) by {
        assert(LogletWorker::has_store_op(p0, st[k]));
        let i = choose|i: int| #[trigger] LogletWorker::store_op_at(p0, i, st[k]);
        assert(i != 0);
        assert(p1[i - 1] == p0[i]);
        assert(LogletWorker::store_op_at(p1, i - 1, st[k]));
    }
    assert forall|i: int| 0 <= i < p1.len() && (#[trigger] p1[i]).1 is StoreOp
        implies LogletWorker::tracked_store(st, p1[i].0) by {
        assert(p1[i] == p0[i + 1]);
        assert(p0[i + 1].1 is StoreOp);
    }
    assert forall|k: int| #![trigger tr[k]] 0 <= k < tr.len()
        implies LogletWorker::has_trim_op(p1, tr[k].token) by {
        assert(LogletWorker::has_trim_op(p0, tr[k].token));
        let i = choose|i: int| #[trigger] LogletWorker::trim_op_at(p0, i, tr[k].token);
        assert(i != 0);
        assert(p1[i - 1] == p0[i]);
        assert(LogletWorker::trim_op_at(p1, i - 1, tr[k].token));
    }
    assert forall|i: int| 0 <= i < p1.len() && (#[trigger] p1[i]).1 is TrimOp
        implies LogletWorker::tracked_trim(tr, p1[i].0) by {
        assert(p1[i] == p0[i + 1]);
        assert(p0[i + 1].1 is TrimOp);
    }
}

/// Completing a non-seal head preserves the seal bookkeeping.
proof fn lemma_seal_inv_remove_nonseal(
    p0: Seq<(u64, LogStoreOp)>,
    p1: Seq<(u64, LogStoreOp)>,
    disabled: bool,
    durable_sealed: bool,
    slot: Option<u64>,
    published_sealed: bool,
)
    requires
        LogletWorker::seal_inv(p0, disabled, durable_sealed, slot, published_sealed),
        p0.len() > 0,
        p1 == p0.drop_first(),
        !(p0[0].1 is SealOp),
    ensures
        LogletWorker::seal_inv(p1, disabled, durable_sealed, slot, published_sealed),
{
    if !disabled {
        assert(forall|i: int| 0 <= i < p1.len() ==> p1[i] == p0[i + 1]);
        if slot is Some {
            let t = slot->0;
            let i = choose|i: int| #[trigger] LogletWorker::seal_op_at(p0, i, t);
            assert(i != 0);
            assert(LogletWorker::seal_op_at(p1, i - 1, t));
            assert(LogletWorker::has_seal_op(p1, t));
        }
        if durable_sealed && !published_sealed {
            let i = choose|i: int| 0 <= i < p0.len() && (#[trigger] p0[i]).1 is SealOp;
            assert(i != 0);
            assert(p1[i - 1].1 is SealOp);
        }
        assert forall|i: int| 0 <= i < p1.len() && (#[trigger] p1[i]).1 is SealOp
            implies (slot matches Some(t) && t >= p1[i].0) by {
            assert(p1[i] == p0[i + 1]);
            assert(p0[i + 1].1 is SealOp);
        }
    }
}

/// Completing the queue head preserves the trim bounds, also under a tail
/// that moved forward.
proof fn lemma_drop_first_trim_bounds(
    p0: Seq<(u64, LogStoreOp)>,
    p1: Seq<(u64, LogStoreOp)>,
    state_trim: u64,
    tail0: u64,
    tail1: u64,
)
    requires
        LogletWorker::trim_bounds_inv(p0, state_trim, tail0),
        p0.len() > 0,
        p1 == p0.drop_first(),
        tail0 <= tail1,
    ensures
        LogletWorker::trim_bounds_inv(p1, state_trim, tail1),
{
    assert(forall|i: int| 0 <= i < p1.len() ==> p1[i] == p0[i + 1]);
}

/// Completing the queue head preserves the sequencer-persistence
/// bookkeeping.
proof fn lemma_drop_first_seq_persist(
    p0: Seq<(u64, LogStoreOp)>,
    p1: Seq<(u64, LogStoreOp)>,
    state_seq: Option<GenerationalNodeId>,
)
    requires
        LogletWorker::seq_persist_inv(p0, state_seq),
        p0.len() > 0,
        p1 == p0.drop_first(),
    ensures
        LogletWorker::seq_persist_inv(p1, state_seq),
{
    assert(forall|i: int| 0 <= i < p1.len() ==> p1[i] == p0[i + 1]);
}

/// Completing a non-trim head preserves the trim synchronisation.
proof fn lemma_drop_first_trim_sync_nontrim(
    p0: Seq<(u64, LogStoreOp)>,
    p1: Seq<(u64, LogStoreOp)>,
    trim_durable: u64,
    state_trim: u64,
)
    requires
        LogletWorker::trim_sync_inv(p0, false, true, trim_durable, state_trim),
        p0.len() > 0,
        p1 == p0.drop_first(),
        !(p0[0].1 is TrimOp),
    ensures
        LogletWorker::trim_sync_inv(p1, false, true, trim_durable, state_trim),
{
    assert(forall|i: int| 0 <= i < p1.len() ==> p1[i] == p0[i + 1]);
    if exists|i: int| 0 <= i < p1.len() && (#[trigger] p1[i]).1 is TrimOp {
        let w = choose|i: int| 0 <= i < p1.len() && (#[trigger] p1[i]).1 is TrimOp;
        assert(p0[w + 1].1 is TrimOp);
        let k = choose|k: int|
            0 <= k < p0.len()
                && ((#[trigger] p0[k]).1 matches LogStoreOp::TrimOp { trim_point }
                    && trim_point == state_trim)
                && (forall|j: int| k < j < p0.len() ==> !((#[trigger] p0[j]).1 is TrimOp));
        assert(k != 0);
        assert(p1[k - 1] == p0[k]);
        assert((p1[k - 1].1 matches LogStoreOp::TrimOp { trim_point }
            && trim_point == state_trim));
        assert forall|j: int| k - 1 < j < p1.len()
            implies !((#[trigger] p1[j]).1 is TrimOp) by {
            assert(p1[j] == p0[j + 1]);
        }
    } else {
        assert(p0[0].1 is TrimOp || trim_durable == state_trim) by {
            if !(trim_durable == state_trim) {
                let i = choose|i: int| 0 <= i < p0.len() && (#[trigger] p0[i]).1 is TrimOp;
                if i != 0 {
                    assert(p1[i - 1] == p0[i]);
                    assert(p1[i - 1].1 is TrimOp);
                }
            }
        }
    }
}

/// Completing the head trim operation preserves the trim synchronisation:
/// either further trims are still queued, or the applied trim was the newest
/// and brings the persisted trim point up to the in-memory one.
proof fn lemma_drop_first_trim_sync_trim(
    p0: Seq<(u64, LogStoreOp)>,
    p1: Seq<(u64, LogStoreOp)>,
    trim_durable0: u64,
    trim_durable1: u64,
    state_trim: u64,
)
    requires
        LogletWorker::trim_sync_inv(p0, false, true, trim_durable0, state_trim),
        trim_durable0 <= state_trim,
        p0.len() > 0,
        p1 == p0.drop_first(),
        p0[0].1 is TrimOp,
        trim_durable1 == offset_max(trim_durable0, p0[0].1->TrimOp_trim_point),
    ensures
        LogletWorker::trim_sync_inv(p1, false, true, trim_durable1, state_trim),
{
    assert(forall|i: int| 0 <= i < p1.len() ==> p1[i] == p0[i + 1]);
    let k = choose|k: int|
        0 <= k < p0.len()
            && ((#[trigger] p0[k]).1 matches LogStoreOp::TrimOp { trim_point }
                && trim_point == state_trim)
            && (forall|j: int| k < j < p0.len() ==> !((#[trigger] p0[j]).1 is TrimOp));
    if exists|i: int| 0 <= i < p1.len() && (#[trigger] p1[i]).1 is TrimOp {
        let w = choose|i: int| 0 <= i < p1.len() && (#[trigger] p1[i]).1 is TrimOp;
        assert(p0[w + 1].1 is TrimOp);
        assert(k != 0) by {
            if k == 0 {
                assert(!(p0[w + 1].1 is TrimOp));
            }
        }
        assert(p1[k - 1] == p0[k]);
        assert forall|j: int| k - 1 < j < p1.len()
            implies !((#[trigger] p1[j]).1 is TrimOp) by {
            assert(p1[j] == p0[j + 1]);
        }
    } else {
        assert(k == 0) by {
            if k != 0 {
                assert(p1[k - 1] == p0[k]);
                assert(p1[k - 1].1 is TrimOp);
            }
        }
        assert(p0[0].1->TrimOp_trim_point == state_trim);
        assert(trim_durable1 == state_trim);
    }
}

/// After a restart, the in-memory state reloaded from the log store shows
/// exactly the local tail, trim point, seal flag and sequencer that the
/// worker had published before shutdown, provided the store stayed live and
/// every handed-over operation had become durable: durability lags the
/// published state by at most the handed-over queue.
pub proof fn lemma_restart_preserves_state(w: LogletWorker, reloaded: LogletState)
    requires
        w.wf(),
        !w.log_store.disabled,
        w.log_store.accepts_work(),
        w.log_store.pending@.len() == 0,
        MemLogStore::loaded_state(w.log_store, reloaded),
    ensures
        reloaded.local_tail == w.loglet_state.local_tail,
        reloaded.trim_point == w.loglet_state.trim_point,
        reloaded.sealed == w.loglet_state.sealed,
        reloaded.sequencer == w.loglet_state.sequencer,
{
    let p = w.log_store.pending@;
    assert(!(exists|i: int| 0 <= i < p.len() && (#[trigger] p[i]).1 is TrimOp));
    assert(w.log_store.trim_point == w.loglet_state.trim_point);
    assert(w.log_store.sealed == w.loglet_state.sealed) by {
        if w.log_store.sealed && !w.loglet_state.sealed {
            let i = choose|i: int| 0 <= i < p.len() && (#[trigger] p[i]).1 is SealOp;
        }
    }
    assert(w.log_store.sequencer == w.loglet_state.sequencer) by {
        if w.log_store.sequencer != w.loglet_state.sequencer {
            let i = choose|i: int| 0 <= i < p.len()
                && (#[trigger] p[i]).1 matches LogStoreOp::StoreOp {
                    persist_sequencer: true, ..
                };
        }
    }
    let tl = reloaded.local_tail;
    let tw = w.loglet_state.local_tail;
    assert(tl == tw) by {
        if tl < tw {
            assert(tw != OFFSET_OLDEST);
            if has_off(w.log_store.records@, (tw - 1) as u64) {
                assert(((tw - 1) as u64) < tl);
            } else {
                assert(w.log_store.trim_point == tw - 1);
                assert(reloaded.trim_point < tl);
            }
        }
        if tw < tl {
            assert(tl != OFFSET_OLDEST);
            if has_off(w.log_store.records@, (tl - 1) as u64) {
                assert(((tl - 1) as u64) < tw);
            } else {
                assert(w.log_store.trim_point == tl - 1);
                assert(w.loglet_state.trim_point < tw);
            }
        }
    }
}

/// Extending a processed-message chain by one further contracted step.
proof fn lemma_messages_processed_snoc(
    pre: LogletWorker,
    mid: LogletWorker,
    post: LogletWorker,
    msgs: Seq<MsgCase>,
    m: MsgCase,
    now: u64,
)
    requires
        LogletWorker::messages_processed(pre, mid, msgs, now),
        LogletWorker::message_step(mid, post, m, now),
    ensures
        LogletWorker::messages_processed(pre, post, msgs.push(m), now),
    decreases msgs.len(),
{
    assert(msgs.push(m).len() > 0);
    if msgs.len() == 0 {
        assert(mid == pre);
        assert(msgs.push(m)[0] == m);
        assert(msgs.push(m).drop_first() =~= Seq::<MsgCase>::empty());
        assert(LogletWorker::messages_processed(post, post, msgs.push(m).drop_first(), now));
        assert(LogletWorker::message_step(pre, post, m, now));
    } else {
        let w = choose|w: LogletWorker|
            #[trigger] LogletWorker::message_step(pre, w, msgs[0], now)
                && LogletWorker::messages_processed(w, mid, msgs.drop_first(), now);
        lemma_messages_processed_snoc(w, mid, post, msgs.drop_first(), m, now);
        assert(msgs.push(m)[0] == msgs[0]);
        assert(msgs.push(m).drop_first() =~= msgs.drop_first().push(m));
        assert(LogletWorker::messages_processed(w, post, msgs.push(m).drop_first(), now));
    }
}

} // verus!
