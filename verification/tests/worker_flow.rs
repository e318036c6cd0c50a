use loglet_worker::logstore::MemLogStore;
use loglet_worker::messages::{
    Envelope, GetLogletInfo, GetRecords, MaybeRecord, Release, ResponseBody, Seal, Status, Store,
    Trim,
};
use loglet_worker::records::{KeyFilter, Keys, Record};
use loglet_worker::state::{GlobalTailTracker, LogletState};
use loglet_worker::types::{GenerationalNodeId, OFFSET_INVALID, OFFSET_OLDEST};
use loglet_worker::worker::LogletWorker;

const LOGLET: u64 = 1;

fn sequencer() -> GenerationalNodeId {
    GenerationalNodeId::new(1, 1)
}

fn setup() -> LogletWorker {
    LogletWorker::start(
        LOGLET,
        MemLogStore::new(),
        LogletState::new(),
        GlobalTailTracker::new(),
    )
}

fn store_body(first_offset: u64, known_global_tail: u64, payloads: Vec<Record>) -> Store {
    Store {
        loglet_id: LOGLET,
        timeout_at: None,
        sequencer: sequencer(),
        known_archived: OFFSET_INVALID,
        known_global_tail,
        first_offset,
        ignore_seal: false,
        payloads,
    }
}

fn env<T>(msg_id: u64, body: T) -> Envelope<T> {
    Envelope {
        peer: sequencer(),
        msg_id,
        body,
    }
}

fn stored(r: &ResponseBody) -> (u64, Status) {
    match r {
        ResponseBody::Stored(s) => (s.local_tail, s.status),
        _ => panic!("expected a store response"),
    }
}

fn sealed(r: &ResponseBody) -> (u64, Status) {
    match r {
        ResponseBody::Sealed(s) => (s.local_tail, s.status),
        _ => panic!("expected a seal response"),
    }
}

fn trimmed(r: &ResponseBody) -> (u64, bool, Status) {
    match r {
        ResponseBody::Trimmed(t) => (t.local_tail, t.sealed, t.status),
        _ => panic!("expected a trim response"),
    }
}

#[test]
fn test_simple_store_flow() {
    let mut worker = setup();

    let payloads = vec![
        Record::plain(b"a sample record".to_vec()),
        Record::plain(b"another record".to_vec()),
    ];
    let payloads2 = vec![
        Record::plain(b"a sample record".to_vec()),
        Record::plain(b"another record".to_vec()),
    ];

    // offsets 1, 2 then pipelined offsets 3, 4
    worker.enqueue_store(env(1, store_body(OFFSET_OLDEST, OFFSET_INVALID, payloads)));
    worker.enqueue_store(env(2, store_body(3, OFFSET_INVALID, payloads2)));
    worker.run(0);

    let rs = worker.take_responses();
    assert_eq!(rs.len(), 2);
    assert_eq!(rs[0].msg_id, 1);
    assert_eq!(stored(&rs[0].body), (3, Status::Okay));
    assert_eq!(rs[1].msg_id, 2);
    assert_eq!(stored(&rs[1].body), (5, Status::Okay));
}

#[test]
fn test_store_and_seal() {
    let mut worker = setup();

    let payloads = vec![
        Record::plain(b"a sample record".to_vec()),
        Record::plain(b"another record".to_vec()),
    ];
    worker.enqueue_store(env(1, store_body(OFFSET_OLDEST, OFFSET_INVALID, payloads)));
    worker.run(0);
    let rs = worker.take_responses();
    assert_eq!(rs.len(), 1);
    assert_eq!(stored(&rs[0].body), (3, Status::Okay));

    // two seals race a store; the store observes the seal gate
    worker.enqueue_seal(env(
        10,
        Seal {
            loglet_id: LOGLET,
            sequencer: sequencer(),
            known_global_tail: OFFSET_INVALID,
        },
    ));
    worker.enqueue_seal(env(
        11,
        Seal {
            loglet_id: LOGLET,
            sequencer: sequencer(),
            known_global_tail: OFFSET_INVALID,
        },
    ));
    let payloads2 = vec![
        Record::plain(b"a sample record".to_vec()),
        Record::plain(b"another record".to_vec()),
    ];
    worker.enqueue_store(env(2, store_body(3, OFFSET_INVALID, payloads2)));
    worker.run(0);

    let rs = worker.take_responses();
    assert_eq!(rs.len(), 3);
    // the store is answered first: it found the seal in progress
    assert_eq!(rs[0].msg_id, 2);
    assert_eq!(stored(&rs[0].body), (3, Status::Sealing));
    // both seal waiters are released by the seal notification, in any order
    let mut seal_ids = vec![rs[1].msg_id, rs[2].msg_id];
    seal_ids.sort();
    assert_eq!(seal_ids, vec![10, 11]);
    assert_eq!(sealed(&rs[1].body), (3, Status::Okay));
    assert_eq!(sealed(&rs[2].body), (3, Status::Okay));

    // a store after the seal is refused as sealed
    let payloads3 = vec![
        Record::plain(b"a sample record".to_vec()),
        Record::plain(b"another record".to_vec()),
    ];
    worker.enqueue_store(env(3, store_body(3, 3, payloads3)));
    worker.run(0);
    let rs = worker.take_responses();
    assert_eq!(rs.len(), 1);
    assert_eq!(stored(&rs[0].body), (3, Status::Sealed));

    // the info now reports the sealed tail and the untouched trim point
    worker.enqueue_get_loglet_info(env(
        4,
        GetLogletInfo {
            loglet_id: LOGLET,
            known_global_tail: OFFSET_INVALID,
        },
    ));
    worker.run(0);
    let rs = worker.take_responses();
    assert_eq!(rs.len(), 1);
    match &rs[0].body {
        ResponseBody::LogletInfo(info) => {
            assert_eq!(info.status, Status::Okay);
            assert_eq!(info.local_tail, 3);
            assert_eq!(info.trim_point, OFFSET_INVALID);
            assert!(info.sealed);
        }
        _ => panic!("expected an info response"),
    }
}

#[test]
fn test_simple_get_records_flow() {
    let mut worker = setup();

    // populate offsets 2, 5 (key 11), 10 and 11
    worker.enqueue_store(env(
        1,
        store_body(2, 2, vec![Record::plain(b"record2".to_vec())]),
    ));
    worker.enqueue_store(env(
        2,
        store_body(5, 5, vec![Record::keyed(11, b"record5".to_vec())]),
    ));
    worker.enqueue_store(env(
        3,
        store_body(
            10,
            10,
            vec![
                Record::plain(b"record10".to_vec()),
                Record::plain(b"record11".to_vec()),
            ],
        ),
    ));
    worker.run(0);
    let rs = worker.take_responses();
    assert_eq!(rs.len(), 3);
    for r in &rs {
        assert_eq!(stored(&r.body).1, Status::Okay);
    }

    // a plain read of [1, 7] sees the records at 2 and 5
    worker.enqueue_get_records(env(
        4,
        GetRecords {
            loglet_id: LOGLET,
            filter: KeyFilter::Any,
            total_limit_in_bytes: None,
            known_global_tail: 10,
            from_offset: 1,
            to_offset: 7,
        },
    ));
    worker.run(0);
    let rs = worker.take_responses();
    assert_eq!(rs.len(), 1);
    match &rs[0].body {
        ResponseBody::Records(rec) => {
            assert_eq!(rec.status, Status::Okay);
            assert_eq!(rec.local_tail, 12);
            assert!(!rec.sealed);
            assert_eq!(rec.next_offset, 8);
            assert_eq!(rec.records.len(), 2);
            for (want, (off, entry)) in [2u64, 5].iter().zip(rec.records.iter()) {
                assert_eq!(off, want);
                match entry {
                    MaybeRecord::Data(data) => {
                        assert_eq!(data.payload, format!("record{}", want).into_bytes());
                    }
                    _ => panic!("expected a data record"),
                }
            }
        }
        _ => panic!("expected a read response"),
    }

    // a filtered read coalesces the non-matching record at 5 into a gap
    worker.enqueue_get_records(env(
        5,
        GetRecords {
            loglet_id: LOGLET,
            filter: KeyFilter::Within(0, 5),
            total_limit_in_bytes: None,
            known_global_tail: OFFSET_INVALID,
            from_offset: 1,
            to_offset: 100,
        },
    ));
    worker.run(0);
    let rs = worker.take_responses();
    assert_eq!(rs.len(), 1);
    match &rs[0].body {
        ResponseBody::Records(rec) => {
            assert_eq!(rec.status, Status::Okay);
            assert_eq!(rec.local_tail, 12);
            assert_eq!(rec.next_offset, 12);
            assert!(!rec.sealed);
            assert_eq!(rec.records.len(), 4);
            let offsets: Vec<u64> = rec.records.iter().map(|(o, _)| *o).collect();
            assert_eq!(offsets, vec![2, 5, 10, 11]);
            match &rec.records[1].1 {
                MaybeRecord::FilteredGap { to } => assert_eq!(*to, 5),
                _ => panic!("expected a filtered gap at offset five"),
            }
            for i in [0usize, 2, 3] {
                match &rec.records[i].1 {
                    MaybeRecord::Data(data) => {
                        let want = format!("record{}", rec.records[i].0).into_bytes();
                        assert_eq!(data.payload, want);
                    }
                    _ => panic!("expected a data record"),
                }
            }
        }
        _ => panic!("expected a read response"),
    }

    // a two-byte budget still admits the first data record, then stops
    worker.enqueue_get_records(env(
        6,
        GetRecords {
            loglet_id: LOGLET,
            filter: KeyFilter::Within(0, 5),
            total_limit_in_bytes: Some(2),
            known_global_tail: OFFSET_INVALID,
            from_offset: 4,
            to_offset: 100,
        },
    ));
    worker.run(0);
    let rs = worker.take_responses();
    assert_eq!(rs.len(), 1);
    match &rs[0].body {
        ResponseBody::Records(rec) => {
            assert_eq!(rec.status, Status::Okay);
            assert_eq!(rec.local_tail, 12);
            assert_eq!(rec.next_offset, 11);
            assert_eq!(rec.records.len(), 2);
            assert_eq!(rec.records[0].0, 5);
            match &rec.records[0].1 {
                MaybeRecord::FilteredGap { to } => assert_eq!(*to, 5),
                _ => panic!("expected a filtered gap at offset five"),
            }
            assert_eq!(rec.records[1].0, 10);
            match &rec.records[1].1 {
                MaybeRecord::Data(data) => assert_eq!(data.payload, b"record10".to_vec()),
                _ => panic!("expected a data record"),
            }
        }
        _ => panic!("expected a read response"),
    }
}

#[test]
fn test_trim_basics() {
    let mut worker = setup();

    // with no global-tail knowledge the loglet accepts no trims
    worker.enqueue_trim(env(
        1,
        Trim {
            loglet_id: LOGLET,
            known_global_tail: OFFSET_OLDEST,
            trim_point: OFFSET_OLDEST,
        },
    ));
    worker.run(0);
    let rs = worker.take_responses();
    assert_eq!(rs.len(), 1);
    assert_eq!(trimmed(&rs[0].body), (OFFSET_OLDEST, false, Status::Malformed));

    // a trim below the global tail on an empty loglet clips to a no-op
    worker.enqueue_trim(env(
        2,
        Trim {
            loglet_id: LOGLET,
            known_global_tail: 10,
            trim_point: 9,
        },
    ));
    worker.run(0);
    let rs = worker.take_responses();
    assert_eq!(rs.len(), 1);
    assert_eq!(trimmed(&rs[0].body), (OFFSET_OLDEST, false, Status::Okay));

    // store offsets 5 and 6
    worker.enqueue_store(env(
        3,
        store_body(
            5,
            10,
            vec![
                Record::plain(b"record5".to_vec()),
                Record::plain(b"record6".to_vec()),
            ],
        ),
    ));
    worker.run(0);
    let rs = worker.take_responses();
    assert_eq!(rs.len(), 1);
    assert_eq!(stored(&rs[0].body), (7, Status::Okay));

    // trim to 5
    worker.enqueue_trim(env(
        4,
        Trim {
            loglet_id: LOGLET,
            known_global_tail: 10,
            trim_point: 5,
        },
    ));
    worker.run(0);
    let rs = worker.take_responses();
    assert_eq!(rs.len(), 1);
    assert_eq!(trimmed(&rs[0].body), (7, false, Status::Okay));

    // the read now begins with one trim gap up to 5, then the record at 6
    worker.enqueue_get_records(env(
        5,
        GetRecords {
            loglet_id: LOGLET,
            filter: KeyFilter::Any,
            total_limit_in_bytes: None,
            known_global_tail: OFFSET_INVALID,
            from_offset: OFFSET_OLDEST,
            to_offset: 100,
        },
    ));
    worker.run(0);
    let rs = worker.take_responses();
    assert_eq!(rs.len(), 1);
    match &rs[0].body {
        ResponseBody::Records(rec) => {
            assert_eq!(rec.status, Status::Okay);
            assert_eq!(rec.local_tail, 7);
            assert_eq!(rec.next_offset, 7);
            assert!(!rec.sealed);
            assert_eq!(rec.records.len(), 2);
            assert_eq!(rec.records[0].0, 1);
            match &rec.records[0].1 {
                MaybeRecord::TrimGap { to } => assert_eq!(*to, 5),
                _ => panic!("expected a trim gap"),
            }
            assert_eq!(rec.records[1].0, 6);
            match &rec.records[1].1 {
                MaybeRecord::Data(data) => assert_eq!(data.payload, b"record6".to_vec()),
                _ => panic!("expected a data record"),
            }
        }
        _ => panic!("expected a read response"),
    }

    // trim everything: clipped to the offset just below the tail
    worker.enqueue_trim(env(
        6,
        Trim {
            loglet_id: LOGLET,
            known_global_tail: 10,
            trim_point: 9,
        },
    ));
    worker.run(0);
    let rs = worker.take_responses();
    assert_eq!(rs.len(), 1);
    assert_eq!(trimmed(&rs[0].body), (7, false, Status::Okay));

    // the read now sees a single trim gap up to 6
    worker.enqueue_get_records(env(
        7,
        GetRecords {
            loglet_id: LOGLET,
            filter: KeyFilter::Any,
            total_limit_in_bytes: None,
            known_global_tail: OFFSET_INVALID,
            from_offset: OFFSET_OLDEST,
            to_offset: 100,
        },
    ));
    worker.run(0);
    let rs = worker.take_responses();
    assert_eq!(rs.len(), 1);
    match &rs[0].body {
        ResponseBody::Records(rec) => {
            assert_eq!(rec.status, Status::Okay);
            assert_eq!(rec.local_tail, 7);
            assert_eq!(rec.next_offset, 7);
            assert_eq!(rec.records.len(), 1);
            assert_eq!(rec.records[0].0, 1);
            match &rec.records[0].1 {
                MaybeRecord::TrimGap { to } => assert_eq!(*to, 6),
                _ => panic!("expected a trim gap"),
            }
        }
        _ => panic!("expected a read response"),
    }

    // reloading the state from the log store preserves tail and trim point
    let reloaded = worker.log_store.load_loglet_state();
    assert_eq!(reloaded.trim_point, 6);
    assert_eq!(reloaded.local_tail, 7);
}

#[test]
fn store_rejections() {
    let mut worker = setup();

    // an expired store is dropped at admission
    let mut body = store_body(OFFSET_OLDEST, OFFSET_INVALID, vec![Record::plain(b"x".to_vec())]);
    body.timeout_at = Some(5);
    worker.enqueue_store(env(1, body));
    worker.run(10);
    let rs = worker.take_responses();
    assert_eq!(stored(&rs[0].body), (OFFSET_OLDEST, Status::Dropped));

    // a store without payloads is malformed
    worker.enqueue_store(env(2, store_body(OFFSET_OLDEST, OFFSET_INVALID, vec![])));
    // a store at the invalid offset is malformed
    worker.enqueue_store(env(
        3,
        store_body(OFFSET_INVALID, OFFSET_INVALID, vec![Record::plain(b"x".to_vec())]),
    ));
    // a store past the admission bound is out of bounds
    worker.enqueue_store(env(
        4,
        store_body(7, OFFSET_INVALID, vec![Record::plain(b"x".to_vec())]),
    ));
    worker.run(0);
    let rs = worker.take_responses();
    assert_eq!(rs.len(), 3);
    assert_eq!(stored(&rs[0].body).1, Status::Malformed);
    assert_eq!(stored(&rs[1].body).1, Status::Malformed);
    assert_eq!(stored(&rs[2].body).1, Status::OutOfBounds);

    // accept one store so the sequencer is recorded
    worker.enqueue_store(env(
        5,
        store_body(OFFSET_OLDEST, OFFSET_INVALID, vec![Record::plain(b"x".to_vec())]),
    ));
    worker.run(0);
    let rs = worker.take_responses();
    assert_eq!(stored(&rs[0].body), (2, Status::Okay));

    // a store under a different sequencer identity is refused
    let mut body = store_body(2, OFFSET_INVALID, vec![Record::plain(b"y".to_vec())]);
    body.sequencer = GenerationalNodeId::new(1, 2);
    worker.enqueue_store(env(6, body));
    worker.run(0);
    let rs = worker.take_responses();
    assert_eq!(stored(&rs[0].body), (2, Status::SequencerMismatch));
}

#[test]
fn store_disabled_log_store() {
    let mut worker = setup();

    // a store admitted before the fail-safe is answered as disabled when its
    // completion fails
    worker.enqueue_store(env(
        1,
        store_body(OFFSET_OLDEST, OFFSET_INVALID, vec![Record::plain(b"x".to_vec())]),
    ));
    worker.poll(0);
    worker.log_store.disable();
    worker.run(0);
    let rs = worker.take_responses();
    assert_eq!(rs.len(), 1);
    assert_eq!(stored(&rs[0].body), (OFFSET_OLDEST, Status::Disabled));

    // a store arriving during the fail-safe is refused outright
    worker.enqueue_store(env(
        2,
        store_body(OFFSET_OLDEST, OFFSET_INVALID, vec![Record::plain(b"x".to_vec())]),
    ));
    worker.run(0);
    let rs = worker.take_responses();
    assert_eq!(rs.len(), 1);
    assert_eq!(stored(&rs[0].body), (OFFSET_OLDEST, Status::Disabled));
}

#[test]
fn release_raises_admission_bound() {
    let mut worker = setup();

    // a release raises the known global tail; the sequencer may then write
    // at the released bound
    worker.enqueue_release(env(
        1,
        Release {
            loglet_id: LOGLET,
            known_global_tail: 5,
        },
    ));
    worker.run(0);
    assert_eq!(worker.take_responses().len(), 0);

    worker.enqueue_store(env(
        2,
        store_body(5, OFFSET_INVALID, vec![Record::plain(b"x".to_vec())]),
    ));
    worker.run(0);
    let rs = worker.take_responses();
    assert_eq!(stored(&rs[0].body), (6, Status::Okay));
}

#[test]
fn restart_after_stores_and_trim() {
    let mut worker = setup();
    worker.enqueue_store(env(
        1,
        store_body(
            OFFSET_OLDEST,
            OFFSET_INVALID,
            vec![Record::plain(b"a".to_vec()), Record::plain(b"b".to_vec())],
        ),
    ));
    worker.run(0);
    worker.enqueue_trim(env(
        2,
        Trim {
            loglet_id: LOGLET,
            known_global_tail: 4,
            trim_point: 2,
        },
    ));
    worker.run(0);
    let _ = worker.take_responses();

    // everything durable: a restart reloads exactly the observed state
    let reloaded = worker.log_store.load_loglet_state();
    assert_eq!(reloaded.local_tail, worker.loglet_state.local_tail);
    assert_eq!(reloaded.trim_point, worker.loglet_state.trim_point);
    assert_eq!(reloaded.sealed, worker.loglet_state.sealed);
    assert_eq!(reloaded.sequencer, worker.loglet_state.sequencer);
}

#[test]
fn seal_is_idempotent_and_latches() {
    let mut worker = setup();
    worker.enqueue_seal(env(
        1,
        Seal {
            loglet_id: LOGLET,
            sequencer: sequencer(),
            known_global_tail: OFFSET_INVALID,
        },
    ));
    worker.run(0);
    let rs = worker.take_responses();
    assert_eq!(rs.len(), 1);
    assert_eq!(sealed(&rs[0].body), (OFFSET_OLDEST, Status::Okay));

    // sealing an already-sealed loglet answers immediately
    worker.enqueue_seal(env(
        2,
        Seal {
            loglet_id: LOGLET,
            sequencer: sequencer(),
            known_global_tail: OFFSET_INVALID,
        },
    ));
    worker.run(0);
    let rs = worker.take_responses();
    assert_eq!(rs.len(), 1);
    assert_eq!(sealed(&rs[0].body), (OFFSET_OLDEST, Status::Okay));
}

#[test]
fn read_rejects_reversed_range() {
    let mut worker = setup();
    worker.enqueue_get_records(env(
        1,
        GetRecords {
            loglet_id: LOGLET,
            filter: KeyFilter::Any,
            total_limit_in_bytes: None,
            known_global_tail: OFFSET_INVALID,
            from_offset: 5,
            to_offset: 3,
        },
    ));
    worker.run(0);
    let rs = worker.take_responses();
    assert_eq!(rs.len(), 1);
    match &rs[0].body {
        ResponseBody::Records(rec) => {
            assert_eq!(rec.status, Status::Malformed);
            assert_eq!(rec.next_offset, 5);
            assert!(rec.records.is_empty());
        }
        _ => panic!("expected a read response"),
    }
}

#[test]
fn keyed_records_match_filters() {
    let mut worker = setup();
    worker.enqueue_store(env(
        1,
        store_body(
            OFFSET_OLDEST,
            OFFSET_INVALID,
            vec![
                Record::keyed(3, b"low".to_vec()),
                Record {
                    keys: Keys::Pair(1, 9),
                    payload: b"pair".to_vec(),
                },
                Record {
                    keys: Keys::RangeInclusive(7, 12),
                    payload: b"range".to_vec(),
                },
            ],
        ),
    ));
    worker.run(0);
    let _ = worker.take_responses();

    worker.enqueue_get_records(env(
        2,
        GetRecords {
            loglet_id: LOGLET,
            filter: KeyFilter::Include(9),
            total_limit_in_bytes: None,
            known_global_tail: OFFSET_INVALID,
            from_offset: 1,
            to_offset: 100,
        },
    ));
    worker.run(0);
    let rs = worker.take_responses();
    match &rs[0].body {
        ResponseBody::Records(rec) => {
            // offset 1 fails the filter; 2 (pair with 9) and 3 (range over 9) pass
            assert_eq!(rec.records.len(), 3);
            assert!(matches!(rec.records[0].1, MaybeRecord::FilteredGap { to: 1 }));
            assert!(matches!(rec.records[1].1, MaybeRecord::Data(_)));
            assert!(matches!(rec.records[2].1, MaybeRecord::Data(_)));
        }
        _ => panic!("expected a read response"),
    }
}

#[test]
fn store_at_the_end_of_the_offset_space_is_malformed() {
    let mut worker = setup();
    // a store whose last offset cannot be followed by a tail is refused
    worker.enqueue_store(env(
        1,
        store_body(
            u64::MAX,
            u64::MAX,
            vec![Record::plain(b"x".to_vec())],
        ),
    ));
    worker.run(0);
    let rs = worker.take_responses();
    assert_eq!(stored(&rs[0].body), (OFFSET_OLDEST, Status::Malformed));
}

#[test]
fn seal_during_fail_safe_leaves_waiters_pending() {
    let mut worker = setup();
    worker.log_store.disable();
    worker.enqueue_seal(env(
        1,
        Seal {
            loglet_id: LOGLET,
            sequencer: sequencer(),
            known_global_tail: OFFSET_INVALID,
        },
    ));
    worker.run(0);
    // the seal could not be handed over: its waiter keeps waiting
    assert_eq!(worker.take_responses().len(), 0);

    // the seal is still in progress, so stores observe the closed admission
    worker.enqueue_store(env(
        2,
        store_body(OFFSET_OLDEST, OFFSET_INVALID, vec![Record::plain(b"x".to_vec())]),
    ));
    worker.run(0);
    let rs = worker.take_responses();
    assert_eq!(stored(&rs[0].body), (OFFSET_OLDEST, Status::Sealing));
}

#[test]
fn trim_during_fail_safe_is_answered_disabled() {
    let mut worker = setup();
    worker.enqueue_store(env(
        1,
        store_body(
            OFFSET_OLDEST,
            OFFSET_INVALID,
            vec![Record::plain(b"a".to_vec()), Record::plain(b"b".to_vec())],
        ),
    ));
    worker.run(0);
    let _ = worker.take_responses();

    // a valid, advancing trim against a disabled store: the in-memory trim
    // point advances (over-reporting is safe) and the peer learns of the
    // fail-safe
    worker.log_store.disable();
    worker.enqueue_trim(env(
        2,
        Trim {
            loglet_id: LOGLET,
            known_global_tail: 5,
            trim_point: 2,
        },
    ));
    worker.run(0);
    let rs = worker.take_responses();
    assert_eq!(rs.len(), 1);
    assert_eq!(trimmed(&rs[0].body), (3, false, Status::Disabled));
    assert_eq!(worker.loglet_state.trim_point, 2);
}
