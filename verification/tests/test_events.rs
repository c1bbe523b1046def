use branchless::codec::{decode_transaction, encode_transaction};
use branchless::commit_id::CommitId;
use branchless::event::{Event, Transaction};
use branchless::eventlog::{
    after_lock_failure, EventIdRange, EventLog, LockRetry, StorageError,
};
use branchless::ingest::{
    commits_to_keep, ingest_post_checkout, ingest_post_commit, ingest_post_rewrite,
    ingest_reference_transaction, pin_ref_name,
};
use branchless::rewrite::RewriteGraph;
use branchless::storage::{append_record, plan_append, read_records};
use branchless::visibility::{VisibilityMark, VisibilityRecords};

const A: &str = "aaaaaaaaaaaaaaaaaaaaaaaaaaaaaaaaaaaaaaaa";
const B: &str = "bbbbbbbbbbbbbbbbbbbbbbbbbbbbbbbbbbbbbbbb";
const ZERO: &str = "0000000000000000000000000000000000000000";

fn a() -> CommitId {
    CommitId(0xaaaaaaaa, 0xaaaaaaaa, 0xaaaaaaaa, 0xaaaaaaaa, 0xaaaaaaaa)
}

fn b() -> CommitId {
    CommitId(0xbbbbbbbb, 0xbbbbbbbb, 0xbbbbbbbb, 0xbbbbbbbb, 0xbbbbbbbb)
}

fn c() -> CommitId {
    CommitId(0xcccccccc, 0, 0, 0, 0)
}

fn ref_update(event: &Event) -> (String, Option<CommitId>, Option<CommitId>, i64) {
    match event {
        Event::RefUpdateEvent {
            ref_name,
            old_commit_id,
            new_commit_id,
            time,
        } => (ref_name.clone(), *old_commit_id, *new_commit_id, *time),
        other => panic!("not a reference update: {:?}", other),
    }
}

fn rewrite(event: &Event) -> (CommitId, Option<CommitId>, i64) {
    match event {
        Event::RewriteEvent {
            old_commit_id,
            new_commit_id,
            time,
        } => (*old_commit_id, *new_commit_id, *time),
        other => panic!("not a rewrite: {:?}", other),
    }
}

#[test]
fn post_commit_gives_one_commit_created() {
    let events = ingest_post_commit(a(), 7);
    assert_eq!(events.len(), 1);
    match &events[0] {
        Event::CommitCreated { commit_id, time } => {
            assert_eq!(*commit_id, a());
            assert_eq!(*time, 7);
        }
        other => panic!("unexpected {:?}", other),
    }
}

#[test]
fn post_rewrite_gives_one_event_for_each_pair() {
    let input = format!("{} {}\n{} {} extra\nnot a pair\n{} {}\n", A, B, B, ZERO, ZERO, A);
    let events = ingest_post_rewrite(&input, 3);
    assert_eq!(events.len(), 2);
    assert_eq!(rewrite(&events[0]), (a(), Some(b()), 3));
    // An all-zero new side: the commit was dropped.
    assert_eq!(rewrite(&events[1]), (b(), None, 3));
}

#[test]
fn post_checkout_at_the_same_commit_is_no_event() {
    assert_eq!(ingest_post_checkout(A, A, 1).len(), 0);
    assert_eq!(ingest_post_checkout(ZERO, ZERO, 1).len(), 0);
    assert_eq!(ingest_post_checkout("junk", A, 1).len(), 0);
    let events = ingest_post_checkout(A, B, 1);
    assert_eq!(events.len(), 1);
    assert_eq!(
        ref_update(&events[0]),
        ("HEAD".to_string(), Some(a()), Some(b()), 1)
    );
}

#[test]
fn reference_transaction_drops_updates_that_change_nothing() {
    let input = format!(
        "{} {} refs/heads/master\n{} {} refs/heads/same\n{} {} refs/heads/new\n{} {} refs/heads/gone\n",
        A, B, A, A, ZERO, B, A, ZERO
    );
    let transaction = ingest_reference_transaction("committed", &input, 5, 42);
    assert_eq!(transaction.id, 42);
    assert_eq!(transaction.events.len(), 3);
    assert_eq!(
        ref_update(&transaction.events[0]),
        ("refs/heads/master".to_string(), Some(a()), Some(b()), 5)
    );
    assert_eq!(
        ref_update(&transaction.events[1]),
        ("refs/heads/new".to_string(), None, Some(b()), 5)
    );
    assert_eq!(
        ref_update(&transaction.events[2]),
        ("refs/heads/gone".to_string(), Some(a()), None, 5)
    );
}

#[test]
fn reference_transaction_records_committed_updates_only() {
    let input = format!("{} {} refs/heads/master\n", A, B);
    assert_eq!(
        ingest_reference_transaction("prepared", &input, 5, 1).events.len(),
        0
    );
    assert_eq!(
        ingest_reference_transaction("aborted", &input, 5, 1).events.len(),
        0
    );
    assert_eq!(
        ingest_reference_transaction("committed", &input, 5, 1).events.len(),
        1
    );
}

#[test]
fn commits_to_keep_lists_each_commit_once() {
    let events = vec![
        Event::CommitCreated { commit_id: a(), time: 0 },
        Event::RewriteEvent { old_commit_id: a(), new_commit_id: Some(b()), time: 1 },
        Event::HideEvent { commit_id: b(), time: 2 },
        Event::RefUpdateEvent {
            ref_name: "HEAD".to_string(),
            old_commit_id: None,
            new_commit_id: Some(c()),
            time: 3,
        },
    ];
    assert_eq!(commits_to_keep(&events), vec![a(), b(), c()]);
    assert_eq!(commits_to_keep(&Vec::new()), Vec::<CommitId>::new());
    assert_eq!(
        pin_ref_name(c()),
        "refs/branchless/cccccccc00000000000000000000000000000000"
    );
}

#[test]
fn log_numbers_events_in_order_of_arrival() {
    let mut log = EventLog::new();
    assert_eq!(log.latest_event_id(), 0);
    let first = log.append(Transaction {
        id: 1,
        events: vec![
            Event::CommitCreated { commit_id: a(), time: 0 },
            Event::CommitCreated { commit_id: b(), time: 1 },
        ],
    });
    assert_eq!(first, Ok(EventIdRange { first: 1, end: 3 }));
    let empty = log.append(Transaction { id: 2, events: vec![] });
    assert_eq!(empty, Ok(EventIdRange { first: 3, end: 3 }));
    let second = log.append(Transaction {
        id: 3,
        events: vec![Event::HideEvent { commit_id: a(), time: 2 }],
    });
    assert_eq!(second, Ok(EventIdRange { first: 3, end: 4 }));
    assert_eq!(log.latest_event_id(), 3);

    assert_eq!(log.events_since(0).len(), 3);
    let since = log.events_since(2);
    assert_eq!(since.len(), 1);
    match &since[0] {
        Event::HideEvent { commit_id, time } => {
            assert_eq!(*commit_id, a());
            assert_eq!(*time, 2);
        }
        other => panic!("unexpected {:?}", other),
    }
    assert_eq!(log.events_since(3).len(), 0);
    assert_eq!(log.events_since(100).len(), 0);
}

#[test]
fn transaction_id_is_the_supplied_one_or_fresh() {
    let mut log = EventLog::new();
    assert_eq!(log.allocate_transaction_id(Some(9)), Ok(9));
    assert_eq!(log.allocate_transaction_id(None), Ok(1));
    let _ = log.append(Transaction {
        id: 9,
        events: vec![Event::CommitCreated { commit_id: a(), time: 0 }],
    });
    assert_eq!(log.allocate_transaction_id(None), Ok(10));
    assert_eq!(log.allocate_transaction_id(Some(9)), Ok(9));
    let _ = log.append(Transaction {
        id: u64::MAX,
        events: vec![Event::CommitCreated { commit_id: b(), time: 0 }],
    });
    assert_eq!(
        log.allocate_transaction_id(None),
        Err(StorageError::TransactionIdsExhausted)
    );
}

#[test]
fn lock_is_retried_with_doubling_waits_and_then_given_up() {
    assert_eq!(after_lock_failure(1), LockRetry::After { millis: 10 });
    assert_eq!(after_lock_failure(2), LockRetry::After { millis: 20 });
    assert_eq!(after_lock_failure(3), LockRetry::After { millis: 40 });
    assert_eq!(after_lock_failure(4), LockRetry::After { millis: 80 });
    assert_eq!(after_lock_failure(5), LockRetry::GiveUp);
    assert_eq!(after_lock_failure(6), LockRetry::GiveUp);
    assert_eq!(after_lock_failure(0), LockRetry::After { millis: 10 });
}

#[test]
fn rewrite_graph_last_rewrite_wins() {
    let graph = RewriteGraph::build(&vec![
        Event::RewriteEvent { old_commit_id: a(), new_commit_id: Some(b()), time: 0 },
        Event::CommitCreated { commit_id: c(), time: 1 },
        Event::RewriteEvent { old_commit_id: a(), new_commit_id: Some(c()), time: 2 },
    ]);
    assert_eq!(graph.successor(a()), Some(c()));
    assert_eq!(graph.successor(b()), None);
    assert_eq!(graph.resolve_latest(a()), c());
    assert!(graph.is_obsolete(a()));
    assert!(!graph.is_obsolete(c()));
    assert!(graph.is_rewritten(a()));
    assert!(!graph.is_rewritten(c()));
}

#[test]
fn rewrite_graph_follows_chains() {
    let graph = RewriteGraph::build(&vec![
        Event::RewriteEvent { old_commit_id: a(), new_commit_id: Some(b()), time: 0 },
        Event::RewriteEvent { old_commit_id: b(), new_commit_id: Some(c()), time: 1 },
    ]);
    assert_eq!(graph.resolve_latest(a()), c());
    assert_eq!(graph.resolve_latest(b()), c());
    assert_eq!(graph.resolve_latest(c()), c());
    assert!(graph.is_obsolete(a()));
    assert!(graph.is_obsolete(b()));
    assert!(!graph.runs_in_cycle(a()));
}

#[test]
fn rewrite_graph_dropped_target_is_no_successor() {
    let graph = RewriteGraph::build(&vec![
        Event::RewriteEvent { old_commit_id: a(), new_commit_id: Some(b()), time: 0 },
        Event::RewriteEvent { old_commit_id: b(), new_commit_id: None, time: 1 },
    ]);
    assert_eq!(graph.resolve_latest(a()), b());
    assert!(graph.is_deleted(b()));
    // The chain ends in a commit that was dropped: nothing supersedes `a`.
    assert!(!graph.is_obsolete(a()));
    assert!(!graph.is_obsolete(b()));
}

#[test]
fn resolve_latest_on_a_cycle_ends_and_gives_the_commit_itself() {
    let graph = RewriteGraph::build(&vec![
        Event::RewriteEvent { old_commit_id: a(), new_commit_id: Some(b()), time: 0 },
        Event::RewriteEvent { old_commit_id: b(), new_commit_id: Some(a()), time: 1 },
    ]);
    assert_eq!(graph.resolve_latest(a()), a());
    assert_eq!(graph.resolve_latest(b()), b());
    assert!(!graph.is_obsolete(a()));
    assert!(!graph.is_obsolete(b()));
    assert!(graph.runs_in_cycle(a()));
    // A commit that leads into the cycle resolves to itself as well.
    let graph = RewriteGraph::build(&vec![
        Event::RewriteEvent { old_commit_id: c(), new_commit_id: Some(a()), time: 0 },
        Event::RewriteEvent { old_commit_id: a(), new_commit_id: Some(b()), time: 1 },
        Event::RewriteEvent { old_commit_id: b(), new_commit_id: Some(a()), time: 2 },
    ]);
    assert_eq!(graph.resolve_latest(c()), c());
    // A commit rewritten as itself.
    let graph = RewriteGraph::build(&vec![Event::RewriteEvent {
        old_commit_id: a(),
        new_commit_id: Some(a()),
        time: 0,
    }]);
    assert_eq!(graph.resolve_latest(a()), a());
}

#[test]
fn visibility_records_last_mark_wins() {
    let records = VisibilityRecords::build(&vec![
        Event::HideEvent { commit_id: a(), time: 0 },
        Event::UnhideEvent { commit_id: a(), time: 1 },
        Event::UnhideEvent { commit_id: b(), time: 2 },
        Event::HideEvent { commit_id: b(), time: 3 },
    ]);
    assert_eq!(records.latest(a()), Some(VisibilityMark::Unhidden));
    assert_eq!(records.latest(b()), Some(VisibilityMark::ManuallyHidden));
    assert_eq!(records.latest(c()), None);
    assert!(records.has_record(a()));
    assert!(!records.has_record(c()));
}

#[test]
fn records_are_read_back_and_a_cut_record_is_not() {
    let mut log: Vec<u8> = Vec::new();
    append_record(&mut log, &vec![1, 2, 3]);
    assert_eq!(log, vec![3, 0, 0, 0, 0, 0, 0, 0, 1, 2, 3]);
    append_record(&mut log, &vec![]);
    append_record(&mut log, &vec![9; 300]);
    let whole = log.len();
    let (payloads, committed) = read_records(&log);
    assert_eq!(payloads, vec![vec![1, 2, 3], vec![], vec![9; 300]]);
    assert_eq!(committed, whole);

    // An append that is interrupted after any number of bytes leaves the
    // three records, and nothing of the fourth.
    let mut next: Vec<u8> = Vec::new();
    append_record(&mut next, &vec![7, 7, 7, 7, 7]);
    for cut in 0..next.len() {
        let mut torn = log.clone();
        torn.extend_from_slice(&next[..cut]);
        let (payloads, committed) = read_records(&torn);
        assert_eq!(payloads.len(), 3);
        assert_eq!(committed, whole);
    }
    log.extend_from_slice(&next);
    let (payloads, committed) = read_records(&log);
    assert_eq!(payloads.len(), 4);
    assert_eq!(payloads[3], vec![7, 7, 7, 7, 7]);
    assert_eq!(committed, log.len());
}

fn all_kinds() -> Transaction {
    Transaction {
        id: 7,
        events: vec![
            Event::CommitCreated { commit_id: a(), time: 5 },
            Event::RewriteEvent { old_commit_id: a(), new_commit_id: Some(b()), time: -1 },
            Event::RewriteEvent { old_commit_id: b(), new_commit_id: None, time: i64::MIN },
            Event::RefUpdateEvent {
                ref_name: "refs/heads/with space".to_string(),
                old_commit_id: None,
                new_commit_id: Some(c()),
                time: i64::MAX,
            },
            Event::RefUpdateEvent {
                ref_name: "".to_string(),
                old_commit_id: Some(CommitId(0, 0, 0, 0, 0)),
                new_commit_id: None,
                time: 0,
            },
            Event::HideEvent { commit_id: c(), time: 1 },
            Event::UnhideEvent { commit_id: c(), time: 2 },
        ],
    }
}

#[test]
fn transaction_text_is_as_documented() {
    let bytes = encode_transaction(&Transaction {
        id: 7,
        events: vec![
            Event::CommitCreated { commit_id: a(), time: 5 },
            Event::RewriteEvent { old_commit_id: a(), new_commit_id: None, time: -1 },
            Event::RefUpdateEvent {
                ref_name: "refs/heads/master".to_string(),
                old_commit_id: None,
                new_commit_id: Some(b()),
                time: 16,
            },
        ],
    });
    let expected = format!(
        "transaction 0000000000000007\ncommit {} 0000000000000005\nrewrite {} - ffffffffffffffff\nref - {} 0000000000000010 refs/heads/master\n",
        A, A, B
    );
    assert_eq!(bytes, Some(expected.into_bytes()));
    assert_eq!(
        encode_transaction(&Transaction { id: u64::MAX, events: vec![] }),
        Some(b"transaction ffffffffffffffff\n".to_vec())
    );
}

#[test]
fn transaction_is_read_back_as_written() {
    let bytes = match encode_transaction(&all_kinds()) {
        Some(bytes) => bytes,
        None => panic!("the transaction can be written"),
    };
    let read = match decode_transaction(&bytes) {
        Some(transaction) => transaction,
        None => panic!("the transaction can be read"),
    };
    assert_eq!(read.id, 7);
    assert_eq!(format!("{:?}", read.events), format!("{:?}", all_kinds().events));
}

#[test]
fn transaction_with_a_line_feed_in_a_name_is_not_written() {
    let transaction = Transaction {
        id: 1,
        events: vec![Event::RefUpdateEvent {
            ref_name: "two\nlines".to_string(),
            old_commit_id: None,
            new_commit_id: Some(a()),
            time: 0,
        }],
    };
    assert_eq!(encode_transaction(&transaction), None);
}

#[test]
fn other_bytes_are_no_transaction() {
    let refused = |text: &str| decode_transaction(&text.as_bytes().to_vec()).is_none();
    assert!(refused(""));
    assert!(refused("transaction 0000000000000007"));
    assert!(refused("transaction 7\n"));
    assert!(refused("transactions 0000000000000007\n"));
    assert!(refused("transaction 0000000000000007\n\n"));
    assert!(refused(&format!("transaction 0000000000000007\ncommit {}\n", A)));
    assert!(refused(&format!(
        "transaction 0000000000000007\ncommit {} 0000000000000005 more\n",
        A
    )));
    assert!(refused(&format!(
        "transaction 0000000000000007\nforget {} 0000000000000005\n",
        A
    )));
    assert!(refused(&format!(
        "transaction 0000000000000007\nref - {} 0000000000000005\n",
        A
    )));
    assert!(refused(&format!(
        "transaction 0000000000000007\ncommit {} 0000000000000005\ntail",
        A
    )));
    assert!(decode_transaction(&vec![0xff, 0xfe, b'\n']).is_none());
    assert!(!refused("transaction 0000000000000007\n"));
    assert!(!refused(&format!(
        "transaction 0000000000000007\nref - {} 0000000000000005 \n",
        A
    )));
}

#[test]
fn log_is_replayed_from_storage() {
    let mut stored: Vec<u8> = Vec::new();
    let first = Transaction {
        id: 1,
        events: vec![
            Event::CommitCreated { commit_id: a(), time: 0 },
            Event::CommitCreated { commit_id: b(), time: 1 },
        ],
    };
    let second = Transaction {
        id: 2,
        events: vec![Event::HideEvent { commit_id: a(), time: 2 }],
    };
    for transaction in [&first, &second] {
        match encode_transaction(transaction) {
            Some(payload) => append_record(&mut stored, &payload),
            None => panic!("the transaction can be written"),
        }
    }
    // An append that did not come to its end.
    stored.extend_from_slice(&[200, 0, 0, 0, 0, 0, 0, 0, b't', b'r']);
    let (payloads, committed) = read_records(&stored);
    assert_eq!(payloads.len(), 2);
    assert_eq!(committed, stored.len() - 10);
    let log = match EventLog::replay(&payloads) {
        Ok(log) => log,
        Err(e) => panic!("the log can be replayed: {:?}", e),
    };
    assert_eq!(log.latest_event_id(), 3);
    assert_eq!(log.allocate_transaction_id(None), Ok(3));
    assert_eq!(
        format!("{:?}", log.events_since(0)),
        format!(
            "{:?}",
            vec![
                Event::CommitCreated { commit_id: a(), time: 0 },
                Event::CommitCreated { commit_id: b(), time: 1 },
                Event::HideEvent { commit_id: a(), time: 2 },
            ]
        )
    );
    match EventLog::replay(&vec![payloads[0].clone(), b"junk".to_vec()]) {
        Ok(_) => panic!("the second record holds no transaction"),
        Err(e) => assert_eq!(e, StorageError::CorruptRecord),
    }
}

#[test]
fn append_cuts_off_what_an_interrupted_append_left() {
    let mut stored: Vec<u8> = Vec::new();
    append_record(&mut stored, &vec![1, 2, 3]);
    let whole = stored.len();
    // Half a record behind the first.
    stored.extend_from_slice(&[9, 0, 0, 0, 0, 0, 0, 0, 5, 5]);
    let plan = plan_append(&stored, &vec![7, 7]);
    assert_eq!(plan.keep, whole);
    assert_eq!(plan.bytes, vec![2, 0, 0, 0, 0, 0, 0, 0, 7, 7]);
    stored.truncate(plan.keep);
    stored.extend_from_slice(&plan.bytes);
    let (payloads, committed) = read_records(&stored);
    assert_eq!(payloads, vec![vec![1, 2, 3], vec![7, 7]]);
    assert_eq!(committed, stored.len());
}
