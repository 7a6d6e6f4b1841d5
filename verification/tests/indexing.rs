use sf_indexer::checkpoint_handler::{
    aborts_indexing, index_checkpoints, index_objects, index_one_checkpoint, index_packages, packages_for,
};
use sf_indexer::indexed::{BatchError, IndexerError, TransactionKind};
use sf_indexer::sui_model::{
    BalanceChange, ObjectChange, StoredDisplay, TransactionChanges, ChangedObjectRef, CheckpointData, CheckpointSummary, CheckpointTransaction, Event,
    MoveCall, Object, ObjectDigest, ObjectId, ObjectRef, Owner, SignedTransaction,
    SuiAddress, TransactionData, TransactionDigest, TransactionEffects, WriteKind, enumerate_transactions,
};
use sf_indexer::transactions::index_transactions;

fn oid(n: u128) -> ObjectId {
    ObjectId { high: 0, low: n }
}

fn addr(n: u128) -> SuiAddress {
    SuiAddress { high: 1, low: n }
}

fn digest(n: u128) -> TransactionDigest {
    TransactionDigest { high: 2, low: n }
}

fn oref(n: u128, version: u64) -> ObjectRef {
    ObjectRef { object_id: oid(n), version, digest: ObjectDigest { high: 3, low: n } }
}

fn change(n: u128, version: u64, owner: Owner) -> ChangedObjectRef {
    ChangedObjectRef { object_ref: oref(n, version), owner, write_kind: WriteKind::Mutate }
}

fn object(n: u128, version: u64, is_package: bool) -> Object {
    Object { id: oid(n), version, is_package, contents: vec![n as u8, version as u8] }
}

fn event(n: u8) -> Event {
    Event { package_id: oid(100), sender: addr(1), event_type: format!("0x2::m::E{}", n), contents: vec![n], display: None }
}

fn display_event(n: u8, object_type: &str) -> Event {
    Event {
        display: Some(StoredDisplay { object_type: object_type.to_string(), id: vec![n], version: n as i16, bcs: vec![n, n] }),
        ..event(n)
    }
}

struct Tx {
    digest: u128,
    changes: Vec<ChangedObjectRef>,
    deleted: Vec<ObjectRef>,
    outputs: Vec<Object>,
    events: Option<Vec<Event>>,
    ok: bool,
    system: bool,
    changes_ok: bool,
}

fn tx(t: Tx) -> CheckpointTransaction {
    CheckpointTransaction {
        transaction: SignedTransaction {
            digest: digest(t.digest),
            data: TransactionData {
                sender: addr(10),
                gas_owner: addr(11),
                is_system_tx: t.system,
                tx_count: 1,
                input_objects: vec![oid(1), oid(2)],
                move_calls: vec![MoveCall { package: oid(100), module: "coin".to_string(), function: "split".to_string() }],
            },
            signatures: vec![9],
        },
        effects: TransactionEffects {
            status_ok: t.ok,
            changed_objects: t.changes,
            deleted: t.deleted,
            wrapped: vec![],
            unwrapped_then_deleted: vec![],
        },
        events: t.events,
        input_objects: vec![],
        output_objects: t.outputs,
        changes: if t.changes_ok {
            Ok(TransactionChanges {
                balance_changes: vec![BalanceChange { owner: Owner::AddressOwner(addr(10)), coin_type: "0x2::sui::SUI".to_string(), amount: -5 }],
                object_changes: vec![ObjectChange::Deleted { sender: addr(10), object_type: "0x2::m::T".to_string(), object_id: oid(50), version: 2 }],
            })
        } else {
            Err(processor_error(t.digest))
        },
    }
}

fn processor_error(d: u128) -> IndexerError {
    IndexerError::ChangeProcessor { message: format!("no changes for transaction {}", d) }
}

fn summary(seq: u64) -> CheckpointSummary {
    CheckpointSummary { epoch: 1, sequence_number: seq, network_total_transactions: 12, timestamp_ms: 5000 }
}

fn plain(d: u128) -> Tx {
    Tx { digest: d, changes: vec![], deleted: vec![], outputs: vec![], events: None, ok: true, system: false, changes_ok: true }
}

fn checkpoint(seq: u64, txs: Vec<CheckpointTransaction>) -> CheckpointData {
    let digests: Vec<TransactionDigest> = txs.iter().map(|t| t.transaction.digest).collect();
    let contents = enumerate_transactions(&summary(seq), &digests);
    CheckpointData { checkpoint_summary: summary(seq), checkpoint_contents: contents, transactions: txs }
}

/// Object 1 is mutated twice, object 2 is mutated then deleted, object 3 is created.
fn busy_checkpoint(seq: u64) -> CheckpointData {
    let a = tx(Tx {
        changes: vec![change(1, 5, Owner::AddressOwner(addr(1))), change(2, 5, Owner::AddressOwner(addr(2)))],
        outputs: vec![object(1, 5, false), object(2, 5, false)],
        ..plain(1)
    });
    let b = tx(Tx {
        changes: vec![change(1, 6, Owner::Immutable), change(3, 6, Owner::AddressOwner(addr(1)))],
        deleted: vec![oref(2, 6)],
        outputs: vec![object(1, 6, false), object(3, 6, true)],
        ..plain(2)
    });
    checkpoint(seq, vec![a, b])
}

#[test]
fn objects_deleted_or_superseded_are_not_live() {
    let data = busy_checkpoint(7);
    let changes = index_objects(&data);
    let deleted: Vec<(ObjectId, u64, u64, TransactionDigest)> = changes
        .deleted_objects
        .iter()
        .map(|d| (d.object_id, d.object_version, d.checkpoint_sequence_number, d.tx_digest))
        .collect();
    assert_eq!(deleted, vec![(oid(2), 6, 7, digest(2))]);
    let live: Vec<(ObjectId, u64, u64)> = changes
        .changed_objects
        .iter()
        .map(|o| (o.object.id, o.object.version, o.checkpoint_sequence_number))
        .collect();
    // Version 5 of object 1 is superseded; version 5 of object 2 is kept
    // because its deletion names version 6.
    assert_eq!(live, vec![(oid(2), 5, 7), (oid(1), 6, 7), (oid(3), 6, 7)]);
}

#[test]
fn live_object_is_removed_when_its_version_is_deleted() {
    let a = tx(Tx {
        changes: vec![change(4, 2, Owner::AddressOwner(addr(1)))],
        deleted: vec![oref(4, 2)],
        outputs: vec![object(4, 2, false)],
        ..plain(1)
    });
    let data = checkpoint(3, vec![a]);
    let changes = index_objects(&data);
    assert!(changes.changed_objects.is_empty());
    assert_eq!(changes.deleted_objects.len(), 1);
}

#[test]
fn packages_are_the_package_outputs_of_each_checkpoint() {
    let cps = vec![busy_checkpoint(7), busy_checkpoint(8)];
    let packages = index_packages(&cps);
    let got: Vec<(ObjectId, u64, Vec<u8>)> =
        packages.iter().map(|p| (p.package_id, p.checkpoint_sequence_number, p.move_package.clone())).collect();
    assert_eq!(got, vec![(oid(3), 7, vec![3, 6]), (oid(3), 8, vec![3, 6])]);
}

#[test]
fn repeated_sequence_number_gets_no_packages() {
    let cps = vec![busy_checkpoint(7), busy_checkpoint(7)];
    let packages = index_packages(&cps);
    assert_eq!(packages.len(), 2);
    let seqs = vec![7u64, 7u64];
    assert_eq!(packages_for(&seqs, 0, &packages).len(), 2);
    assert_eq!(packages_for(&seqs, 1, &packages).len(), 0);
}

#[test]
fn transactions_must_match_contents_in_number() {
    let data = busy_checkpoint(7);
    let mut contents = data.checkpoint_contents;
    contents.pop();
    let r = index_transactions(data.transactions, &data.checkpoint_summary, &contents);
    assert_eq!(
        r.err(),
        Some(IndexerError::ContentsSizeMismatch { checkpoint_sequence_number: 7, contents_size: 1, transactions_len: 2 })
    );
}

#[test]
fn transactions_must_match_contents_in_order() {
    let data = checkpoint(4, vec![tx(plain(1)), tx(plain(2)), tx(plain(3))]);
    let mut contents = data.checkpoint_contents.clone();
    contents[1].transaction = digest(9);
    contents[2].transaction = digest(8);
    let r = index_transactions(data.transactions, &data.checkpoint_summary, &contents);
    assert_eq!(
        r.err(),
        Some(IndexerError::TransactionOrderMismatch { checkpoint_sequence_number: 4, expected: digest(9), found: digest(2) })
    );
}

#[test]
fn transactions_are_indexed_with_their_events_and_lookup_entries() {
    let a = tx(Tx {
        events: Some(vec![event(1), event(2)]),
        changes: vec![
            change(1, 5, Owner::AddressOwner(addr(3))),
            change(2, 5, Owner::Shared { initial_shared_version: 1 }),
            change(3, 5, Owner::AddressOwner(addr(4))),
            change(4, 5, Owner::AddressOwner(addr(3))),
        ],
        ok: false,
        system: true,
        ..plain(1)
    });
    let b = tx(Tx { events: Some(vec![event(3)]), ..plain(2) });
    let data = checkpoint(4, vec![a, b]);
    let (records, events, indices, _displays) =
        index_transactions(data.transactions, &data.checkpoint_summary, &data.checkpoint_contents).unwrap();
    assert_eq!(records.len(), 2);
    assert_eq!(records[0].tx_sequence_number, 10);
    assert_eq!(records[1].tx_sequence_number, 11);
    assert_eq!(records[0].tx_digest, digest(1));
    assert_eq!(records[0].checkpoint_sequence_number, 4);
    assert_eq!(records[0].timestamp_ms, 5000);
    assert_eq!(records[0].transaction_kind, TransactionKind::SystemTransaction);
    assert_eq!(records[1].transaction_kind, TransactionKind::ProgrammableTransaction);
    assert_eq!(records[0].successful_tx_num, 0);
    assert_eq!(records[1].successful_tx_num, 1);
    assert_eq!(records[0].events.len(), 2);
    let ev: Vec<(u64, u64, TransactionDigest, Vec<u8>)> = events
        .iter()
        .map(|e| (e.tx_sequence_number, e.event_sequence_number, e.transaction_digest, e.event.contents.clone()))
        .collect();
    assert_eq!(ev, vec![(10, 0, digest(1), vec![1]), (10, 1, digest(1), vec![2]), (11, 0, digest(2), vec![3])]);
    assert_eq!(indices[0].recipients, vec![addr(3), addr(4)]);
    assert_eq!(indices[0].changed_objects, vec![oid(1), oid(2), oid(3), oid(4)]);
    assert_eq!(indices[0].senders, vec![addr(10)]);
    assert_eq!(indices[0].payers, vec![addr(11)]);
    assert_eq!(indices[0].input_objects, vec![oid(1), oid(2)]);
    assert_eq!(indices[0].move_calls[0].function, "split");
    assert!(indices[1].recipients.is_empty());
    assert_eq!(records[0].balance_change[0].amount, -5);
    assert_eq!(records[0].object_changes.len(), 1);
}

#[test]
fn later_display_of_a_type_replaces_earlier_one() {
    let a = tx(Tx { events: Some(vec![display_event(1, "0x2::a::A"), event(9), display_event(2, "0x2::b::B")]), ..plain(1) });
    let b = tx(Tx { events: Some(vec![display_event(3, "0x2::a::A")]), ..plain(2) });
    let data = checkpoint(4, vec![a, b]);
    let (_, _, _, displays) =
        index_transactions(data.transactions, &data.checkpoint_summary, &data.checkpoint_contents).unwrap();
    let got: Vec<(String, i16)> = displays.iter().map(|d| (d.object_type.clone(), d.version)).collect();
    assert_eq!(got, vec![("0x2::a::A".to_string(), 3), ("0x2::b::B".to_string(), 2)]);
}

#[test]
fn displays_come_in_the_order_of_their_object_types() {
    let a = tx(Tx {
        events: Some(vec![display_event(1, "0x2::m::b"), display_event(2, "0x2::m::ab"), display_event(3, "0x2::m::B")]),
        ..plain(1)
    });
    let b = tx(Tx { events: Some(vec![display_event(4, "0x2::m::a"), display_event(5, "0x2::m::b")]), ..plain(2) });
    let data = checkpoint(4, vec![a, b]);
    let (_, _, _, displays) =
        index_transactions(data.transactions, &data.checkpoint_summary, &data.checkpoint_contents).unwrap();
    let got: Vec<(String, i16)> = displays.iter().map(|d| (d.object_type.clone(), d.version)).collect();
    assert_eq!(
        got,
        vec![
            ("0x2::m::B".to_string(), 3),
            ("0x2::m::a".to_string(), 4),
            ("0x2::m::ab".to_string(), 2),
            ("0x2::m::b".to_string(), 5),
        ]
    );
}

#[test]
fn failed_changes_stop_indexing_at_that_transaction() {
    let data = checkpoint(4, vec![tx(plain(1)), tx(Tx { changes_ok: false, ..plain(2) }), tx(Tx { changes_ok: false, ..plain(3) })]);
    let r = index_transactions(data.transactions, &data.checkpoint_summary, &data.checkpoint_contents);
    assert_eq!(r.err(), Some(processor_error(2)));
}

#[test]
fn order_mismatch_comes_before_failed_changes_at_one_position() {
    let data = checkpoint(4, vec![tx(Tx { changes_ok: false, ..plain(1) })]);
    let mut contents = data.checkpoint_contents.clone();
    contents[0].transaction = digest(7);
    assert_eq!(
        sf_indexer::transactions::transactions_error_of(&data.transactions, &data.checkpoint_summary, &contents),
        Some(IndexerError::TransactionOrderMismatch { checkpoint_sequence_number: 4, expected: digest(7), found: digest(1) })
    );
    assert_eq!(
        sf_indexer::transactions::transactions_error_of(&data.transactions, &data.checkpoint_summary, &data.checkpoint_contents),
        Some(processor_error(1))
    );
}

#[test]
fn failing_checkpoint_reports_its_error_even_when_counts_overflow() {
    let mut data = busy_checkpoint(7);
    data.transactions[0].transaction.data.tx_count = u64::MAX;
    data.transactions[1].transaction.data.tx_count = u64::MAX;
    data.checkpoint_contents.pop();
    assert_eq!(
        index_one_checkpoint(data, vec![]).err(),
        Some(IndexerError::ContentsSizeMismatch { checkpoint_sequence_number: 7, contents_size: 1, transactions_len: 2 })
    );
}

#[test]
fn one_checkpoint_counts_its_successful_transactions() {
    let mut data = busy_checkpoint(7);
    data.transactions[1].effects.status_ok = false;
    let r = index_one_checkpoint(data, vec![]).unwrap();
    assert_eq!(r.checkpoint.successful_tx_num, 1);
    assert_eq!(r.checkpoint.summary.sequence_number, 7);
    assert_eq!(r.checkpoint.contents.len(), 2);
    assert_eq!(r.transactions.len(), 2);
    assert_eq!(r.tx_indices.len(), 2);
    assert!(r.display_updates.is_empty());
    assert_eq!(r.object_changes.changed_objects.len(), 3);
    assert!(r.object_history_changes.changed_objects.is_empty());
    assert!(r.object_history_changes.deleted_objects.is_empty());
}

#[test]
fn batch_of_checkpoints_keeps_its_order_and_packages() {
    let r = index_checkpoints(vec![busy_checkpoint(7), busy_checkpoint(8)]).unwrap();
    assert_eq!(r.len(), 2);
    assert_eq!(r[0].checkpoint.summary.sequence_number, 7);
    assert_eq!(r[1].checkpoint.summary.sequence_number, 8);
    assert_eq!(r[0].packages.len(), 1);
    assert_eq!(r[0].packages[0].checkpoint_sequence_number, 7);
    assert_eq!(r[1].packages[0].checkpoint_sequence_number, 8);
}

#[test]
fn batch_fails_with_first_failing_checkpoint() {
    let mut bad1 = busy_checkpoint(8);
    bad1.checkpoint_contents.pop();
    let mut bad2 = busy_checkpoint(9);
    bad2.checkpoint_contents.clear();
    let r = index_checkpoints(vec![busy_checkpoint(7), bad1, bad2]);
    assert_eq!(
        r.err(),
        Some(BatchError::Indexer(IndexerError::ContentsSizeMismatch {
            checkpoint_sequence_number: 8,
            contents_size: 1,
            transactions_len: 2
        }))
    );
}

/// A checkpoint with a live change whose output is missing.
fn inconsistent_checkpoint(seq: u64) -> CheckpointData {
    let a = tx(Tx {
        changes: vec![change(1, 4, Owner::AddressOwner(addr(1)))],
        outputs: vec![object(1, 5, false)],
        ..plain(1)
    });
    checkpoint(seq, vec![a])
}

#[test]
fn batch_reports_an_aborted_checkpoint_before_any_indexing_error() {
    let mut bad = busy_checkpoint(8);
    bad.checkpoint_contents.pop();
    let r = index_checkpoints(vec![busy_checkpoint(7), bad, inconsistent_checkpoint(9), inconsistent_checkpoint(10)]);
    assert_eq!(r.err(), Some(BatchError::IndexingAborted { checkpoint_sequence_number: 9 }));
}

#[test]
fn batch_aborts_where_the_succeeded_count_overflows() {
    let mut data = busy_checkpoint(8);
    data.transactions[0].transaction.data.tx_count = u64::MAX;
    data.transactions[1].transaction.data.tx_count = u64::MAX;
    assert!(aborts_indexing(&data));
    let r = index_checkpoints(vec![busy_checkpoint(7), data]);
    assert_eq!(r.err(), Some(BatchError::IndexingAborted { checkpoint_sequence_number: 8 }));
}

#[test]
fn overflow_does_not_abort_a_checkpoint_that_fails_first() {
    let mut data = busy_checkpoint(8);
    data.transactions[0].transaction.data.tx_count = u64::MAX;
    data.transactions[1].transaction.data.tx_count = u64::MAX;
    data.checkpoint_contents.pop();
    assert!(!aborts_indexing(&data));
    assert!(aborts_indexing(&inconsistent_checkpoint(3)));
    assert!(!aborts_indexing(&busy_checkpoint(3)));
}

#[test]
fn contents_number_transactions_up_to_the_network_total() {
    let digests = vec![digest(1), digest(2), digest(3)];
    let entries = enumerate_transactions(&summary(4), &digests);
    let got: Vec<(u64, TransactionDigest)> = entries.iter().map(|e| (e.sequence_number, e.transaction)).collect();
    assert_eq!(got, vec![(9, digest(1)), (10, digest(2)), (11, digest(3))]);
    let all: Vec<TransactionDigest> = (0..12).map(digest).collect();
    assert_eq!(enumerate_transactions(&summary(4), &all)[0].sequence_number, 0);
    assert!(enumerate_transactions(&summary(4), &vec![]).is_empty());
}

#[test]
fn empty_batch_indexes_to_nothing() {
    assert!(index_checkpoints(vec![]).unwrap().is_empty());
}

#[test]
fn checker_accepts_a_consistent_checkpoint() {
    assert!(sf_indexer::checkpoint_handler::changes_name_latest_outputs(&busy_checkpoint(7)));
}

#[test]
fn checker_refuses_a_live_change_without_its_output() {
    let a = tx(Tx {
        changes: vec![change(1, 4, Owner::AddressOwner(addr(1)))],
        outputs: vec![object(1, 5, false)],
        ..plain(1)
    });
    assert!(!sf_indexer::checkpoint_handler::changes_name_latest_outputs(&checkpoint(3, vec![a])));
    let b = tx(Tx { changes: vec![change(8, 1, Owner::Immutable)], ..plain(2) });
    assert!(!sf_indexer::checkpoint_handler::changes_name_latest_outputs(&checkpoint(3, vec![b])));
}

#[test]
fn successful_count_sums_succeeded_transactions() {
    let mut data = busy_checkpoint(7);
    assert_eq!(sf_indexer::checkpoint_handler::successful_count(&data.transactions), Some(2));
    data.transactions[0].transaction.data.tx_count = u64::MAX;
    assert_eq!(sf_indexer::checkpoint_handler::successful_count(&data.transactions), None);
}

#[test]
fn output_objects_follow_transaction_order() {
    let data = busy_checkpoint(7);
    let outs: Vec<(ObjectId, u64)> = data.output_objects().iter().map(|o| (o.id, o.version)).collect();
    assert_eq!(outs, vec![(oid(1), 5), (oid(2), 5), (oid(1), 6), (oid(3), 6)]);
}
