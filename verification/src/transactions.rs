//! Indexing of the transactions of one checkpoint: their records, their
//! events and their lookup entries.
use vstd::prelude::*;

use crate::indexed::{
    IndexedEvent, IndexedEventView, IndexedTransaction, IndexerError, TransactionKind, TxIndex,
};
use crate::sui_model::{
    StoredDisplay, StoredDisplayView, TransactionChanges, ChangedObjectRef, CheckpointSummary, CheckpointTransaction, Event, ExecutionEntry, MoveCall,
    ObjectId, Owner, SuiAddress,
};

verus! {

// ---------------------------------------------------------------------------
// Recipients
// ---------------------------------------------------------------------------
/// The addresses that own objects after the changes `changes`, in order,
/// with repetitions.
pub open spec fn address_owners(changes: Seq<ChangedObjectRef>) -> Seq<SuiAddress>
    decreases changes.len(),
{
    if changes.len() == 0 {
        Seq::empty()
    } else {
        let prev = address_owners(changes.drop_last());
        match changes.last().owner {
            Owner::AddressOwner(a) => prev.push(a),
            _ => prev,
        }
    }
}

/// `s` with every element but the first occurrence of each removed.
pub open spec fn first_occurrences(s: Seq<SuiAddress>) -> Seq<SuiAddress>
    decreases s.len(),
{
    if s.len() == 0 {
        Seq::empty()
    } else {
        let prev = first_occurrences(s.drop_last());
        if prev.contains(s.last()) {
            prev
        } else {
            prev.push(s.last())
        }
    }
}

/// The addresses that receive objects from the changes `changes`: each
/// address owner once, in the order of its first change.
pub open spec fn recipients_spec(changes: Seq<ChangedObjectRef>) -> Seq<SuiAddress> {
    first_occurrences(address_owners(changes))
}

/// Every element of `s` once, and nothing else.
pub proof fn lemma_first_occurrences(s: Seq<SuiAddress>)
    ensures
        first_occurrences(s).no_duplicates(),
        forall|a: SuiAddress| #[trigger] first_occurrences(s).contains(a) <==> s.contains(a),
    decreases s.len(),
{
    if s.len() > 0 {
        let t = s.drop_last();
        lemma_first_occurrences(t);
        let prev = first_occurrences(t);
        assert forall|a: SuiAddress| #[trigger] first_occurrences(s).contains(a) <==> s.contains(a) by {
            if s.contains(a) && a != s.last() {
                let k = choose|k: int| 0 <= k < s.len() && s[k] == a;
                assert(t[k] == a);
                assert(t.contains(a));
            }
            if t.contains(a) {
                let k = choose|k: int| 0 <= k < t.len() && t[k] == a;
                assert(s[k] == a);
            }
            assert(s[s.len() - 1] == s.last());
            if !prev.contains(s.last()) {
                assert(prev.push(s.last())[prev.len() as int] == s.last());
                if prev.contains(a) {
                    let k = choose|k: int| 0 <= k < prev.len() && prev[k] == a;
                    assert(prev.push(s.last())[k] == a);
                }
                if prev.push(s.last()).contains(a) && a != s.last() {
                    let k = choose|k: int| 0 <= k < prev.len() + 1 && prev.push(s.last())[k] == a;
                    assert(prev[k] == a);
                }
            }
        }
    }
}

/// The addresses that receive objects from `changes`, each once, in the order
/// of its first change.
fn recipients_of(changes: &Vec<ChangedObjectRef>) -> (r: Vec<SuiAddress>)
    ensures
        r@ == recipients_spec(changes@),
{
    let mut r: Vec<SuiAddress> = Vec::new();
    let ghost mut owners: Seq<SuiAddress> = Seq::empty();
    let mut i: usize = 0;
    proof {
        assert(changes@.take(0) =~= Seq::<ChangedObjectRef>::empty());
        assert(r@ =~= first_occurrences(Seq::empty()));
    }
    while i < changes.len()
        invariant
            i <= changes.len(),
            owners == address_owners(changes@.take(i as int)),
            r@ == first_occurrences(owners),
        decreases changes.len() - i,
    {
        proof {
            assert(changes@.take(i + 1).drop_last() =~= changes@.take(i as int));
            assert(changes@.take(i + 1).last() == changes@[i as int]);
        }
        match changes[i].owner {
            Owner::AddressOwner(a) => {
                proof {
                    assert(owners.push(a).drop_last() =~= owners);
                    owners = owners.push(a);
                }
                let mut found = false;
                let mut k: usize = 0;
                while k < r.len()
                    invariant
                        k <= r.len(),
                        found == (exists|m: int| 0 <= m < k && r@[m] == a),
                    decreases r.len() - k,
                {
                    if r[k] == a {
                        found = true;
                    }
                    k = k + 1;
                }
                if !found {
                    r.push(a);
                }
            },
            _ => {},
        }
        i = i + 1;
    }
    proof {
        assert(changes@.take(i as int) =~= changes@);
    }
    r
}

/// The recipients of a transaction's changes are its address owners, each
/// named once.
pub proof fn lemma_recipients_unique(changes: Seq<ChangedObjectRef>)
    ensures
        recipients_spec(changes).no_duplicates(),
        forall|a: SuiAddress|
            #[trigger] recipients_spec(changes).contains(a) <==> address_owners(changes).contains(a),
{
    lemma_first_occurrences(address_owners(changes));
}

/// Some change of `changes` leaves an object owned by address `a` itself
/// (not by an object, not shared, not immutable).
pub open spec fn owned_by_address(changes: Seq<ChangedObjectRef>, a: SuiAddress) -> bool {
    exists|j: int| 0 <= j < changes.len() && #[trigger] changes[j].owner == Owner::AddressOwner(a)
}

proof fn lemma_address_owners_contains(changes: Seq<ChangedObjectRef>, a: SuiAddress)
    ensures
        address_owners(changes).contains(a) <==> owned_by_address(changes, a),
    decreases changes.len(),
{
    if changes.len() > 0 {
        let init = changes.drop_last();
        lemma_address_owners_contains(init, a);
        let prev = address_owners(init);
        let last = changes.last();
        assert(changes[changes.len() - 1] == last);
        if owned_by_address(init, a) {
            let j = choose|j: int| 0 <= j < init.len() && #[trigger] init[j].owner == Owner::AddressOwner(a);
            assert(changes[j] == init[j]);
        }
        if owned_by_address(changes, a) && !(last.owner == Owner::AddressOwner(a)) {
            let j = choose|j: int| 0 <= j < changes.len() && #[trigger] changes[j].owner == Owner::AddressOwner(a);
            assert(j < init.len());
            assert(init[j] == changes[j]);
        }
        match last.owner {
            Owner::AddressOwner(b) => {
                assert(prev.push(b)[prev.len() as int] == b);
                if prev.contains(a) {
                    let k = choose|k: int| 0 <= k < prev.len() && prev[k] == a;
                    assert(prev.push(b)[k] == a);
                }
                if prev.push(b).contains(a) && a != b {
                    let k = choose|k: int| 0 <= k < prev.len() + 1 && prev.push(b)[k] == a;
                    assert(prev[k] == a);
                }
            },
            _ => {},
        }
    }
}

/// The recipients of a transaction's changes are exactly the addresses that
/// own a changed object themselves, each named once: an object owned by an
/// object, a shared or an immutable object gives no recipient.
pub proof fn lemma_recipients_are_address_owners(changes: Seq<ChangedObjectRef>)
    ensures
        recipients_spec(changes).no_duplicates(),
        forall|a: SuiAddress|
            #[trigger] recipients_spec(changes).contains(a) <==> owned_by_address(changes, a),
{
    lemma_recipients_unique(changes);
    assert forall|a: SuiAddress| #[trigger] recipients_spec(changes).contains(a) <==> owned_by_address(
        changes,
        a,
    ) by {
        lemma_address_owners_contains(changes, a);
    }
}

/// Change `j` of `changes` is the first that leaves an object owned by
/// address `a`.
pub open spec fn first_owned_at(changes: Seq<ChangedObjectRef>, a: SuiAddress, j: int) -> bool {
    &&& 0 <= j < changes.len()
    &&& changes[j].owner == Owner::AddressOwner(a)
    &&& forall|j2: int| 0 <= j2 < j ==> #[trigger] changes[j2].owner != Owner::AddressOwner(a)
}

/// The recipients come in the order of the first change that each of them
/// owns: a recipient named before another first owns an object at an
/// earlier change.
pub proof fn lemma_recipients_in_first_change_order(changes: Seq<ChangedObjectRef>)
    ensures
        forall|k1: int, k2: int, j1: int, j2: int|
            0 <= k1 < k2 < recipients_spec(changes).len() && #[trigger] first_owned_at(
                changes,
                recipients_spec(changes)[k1],
                j1,
            ) && #[trigger] first_owned_at(changes, recipients_spec(changes)[k2], j2) ==> j1 < j2,
    decreases changes.len(),
{
    if changes.len() > 0 {
        let init = changes.drop_last();
        let n = changes.len() - 1;
        let last = changes.last();
        assert(changes[n] == last);
        lemma_recipients_in_first_change_order(init);
        lemma_recipients_are_address_owners(init);
        let ri = recipients_spec(init);
        let rc = recipients_spec(changes);
        // A recipient of the earlier changes first owns an object among them.
        assert forall|b: SuiAddress, j: int|
            ri.contains(b) && #[trigger] first_owned_at(changes, b, j) implies j < n
                && first_owned_at(init, b, j) by {
            assert(owned_by_address(init, b));
            let j0 = choose|j0: int| 0 <= j0 < init.len() && #[trigger] init[j0].owner == Owner::AddressOwner(b);
            assert(changes[j0] == init[j0]);
            if j > j0 {
                assert(changes[j0].owner != Owner::AddressOwner(b));
            }
            assert(j <= j0);
            assert(init[j] == changes[j]);
            assert forall|j2: int| 0 <= j2 < j implies #[trigger] init[j2].owner != Owner::AddressOwner(b) by {
                assert(init[j2] == changes[j2]);
                assert(changes[j2].owner != Owner::AddressOwner(b));
            }
        }
        match last.owner {
            Owner::AddressOwner(a) => {
                assert(address_owners(changes) == address_owners(init).push(a));
                assert(address_owners(init).push(a).drop_last() =~= address_owners(init));
                assert(address_owners(init).push(a).last() == a);
                if ri.contains(a) {
                    assert(rc == ri);
                } else {
                    assert(rc == ri.push(a));
                    assert forall|k1: int, k2: int, j1: int, j2: int|
                        0 <= k1 < k2 < rc.len() && #[trigger] first_owned_at(changes, rc[k1], j1)
                            && #[trigger] first_owned_at(changes, rc[k2], j2) implies j1 < j2 by {
                        assert(rc[k1] == ri[k1]);
                        assert(ri.contains(ri[k1]));
                        if k2 < ri.len() {
                            assert(rc[k2] == ri[k2]);
                            assert(ri.contains(ri[k2]));
                            assert(first_owned_at(init, ri[k1], j1));
                            assert(first_owned_at(init, ri[k2], j2));
                        } else {
                            assert(rc[k2] == a);
                            assert(!owned_by_address(init, a));
                            if j2 < n {
                                assert(init[j2] == changes[j2]);
                                assert(init[j2].owner == Owner::AddressOwner(a));
                            }
                        }
                    }
                }
            },
            _ => {
                assert(address_owners(changes) == address_owners(init));
                assert(rc == ri);
            },
        }
        if rc == ri {
            assert forall|k1: int, k2: int, j1: int, j2: int|
                0 <= k1 < k2 < rc.len() && #[trigger] first_owned_at(changes, rc[k1], j1)
                    && #[trigger] first_owned_at(changes, rc[k2], j2) implies j1 < j2 by {
                assert(ri.contains(ri[k1]));
                assert(ri.contains(ri[k2]));
                assert(first_owned_at(init, ri[k1], j1));
                assert(first_owned_at(init, ri[k2], j2));
            }
        }
    }
}

/// When a checkpoint's transactions can be indexed, each transaction is the
/// one that the checkpoint's contents name at its position, so every record
/// carries its own transaction's digest.
pub proof fn lemma_indexed_in_contents_order(
    txs: Seq<CheckpointTransaction>,
    contents: Seq<ExecutionEntry>,
    summary: CheckpointSummary,
)
    requires
        transactions_error(txs, contents, summary) is None,
    ensures
        contents.len() == txs.len(),
        forall|i: int|
            0 <= i < txs.len() ==> (#[trigger] contents[i]).transaction == txs[i].transaction.digest,
{
    lemma_order_error_none(txs, contents, summary.sequence_number, txs.len() as int);
    assert forall|i: int| 0 <= i < txs.len() implies (#[trigger] contents[i]).transaction
        == txs[i].transaction.digest by {
        assert(position_error(txs, contents, summary.sequence_number, i) is None);
    }
}

// ---------------------------------------------------------------------------
// One transaction
// ---------------------------------------------------------------------------
/// The events of a transaction, none if it has no event list.
pub open spec fn events_of(tx: CheckpointTransaction) -> Seq<Event> {
    match tx.events {
        Some(v) => v@,
        None => Seq::empty(),
    }
}

/// The records of the events of transaction `tx`, found at `entry` of the
/// checkpoint `summary`: each with its position among them.
pub open spec fn indexed_events_of(
    tx: CheckpointTransaction,
    entry: ExecutionEntry,
    summary: CheckpointSummary,
) -> Seq<IndexedEventView> {
    Seq::new(
        events_of(tx).len(),
        |j: int|
            IndexedEventView {
                tx_sequence_number: entry.sequence_number,
                event_sequence_number: j as u64,
                checkpoint_sequence_number: summary.sequence_number,
                transaction_digest: entry.transaction,
                timestamp_ms: summary.timestamp_ms,
                event: events_of(tx)[j]@,
            },
    )
}

/// The kind of a transaction.
pub open spec fn kind_of(tx: CheckpointTransaction) -> TransactionKind {
    if tx.transaction.data.is_system_tx {
        TransactionKind::SystemTransaction
    } else {
        TransactionKind::ProgrammableTransaction
    }
}

/// How many transactions `tx` counts as: its kind's count if it succeeded, else 0.
pub open spec fn successful_of(tx: CheckpointTransaction) -> u64 {
    if tx.effects.status_ok {
        tx.transaction.data.tx_count
    } else {
        0
    }
}

/// `r` is the record of transaction `tx`, found at `entry` of checkpoint `summary`.
pub open spec fn is_indexed_transaction(
    r: IndexedTransaction,
    tx: CheckpointTransaction,
    entry: ExecutionEntry,
    summary: CheckpointSummary,
) -> bool {
    &&& r.tx_sequence_number == entry.sequence_number
    &&& r.tx_digest == entry.transaction
    &&& r.checkpoint_sequence_number == summary.sequence_number
    &&& r.timestamp_ms == summary.timestamp_ms
    &&& r.sender_signed_data == tx.transaction
    &&& r.effects == tx.effects
    &&& r.events@ == events_of(tx)
    &&& tx.changes matches Ok(c) && r.object_changes == c.object_changes && r.balance_change
        == c.balance_changes
    &&& r.transaction_kind == kind_of(tx)
    &&& r.successful_tx_num == successful_of(tx)
}

/// The identifiers of the objects that the changes `changes` wrote.
pub open spec fn changed_ids(changes: Seq<ChangedObjectRef>) -> Seq<ObjectId> {
    changes.map_values(|c: ChangedObjectRef| c.object_ref.object_id)
}

/// `r` is the lookup entry of transaction `tx`, found at `entry` of checkpoint `summary`.
pub open spec fn is_tx_index(
    r: TxIndex,
    tx: CheckpointTransaction,
    entry: ExecutionEntry,
    summary: CheckpointSummary,
) -> bool {
    &&& r.tx_sequence_number == entry.sequence_number
    &&& r.transaction_digest == entry.transaction
    &&& r.checkpoint_sequence_number == summary.sequence_number
    &&& r.input_objects@ == tx.transaction.data.input_objects@
    &&& r.changed_objects@ == changed_ids(tx.effects.changed_objects@)
    &&& r.senders@ == seq![tx.transaction.data.sender]
    &&& r.payers@ == seq![tx.transaction.data.gas_owner]
    &&& r.recipients@ == recipients_spec(tx.effects.changed_objects@)
    &&& r.move_calls@ == tx.transaction.data.move_calls@
}

// ---------------------------------------------------------------------------
// All transactions of a checkpoint
// ---------------------------------------------------------------------------
/// The transaction at position `i` of the checkpoint is not the one that its
/// contents name there.
pub open spec fn order_mismatch_at(
    txs: Seq<CheckpointTransaction>,
    contents: Seq<ExecutionEntry>,
    i: int,
) -> bool {
    contents[i].transaction != txs[i].transaction.digest
}

/// Why the transaction at position `i` cannot be indexed, if it cannot: the
/// contents name another transaction there, or else the change processor
/// failed on it, with the error it gave.
pub open spec fn position_error(
    txs: Seq<CheckpointTransaction>,
    contents: Seq<ExecutionEntry>,
    checkpoint: u64,
    i: int,
) -> Option<IndexerError> {
    if order_mismatch_at(txs, contents, i) {
        Some(
            IndexerError::TransactionOrderMismatch {
                checkpoint_sequence_number: checkpoint,
                expected: contents[i].transaction,
                found: txs[i].transaction.digest,
            },
        )
    } else {
        match txs[i].changes {
            Ok(_) => None,
            Err(e) => Some(e),
        }
    }
}

/// The error of the first position before `n` whose transaction cannot be
/// indexed, if there is one.
pub open spec fn order_error(
    txs: Seq<CheckpointTransaction>,
    contents: Seq<ExecutionEntry>,
    checkpoint: u64,
    n: int,
) -> Option<IndexerError>
    decreases n,
{
    if n <= 0 {
        None
    } else {
        match order_error(txs, contents, checkpoint, n - 1) {
            Some(e) => Some(e),
            None => position_error(txs, contents, checkpoint, n - 1),
        }
    }
}

/// Why the transactions `txs` of checkpoint `summary`, whose contents are
/// `contents`, cannot be indexed, if they cannot: the contents and the
/// transactions differ in number, or else the error of the first position
/// that cannot be indexed.
pub open spec fn transactions_error(
    txs: Seq<CheckpointTransaction>,
    contents: Seq<ExecutionEntry>,
    summary: CheckpointSummary,
) -> Option<IndexerError> {
    if contents.len() != txs.len() {
        Some(
            IndexerError::ContentsSizeMismatch {
                checkpoint_sequence_number: summary.sequence_number,
                contents_size: contents.len() as usize,
                transactions_len: txs.len() as usize,
            },
        )
    } else {
        order_error(txs, contents, summary.sequence_number, txs.len() as int)
    }
}

/// No error before `n` is exactly: no position before `n` that cannot be indexed.
pub proof fn lemma_order_error_none(
    txs: Seq<CheckpointTransaction>,
    contents: Seq<ExecutionEntry>,
    checkpoint: u64,
    n: int,
)
    ensures
        order_error(txs, contents, checkpoint, n) is None <==> forall|i: int|
            0 <= i < n ==> #[trigger] position_error(txs, contents, checkpoint, i) is None,
    decreases n,
{
    if n > 0 {
        lemma_order_error_none(txs, contents, checkpoint, n - 1);
    }
}

/// The records of the events of the transactions `txs`, transaction after
/// transaction.
pub open spec fn events_spec(
    txs: Seq<CheckpointTransaction>,
    contents: Seq<ExecutionEntry>,
    summary: CheckpointSummary,
) -> Seq<IndexedEventView>
    decreases txs.len(),
{
    if txs.len() == 0 {
        Seq::empty()
    } else {
        events_spec(txs.drop_last(), contents, summary) + indexed_events_of(
            txs.last(),
            contents[txs.len() - 1],
            summary,
        )
    }
}

/// Every event record of a checkpoint's transactions carries that
/// checkpoint's sequence number and timestamp.
pub proof fn lemma_events_carry_checkpoint(
    txs: Seq<CheckpointTransaction>,
    contents: Seq<ExecutionEntry>,
    summary: CheckpointSummary,
)
    ensures
        forall|k: int|
            0 <= k < events_spec(txs, contents, summary).len() ==> (#[trigger] events_spec(
                txs,
                contents,
                summary,
            )[k]).checkpoint_sequence_number == summary.sequence_number && events_spec(
                txs,
                contents,
                summary,
            )[k].timestamp_ms == summary.timestamp_ms,
    decreases txs.len(),
{
    if txs.len() > 0 {
        lemma_events_carry_checkpoint(txs.drop_last(), contents, summary);
        let before = events_spec(txs.drop_last(), contents, summary);
        let these = indexed_events_of(txs.last(), contents[txs.len() - 1], summary);
        assert forall|k: int| 0 <= k < events_spec(txs, contents, summary).len() implies (
        #[trigger] events_spec(txs, contents, summary)[k]).checkpoint_sequence_number
            == summary.sequence_number && events_spec(txs, contents, summary)[k].timestamp_ms
            == summary.timestamp_ms by {
            if k < before.len() {
                assert(events_spec(txs, contents, summary)[k] == before[k]);
            } else {
                assert(events_spec(txs, contents, summary)[k] == these[k - before.len()]);
            }
        }
    }
}

/// The displays that the events `events` publish, added in order to `m`: a
/// later display of an object type replaces an earlier one.
pub open spec fn add_displays(
    m: Map<Seq<char>, StoredDisplayView>,
    events: Seq<Event>,
) -> Map<Seq<char>, StoredDisplayView>
    decreases events.len(),
{
    if events.len() == 0 {
        m
    } else {
        let prev = add_displays(m, events.drop_last());
        match events.last().display {
            Some(d) => prev.insert(d.object_type@, d@),
            None => prev,
        }
    }
}

/// The latest display of each object type that the events of the
/// transactions `txs` publish, by object type.
pub open spec fn displays_spec(txs: Seq<CheckpointTransaction>) -> Map<Seq<char>, StoredDisplayView>
    decreases txs.len(),
{
    if txs.len() == 0 {
        Map::empty()
    } else {
        add_displays(displays_spec(txs.drop_last()), events_of(txs.last()))
    }
}

/// Event `e` publishes a display of object type `k`.
pub open spec fn publishes(e: Event, k: Seq<char>) -> bool {
    e.display matches Some(d) && d.object_type@ == k
}

/// Some event of `events` publishes a display of object type `k`.
pub open spec fn published_in(events: Seq<Event>, k: Seq<char>) -> bool {
    exists|j: int| 0 <= j < events.len() && #[trigger] publishes(events[j], k)
}

/// Event `j` of `events` is the last one that publishes a display of type `k`.
pub open spec fn last_publisher(events: Seq<Event>, k: Seq<char>, j: int) -> bool {
    &&& 0 <= j < events.len()
    &&& publishes(events[j], k)
    &&& forall|j2: int| j < j2 < events.len() ==> !#[trigger] publishes(events[j2], k)
}

/// Adding the displays of `events` to `m` keeps what `m` has for a type that
/// no event publishes, and gives a type that some event publishes the display
/// of the last such event.
pub proof fn lemma_add_displays_last_wins(m: Map<Seq<char>, StoredDisplayView>, events: Seq<Event>)
    ensures
        forall|k: Seq<char>|
            #[trigger] add_displays(m, events).contains_key(k) <==> m.contains_key(k) || published_in(
                events,
                k,
            ),
        forall|k: Seq<char>|
            !published_in(events, k) ==> #[trigger] add_displays(m, events)[k] == m[k],
        forall|k: Seq<char>, j: int|
            #[trigger] last_publisher(events, k, j) ==> add_displays(m, events)[k]
                == events[j].display->Some_0@,
    decreases events.len(),
{
    if events.len() > 0 {
        let init = events.drop_last();
        let n = events.len() - 1;
        let e = events.last();
        assert(events[n] == e);
        lemma_add_displays_last_wins(m, init);
        let prev = add_displays(m, init);
        assert forall|k: Seq<char>| published_in(init, k) implies published_in(events, k) by {
            let j = choose|j: int| 0 <= j < init.len() && #[trigger] publishes(init[j], k);
            assert(events[j] == init[j]);
            assert(publishes(events[j], k));
        }
        assert forall|k: Seq<char>| published_in(events, k) && !publishes(e, k) implies published_in(
            init,
            k,
        ) by {
            let j = choose|j: int| 0 <= j < events.len() && #[trigger] publishes(events[j], k);
            assert(j != n);
            assert(init[j] == events[j]);
            assert(publishes(init[j], k));
        }
        assert forall|k: Seq<char>, j: int|
            #[trigger] last_publisher(events, k, j) implies add_displays(m, events)[k]
                == events[j].display->Some_0@ by {
            if j < n {
                assert(!publishes(events[n], k));
                assert(init[j] == events[j]);
                assert forall|j2: int| j < j2 < init.len() implies !#[trigger] publishes(init[j2], k) by {
                    assert(init[j2] == events[j2]);
                    assert(!publishes(events[j2], k));
                }
                assert(last_publisher(init, k, j));
            }
        }
        assert forall|k: Seq<char>| publishes(e, k) implies published_in(events, k) by {
            assert(publishes(events[n], k));
        }
    }
}

/// Some transaction of `txs` has an event that publishes a display of type `k`.
pub open spec fn published_by(txs: Seq<CheckpointTransaction>, k: Seq<char>) -> bool {
    exists|i: int| 0 <= i < txs.len() && #[trigger] published_in(events_of(txs[i]), k)
}

/// Event `j` of transaction `i` is the last event of the transactions `txs`
/// that publishes a display of type `k`.
pub open spec fn last_in_transactions(
    txs: Seq<CheckpointTransaction>,
    k: Seq<char>,
    i: int,
    j: int,
) -> bool {
    &&& 0 <= i < txs.len()
    &&& last_publisher(events_of(txs[i]), k, j)
    &&& forall|i2: int| i < i2 < txs.len() ==> !#[trigger] published_in(events_of(txs[i2]), k)
}

/// The displays of a checkpoint's transactions are one per object type that
/// some event publishes, and each is the display of the last event, in
/// transaction order and then event order, that publishes its type.
pub proof fn lemma_displays_last_wins(txs: Seq<CheckpointTransaction>)
    ensures
        forall|k: Seq<char>| #[trigger] displays_spec(txs).contains_key(k) <==> published_by(txs, k),
        forall|k: Seq<char>, i: int, j: int|
            #[trigger] last_in_transactions(txs, k, i, j) ==> displays_spec(txs)[k]
                == events_of(txs[i])[j].display->Some_0@,
    decreases txs.len(),
{
    if txs.len() > 0 {
        let init = txs.drop_last();
        let n = txs.len() - 1;
        let t = txs.last();
        assert(txs[n] == t);
        lemma_displays_last_wins(init);
        let prev = displays_spec(init);
        lemma_add_displays_last_wins(prev, events_of(t));
        assert forall|k: Seq<char>| #[trigger] displays_spec(txs).contains_key(k) <==> published_by(
            txs,
            k,
        ) by {
            if published_by(init, k) {
                let i = choose|i: int| 0 <= i < init.len() && #[trigger] published_in(events_of(init[i]), k);
                assert(init[i] == txs[i]);
                assert(published_in(events_of(txs[i]), k));
            }
            if published_in(events_of(t), k) {
                assert(published_in(events_of(txs[n]), k));
            }
            if published_by(txs, k) && !published_in(events_of(t), k) {
                let i = choose|i: int| 0 <= i < txs.len() && #[trigger] published_in(events_of(txs[i]), k);
                assert(i != n);
                assert(init[i] == txs[i]);
                assert(published_in(events_of(init[i]), k));
            }
        }
        assert forall|k: Seq<char>, i: int, j: int|
            #[trigger] last_in_transactions(txs, k, i, j) implies displays_spec(txs)[k]
                == events_of(txs[i])[j].display->Some_0@ by {
            if i == n {
                assert(last_publisher(events_of(t), k, j));
            } else {
                assert(!published_in(events_of(txs[n]), k));
                assert(init[i] == txs[i]);
                assert forall|i2: int| i < i2 < init.len() implies !#[trigger] published_in(
                    events_of(init[i2]),
                    k,
                ) by {
                    assert(init[i2] == txs[i2]);
                    assert(!published_in(events_of(txs[i2]), k));
                }
                assert(last_in_transactions(init, k, i, j));
            }
        }
    }
}

/// Some display of `v` is for object type `k`.
pub open spec fn holds_display_of(v: Seq<StoredDisplay>, k: Seq<char>) -> bool {
    exists|i: int| 0 <= i < v.len() && #[trigger] v[i].object_type@ == k
}

/// The bytes by which displays are ordered: the UTF-8 encoding of the object
/// type, as a string orders by its bytes.
pub open spec fn display_key(d: StoredDisplay) -> Seq<u8> {
    vstd::utf8::encode_utf8(d.object_type@)
}

/// `a` comes before `b` when both are read from position `i` on: at the first
/// position where they differ `a` has the smaller byte, or `a` ends first.
pub open spec fn bytes_less_from(a: Seq<u8>, b: Seq<u8>, i: int) -> bool
    decreases a.len() - i,
{
    if i >= a.len() {
        i < b.len()
    } else if i >= b.len() {
        false
    } else if a[i] != b[i] {
        a[i] < b[i]
    } else {
        bytes_less_from(a, b, i + 1)
    }
}

/// `a` comes before `b` in byte-wise lexicographic order.
pub open spec fn bytes_less(a: Seq<u8>, b: Seq<u8>) -> bool {
    bytes_less_from(a, b, 0)
}

/// Of two different byte strings that agree before position `i`, one comes
/// before the other.
pub proof fn lemma_bytes_less_total(a: Seq<u8>, b: Seq<u8>, i: int)
    requires
        0 <= i <= a.len(),
        i <= b.len(),
        a != b,
        a.subrange(0, i) == b.subrange(0, i),
    ensures
        bytes_less_from(a, b, i) || bytes_less_from(b, a, i),
    decreases a.len() - i,
{
    if i == a.len() && i == b.len() {
        assert(a =~= a.subrange(0, i));
        assert(b =~= b.subrange(0, i));
    } else if i < a.len() && i < b.len() && a[i] == b[i] {
        assert(a.subrange(0, i + 1) =~= a.subrange(0, i).push(a[i]));
        assert(b.subrange(0, i + 1) =~= b.subrange(0, i).push(b[i]));
        lemma_bytes_less_total(a, b, i + 1);
    }
}

/// Byte-wise lexicographic order is transitive.
pub proof fn lemma_bytes_less_transitive(a: Seq<u8>, b: Seq<u8>, c: Seq<u8>, i: int)
    requires
        0 <= i,
        bytes_less_from(a, b, i),
        bytes_less_from(b, c, i),
    ensures
        bytes_less_from(a, c, i),
    decreases a.len() - i,
{
    if i < a.len() && a[i] == b[i] && b[i] == c[i] {
        lemma_bytes_less_transitive(a, b, c, i + 1);
    }
}

/// Displays of different object types have different keys.
proof fn lemma_display_keys_differ(x: StoredDisplay, y: StoredDisplay)
    requires
        x.object_type@ != y.object_type@,
    ensures
        display_key(x) != display_key(y),
{
    vstd::utf8::encode_utf8_decode_utf8(x.object_type@);
    vstd::utf8::encode_utf8_decode_utf8(y.object_type@);
}

/// Whether `a` comes before `b` in byte-wise lexicographic order.
fn bytes_lt(a: &[u8], b: &[u8]) -> (r: bool)
    ensures
        r == bytes_less(a@, b@),
{
    let mut i: usize = 0;
    while i < a.len() && i < b.len()
        invariant
            i <= a.len(),
            i <= b.len(),
            bytes_less(a@, b@) == bytes_less_from(a@, b@, i as int),
        decreases a.len() - i,
    {
        if a[i] != b[i] {
            return a[i] < b[i];
        }
        i = i + 1;
    }
    a.len() < b.len()
}

/// The displays `v` are the map `m`: one display per object type, each the
/// one that `m` has for its type, one for every type of `m`, and in the
/// order of their object types.
pub open spec fn represents_displays(v: Seq<StoredDisplay>, m: Map<Seq<char>, StoredDisplayView>) -> bool {
    &&& forall|i: int, j: int|
        0 <= i < j < v.len() ==> #[trigger] v[i].object_type@ != #[trigger] v[j].object_type@
    &&& forall|i: int|
        0 <= i < v.len() ==> m.contains_key(#[trigger] v[i].object_type@) && m[v[i].object_type@]
            == v[i]@
    &&& forall|k: Seq<char>| #[trigger] m.contains_key(k) ==> holds_display_of(v, k)
    &&& forall|i: int|
        0 <= i < v.len() - 1 ==> #[trigger] bytes_less(display_key(v[i]), display_key(v[i + 1]))
}

/// The displays that indexing gives come in the order of their object types:
/// each one's type comes before the type of every later one, byte by byte.
pub proof fn lemma_displays_ordered(v: Seq<StoredDisplay>, m: Map<Seq<char>, StoredDisplayView>)
    requires
        represents_displays(v, m),
    ensures
        forall|i: int, j: int|
            0 <= i < j < v.len() ==> #[trigger] bytes_less(display_key(v[i]), display_key(v[j])),
{
    assert forall|i: int, j: int| 0 <= i < j < v.len() implies #[trigger] bytes_less(
        display_key(v[i]),
        display_key(v[j]),
    ) by {
        lemma_displays_ordered_from(v, m, i, j);
    }
}

proof fn lemma_displays_ordered_from(
    v: Seq<StoredDisplay>,
    m: Map<Seq<char>, StoredDisplayView>,
    i: int,
    j: int,
)
    requires
        represents_displays(v, m),
        0 <= i < j < v.len(),
    ensures
        bytes_less(display_key(v[i]), display_key(v[j])),
    decreases j - i,
{
    let k = j - 1;
    assert(bytes_less(display_key(v[k]), display_key(v[k + 1])));
    assert(k + 1 == j);
    if i < j - 1 {
        lemma_displays_ordered_from(v, m, i, j - 1);
        lemma_bytes_less_transitive(display_key(v[i]), display_key(v[j - 1]), display_key(v[j]), 0);
    }
}

/// Adds display `d` to `displays`, in place of the one of the same object
/// type if there is one, else where its object type belongs in their order.
fn add_display(
    displays: &mut Vec<StoredDisplay>,
    d: StoredDisplay,
    Ghost(m): Ghost<Map<Seq<char>, StoredDisplayView>>,
)
    requires
        represents_displays(old(displays)@, m),
    ensures
        represents_displays(final(displays)@, m.insert(d.object_type@, d@)),
{
    let ghost old_v = displays@;
    let ghost key = d.object_type@;
    let ghost dv = d@;
    let mut k: usize = 0;
    while k < displays.len()
        invariant
            k <= displays.len(),
            displays@ == old_v,
            key == d.object_type@,
            forall|q: int| 0 <= q < k ==> #[trigger] displays@[q].object_type@ != key,
        ensures
            k <= displays.len(),
            displays@ == old_v,
            forall|q: int| 0 <= q < k ==> #[trigger] displays@[q].object_type@ != key,
            k < displays.len() ==> displays@[k as int].object_type@ == key,
        decreases displays.len() - k,
    {
        if displays[k].object_type.eq(&d.object_type) {
            break;
        }
        k = k + 1;
    }
    let ghost m2 = m.insert(key, dv);
    if k < displays.len() {
        proof {
            assert(displays@[k as int].object_type@ == key);
        }
        displays.set(k, d);
        proof {
            assert forall|i: int, j: int| 0 <= i < j < displays@.len() implies #[trigger] displays@[i].object_type@
                != #[trigger] displays@[j].object_type@ by {
                assert(old_v[i].object_type@ != old_v[j].object_type@);
            }
            assert forall|i: int| 0 <= i < displays@.len() implies m2.contains_key(
                #[trigger] displays@[i].object_type@,
            ) && m2[displays@[i].object_type@] == displays@[i]@ by {
                if i != k {
                    assert(old_v[i].object_type@ != old_v[k as int].object_type@);
                    assert(displays@[i] == old_v[i]);
                }
            }
            assert forall|kk: Seq<char>| #[trigger] m2.contains_key(kk) implies holds_display_of(
                displays@,
                kk,
            ) by {
                if kk == key {
                    assert(displays@[k as int].object_type@ == kk);
                } else {
                    assert(holds_display_of(old_v, kk));
                    let i = choose|i: int| 0 <= i < old_v.len() && #[trigger] old_v[i].object_type@ == kk;
                    assert(displays@[i] == old_v[i]);
                    assert(displays@[i].object_type@ == kk);
                }
            }
            assert forall|i: int| 0 <= i < displays@.len() - 1 implies #[trigger] bytes_less(
                display_key(displays@[i]),
                display_key(displays@[i + 1]),
            ) by {
                assert(bytes_less(display_key(old_v[i]), display_key(old_v[i + 1])));
                assert(display_key(displays@[i]) == display_key(old_v[i]));
                assert(display_key(displays@[i + 1]) == display_key(old_v[i + 1]));
            }
        }
    } else {
        // Where the new object type belongs: before the first display whose
        // object type does not come before it.
        let mut p: usize = 0;
        {
            let kb = d.object_type.as_str().as_bytes();
            while p < displays.len()
                invariant
                    p <= displays.len(),
                    displays@ == old_v,
                    kb@ == display_key(d),
                    forall|q: int|
                        0 <= q < p ==> #[trigger] bytes_less(display_key(displays@[q]), kb@),
                ensures
                    p <= displays.len(),
                    displays@ == old_v,
                    forall|q: int|
                        0 <= q < p ==> #[trigger] bytes_less(display_key(displays@[q]), kb@),
                    p < displays.len() ==> !bytes_less(display_key(displays@[p as int]), kb@),
                decreases displays.len() - p,
            {
                let vb = displays[p].object_type.as_str().as_bytes();
                if !bytes_lt(vb, kb) {
                    break;
                }
                p = p + 1;
            }
        }
        let ghost dk = display_key(d);
        proof {
            if p < old_v.len() {
                let pk = display_key(old_v[p as int]);
                assert(old_v[p as int].object_type@ != key);
                lemma_display_keys_differ(old_v[p as int], d);
                assert(pk.subrange(0, 0) =~= dk.subrange(0, 0));
                lemma_bytes_less_total(dk, pk, 0);
                assert(bytes_less(dk, pk));
            }
        }
        displays.insert(p, d);
        proof {
            old_v.insert_ensures(p as int, d);
            assert(displays@ == old_v.insert(p as int, d));
            assert forall|i: int| 0 <= i < displays@.len() implies (i < p ==> displays@[i]
                == old_v[i]) && (i == p ==> displays@[i] == d) && (i > p ==> displays@[i]
                == old_v[i - 1]) by {
                if i > p {
                    assert(displays@[(i - 1) + 1] == old_v[i - 1]);
                }
            }
            assert forall|i: int, j: int| 0 <= i < j < displays@.len() implies #[trigger] displays@[i].object_type@
                != #[trigger] displays@[j].object_type@ by {
                if i < p && j < p {
                    assert(old_v[i].object_type@ != old_v[j].object_type@);
                } else if i < p && j > p {
                    assert(old_v[i].object_type@ != old_v[j - 1].object_type@);
                } else if i > p {
                    assert(old_v[i - 1].object_type@ != old_v[j - 1].object_type@);
                } else if i < p {
                    assert(old_v[i].object_type@ != key);
                } else {
                    assert(old_v[j - 1].object_type@ != key);
                }
            }
            assert forall|i: int| 0 <= i < displays@.len() implies m2.contains_key(
                #[trigger] displays@[i].object_type@,
            ) && m2[displays@[i].object_type@] == displays@[i]@ by {
                if i < p {
                    assert(old_v[i].object_type@ != key);
                    assert(m.contains_key(old_v[i].object_type@));
                } else if i > p {
                    assert(old_v[i - 1].object_type@ != key);
                    assert(m.contains_key(old_v[i - 1].object_type@));
                }
            }
            assert forall|kk: Seq<char>| #[trigger] m2.contains_key(kk) implies holds_display_of(
                displays@,
                kk,
            ) by {
                if kk == key {
                    assert(displays@[p as int].object_type@ == kk);
                } else {
                    assert(holds_display_of(old_v, kk));
                    let i = choose|i: int| 0 <= i < old_v.len() && #[trigger] old_v[i].object_type@ == kk;
                    if i < p {
                        assert(displays@[i].object_type@ == kk);
                    } else {
                        assert(displays@[i + 1] == old_v[i]);
                        assert(displays@[i + 1].object_type@ == kk);
                    }
                }
            }
            assert forall|i: int| 0 <= i < displays@.len() - 1 implies #[trigger] bytes_less(
                display_key(displays@[i]),
                display_key(displays@[i + 1]),
            ) by {
                if i + 1 < p {
                    assert(bytes_less(display_key(old_v[i]), display_key(old_v[i + 1])));
                } else if i + 1 == p {
                    assert(bytes_less(display_key(old_v[i]), dk));
                } else if i == p {
                    assert(displays@[i + 1] == old_v[p as int]);
                } else {
                    assert(bytes_less(display_key(old_v[i - 1]), display_key(old_v[i])));
                }
            }
        }
    }
}

/// The views of a vector of event records.
pub open spec fn event_views(v: Seq<IndexedEvent>) -> Seq<IndexedEventView> {
    v.map_values(|e: IndexedEvent| e@)
}

/// `records`, `events`, `indices` and `displays` are what indexing makes of
/// the transactions `txs` of checkpoint `summary` with contents `contents`:
/// for each transaction in order its record and its lookup entry, the
/// records of all their events, transaction after transaction, and the
/// latest display of each object type that their events publish.
pub open spec fn transactions_indexed(
    txs: Seq<CheckpointTransaction>,
    contents: Seq<ExecutionEntry>,
    summary: CheckpointSummary,
    records: Seq<IndexedTransaction>,
    events: Seq<IndexedEventView>,
    indices: Seq<TxIndex>,
    displays: Seq<StoredDisplay>,
) -> bool {
    &&& records.len() == txs.len()
    &&& indices.len() == txs.len()
    &&& forall|i: int|
        0 <= i < txs.len() ==> is_indexed_transaction(
            #[trigger] records[i],
            txs[i],
            contents[i],
            summary,
        )
    &&& forall|i: int|
        0 <= i < txs.len() ==> is_tx_index(#[trigger] indices[i], txs[i], contents[i], summary)
    &&& events == events_spec(txs, contents, summary)
    &&& represents_displays(displays, displays_spec(txs))
}

/// What indexing a checkpoint's transactions gives describes each of them at
/// its place: its record and its lookup entry carry the transaction's own
/// digest, the sequence number that the contents give it, and the
/// checkpoint's sequence number; the record also carries the checkpoint's
/// timestamp, the transaction's data, effects and events, the changes that
/// the change processor found, its kind as its data says, and the count of a
/// transaction that succeeded or none for one that failed; the lookup entry
/// names the sender as the only sender, the gas owner as the only payer, the
/// input objects, and each changed object's identifier, in order.
pub proof fn lemma_records_describe_transactions(
    txs: Seq<CheckpointTransaction>,
    contents: Seq<ExecutionEntry>,
    summary: CheckpointSummary,
    records: Seq<IndexedTransaction>,
    events: Seq<IndexedEventView>,
    indices: Seq<TxIndex>,
    displays: Seq<StoredDisplay>,
    i: int,
)
    requires
        transactions_error(txs, contents, summary) is None,
        transactions_indexed(txs, contents, summary, records, events, indices, displays),
        0 <= i < txs.len(),
    ensures
        records.len() == txs.len(),
        indices.len() == txs.len(),
        records[i].tx_digest == txs[i].transaction.digest,
        indices[i].transaction_digest == txs[i].transaction.digest,
        records[i].tx_sequence_number == contents[i].sequence_number,
        indices[i].tx_sequence_number == contents[i].sequence_number,
        records[i].checkpoint_sequence_number == summary.sequence_number,
        indices[i].checkpoint_sequence_number == summary.sequence_number,
        records[i].timestamp_ms == summary.timestamp_ms,
        records[i].sender_signed_data == txs[i].transaction,
        records[i].effects == txs[i].effects,
        records[i].events@ == events_of(txs[i]),
        txs[i].changes is Ok,
        records[i].object_changes == txs[i].changes->Ok_0.object_changes,
        records[i].balance_change == txs[i].changes->Ok_0.balance_changes,
        (records[i].transaction_kind == TransactionKind::SystemTransaction)
            == txs[i].transaction.data.is_system_tx,
        !txs[i].effects.status_ok ==> records[i].successful_tx_num == 0,
        txs[i].effects.status_ok ==> records[i].successful_tx_num
            == txs[i].transaction.data.tx_count,
        indices[i].senders@ == seq![txs[i].transaction.data.sender],
        indices[i].payers@ == seq![txs[i].transaction.data.gas_owner],
        indices[i].input_objects@ == txs[i].transaction.data.input_objects@,
        indices[i].changed_objects@.len() == txs[i].effects.changed_objects@.len(),
        forall|j: int|
            0 <= j < txs[i].effects.changed_objects@.len() ==> indices[i].changed_objects@[j]
                == (#[trigger] txs[i].effects.changed_objects@[j]).object_ref.object_id,
{
    lemma_indexed_in_contents_order(txs, contents, summary);
    assert(is_indexed_transaction(records[i], txs[i], contents[i], summary));
    assert(is_tx_index(indices[i], txs[i], contents[i], summary));
}

/// Every event record of a checkpoint's transactions is the record of an
/// event of one of them, at its position among that transaction's events,
/// carrying that transaction's place in the contents; and every event of
/// every transaction has its record.
pub proof fn lemma_events_are_the_transactions_events(
    txs: Seq<CheckpointTransaction>,
    contents: Seq<ExecutionEntry>,
    summary: CheckpointSummary,
)
    requires
        contents.len() == txs.len(),
    ensures
        forall|k: int|
            #![trigger events_spec(txs, contents, summary)[k]]
            0 <= k < events_spec(txs, contents, summary).len() ==> exists|i: int, j: int|
                #![trigger events_of(txs[i])[j]]
                0 <= i < txs.len() && 0 <= j < events_of(txs[i]).len() && events_spec(
                    txs,
                    contents,
                    summary,
                )[k] == (IndexedEventView {
                    tx_sequence_number: contents[i].sequence_number,
                    event_sequence_number: j as u64,
                    checkpoint_sequence_number: summary.sequence_number,
                    transaction_digest: contents[i].transaction,
                    timestamp_ms: summary.timestamp_ms,
                    event: events_of(txs[i])[j]@,
                }),
        forall|i: int, j: int|
            0 <= i < txs.len() && 0 <= j < events_of(txs[i]).len() ==> events_spec(
                txs,
                contents,
                summary,
            ).contains(
                (IndexedEventView {
                    tx_sequence_number: contents[i].sequence_number,
                    event_sequence_number: j as u64,
                    checkpoint_sequence_number: summary.sequence_number,
                    transaction_digest: contents[i].transaction,
                    timestamp_ms: summary.timestamp_ms,
                    event: #[trigger] events_of(txs[i])[j]@,
                }),
            ),
    decreases txs.len(),
{
    if txs.len() > 0 {
        let n = txs.len() - 1;
        let init = txs.drop_last();
        let cinit = contents.drop_last();
        lemma_events_are_the_transactions_events(init, cinit, summary);
        lemma_events_spec_contents(init, contents, cinit, summary);
        let before = events_spec(init, contents, summary);
        let these = indexed_events_of(txs.last(), contents[n], summary);
        let all = events_spec(txs, contents, summary);
        assert(all == before + these);
        assert(txs[n] == txs.last());
        assert forall|k: int| #![trigger all[k]] 0 <= k < all.len() implies exists|i: int, j: int|
            #![trigger events_of(txs[i])[j]]
            0 <= i < txs.len() && 0 <= j < events_of(txs[i]).len() && all[k] == (IndexedEventView {
                tx_sequence_number: contents[i].sequence_number,
                event_sequence_number: j as u64,
                checkpoint_sequence_number: summary.sequence_number,
                transaction_digest: contents[i].transaction,
                timestamp_ms: summary.timestamp_ms,
                event: events_of(txs[i])[j]@,
            }) by {
            if k < before.len() {
                assert(all[k] == before[k]);
                let (i, j) = choose|i: int, j: int|
                    #![trigger events_of(init[i])[j]]
                    0 <= i < init.len() && 0 <= j < events_of(init[i]).len() && before[k] == (
                    IndexedEventView {
                        tx_sequence_number: cinit[i].sequence_number,
                        event_sequence_number: j as u64,
                        checkpoint_sequence_number: summary.sequence_number,
                        transaction_digest: cinit[i].transaction,
                        timestamp_ms: summary.timestamp_ms,
                        event: events_of(init[i])[j]@,
                    });
                assert(init[i] == txs[i]);
                assert(cinit[i] == contents[i]);
                assert(events_of(txs[i])[j] == events_of(init[i])[j]);
            } else {
                let j = k - before.len();
                assert(all[k] == these[j]);
                assert(events_of(txs[n])[j] == events_of(txs.last())[j]);
            }
        }
        assert forall|i: int, j: int|
            0 <= i < txs.len() && 0 <= j < events_of(txs[i]).len() implies all.contains(
                (IndexedEventView {
                    tx_sequence_number: contents[i].sequence_number,
                    event_sequence_number: j as u64,
                    checkpoint_sequence_number: summary.sequence_number,
                    transaction_digest: contents[i].transaction,
                    timestamp_ms: summary.timestamp_ms,
                    event: #[trigger] events_of(txs[i])[j]@,
                }),
            ) by {
            if i < n {
                assert(init[i] == txs[i]);
                assert(cinit[i] == contents[i]);
                assert(events_of(init[i])[j] == events_of(txs[i])[j]);
                let e = IndexedEventView {
                    tx_sequence_number: cinit[i].sequence_number,
                    event_sequence_number: j as u64,
                    checkpoint_sequence_number: summary.sequence_number,
                    transaction_digest: cinit[i].transaction,
                    timestamp_ms: summary.timestamp_ms,
                    event: events_of(init[i])[j]@,
                };
                assert(before.contains(e));
                let k = choose|k: int| 0 <= k < before.len() && before[k] == e;
                assert(all[k] == e);
            } else {
                assert(all[before.len() + j] == these[j]);
            }
        }
    }
}

/// The event records of some transactions depend only on the contents
/// entries at those transactions' positions.
proof fn lemma_events_spec_contents(
    txs: Seq<CheckpointTransaction>,
    c1: Seq<ExecutionEntry>,
    c2: Seq<ExecutionEntry>,
    summary: CheckpointSummary,
)
    requires
        txs.len() <= c1.len(),
        txs.len() <= c2.len(),
        forall|i: int| 0 <= i < txs.len() ==> c1[i] == c2[i],
    ensures
        events_spec(txs, c1, summary) == events_spec(txs, c2, summary),
    decreases txs.len(),
{
    if txs.len() > 0 {
        lemma_events_spec_contents(txs.drop_last(), c1, c2, summary);
        assert(c1[txs.len() - 1] == c2[txs.len() - 1]);
    }
}

/// A copy of a vector of object identifiers.
fn copy_ids(v: &Vec<ObjectId>) -> (r: Vec<ObjectId>)
    ensures
        r@ == v@,
{
    let mut r: Vec<ObjectId> = Vec::new();
    let mut i: usize = 0;
    while i < v.len()
        invariant
            i <= v.len(),
            r@ == v@.take(i as int),
        decreases v.len() - i,
    {
        r.push(v[i]);
        i = i + 1;
        assert(r@ =~= v@.take(i as int));
    }
    assert(v@.take(i as int) =~= v@);
    r
}

/// A copy of a vector of Move calls.
fn copy_move_calls(v: &Vec<MoveCall>) -> (r: Vec<MoveCall>)
    ensures
        r@ == v@,
{
    let mut r: Vec<MoveCall> = Vec::new();
    let mut i: usize = 0;
    while i < v.len()
        invariant
            i <= v.len(),
            r@ == v@.take(i as int),
        decreases v.len() - i,
    {
        r.push(v[i].duplicate());
        i = i + 1;
        assert(r@ =~= v@.take(i as int));
    }
    assert(v@.take(i as int) =~= v@);
    r
}

/// The identifiers of the objects that `changes` wrote.
fn changed_object_ids(changes: &Vec<ChangedObjectRef>) -> (r: Vec<ObjectId>)
    ensures
        r@ == changed_ids(changes@),
{
    let mut r: Vec<ObjectId> = Vec::new();
    let mut i: usize = 0;
    while i < changes.len()
        invariant
            i <= changes.len(),
            r@ == changed_ids(changes@).take(i as int),
        decreases changes.len() - i,
    {
        r.push(changes[i].object_ref.object_id);
        i = i + 1;
        assert(r@ =~= changed_ids(changes@).take(i as int));
    }
    assert(changed_ids(changes@).take(i as int) =~= changed_ids(changes@));
    r
}

/// The lookup entry of transaction `tx`, found at `entry` of checkpoint `summary`.
fn tx_index_of(tx: &CheckpointTransaction, entry: ExecutionEntry, summary: &CheckpointSummary) -> (r:
    TxIndex)
    ensures
        is_tx_index(r, *tx, entry, *summary),
{
    let data = &tx.transaction.data;
    let mut senders: Vec<SuiAddress> = Vec::new();
    senders.push(data.sender);
    let mut payers: Vec<SuiAddress> = Vec::new();
    payers.push(data.gas_owner);
    proof {
        assert(senders@ =~= seq![data.sender]);
        assert(payers@ =~= seq![data.gas_owner]);
    }
    TxIndex {
        tx_sequence_number: entry.sequence_number,
        transaction_digest: entry.transaction,
        checkpoint_sequence_number: summary.sequence_number,
        input_objects: copy_ids(&data.input_objects),
        changed_objects: changed_object_ids(&tx.effects.changed_objects),
        senders,
        payers,
        recipients: recipients_of(&tx.effects.changed_objects),
        move_calls: copy_move_calls(&data.move_calls),
    }
}

/// Indexes the transactions of a checkpoint.
///
/// Fails when the checkpoint's contents and its transactions differ in
/// number, or else at the first position where they name different
/// transactions or the change processor failed, with the processor's error. Otherwise gives,
/// for each transaction in order, its record and its lookup entry; the
/// records of all events, transaction after transaction, each event with its
/// position among its transaction's events; and the latest display of each
/// object type that the events publish.
pub fn index_transactions(
    transactions: Vec<CheckpointTransaction>,
    checkpoint_summary: &CheckpointSummary,
    checkpoint_contents: &Vec<ExecutionEntry>,
) -> (r: Result<
    (Vec<IndexedTransaction>, Vec<IndexedEvent>, Vec<TxIndex>, Vec<StoredDisplay>),
    IndexerError,
>)
    ensures
        match r {
            Ok((records, events, indices, displays)) => transactions_error(
                transactions@,
                checkpoint_contents@,
                *checkpoint_summary,
            ) is None && transactions_indexed(
                transactions@,
                checkpoint_contents@,
                *checkpoint_summary,
                records@,
                event_views(events@),
                indices@,
                displays@,
            ),
            Err(e) => transactions_error(transactions@, checkpoint_contents@, *checkpoint_summary)
                == Some(e),
        },
{
    let checkpoint_seq = checkpoint_summary.sequence_number;
    if checkpoint_contents.len() != transactions.len() {
        return Err(
            IndexerError::ContentsSizeMismatch {
                checkpoint_sequence_number: checkpoint_seq,
                contents_size: checkpoint_contents.len(),
                transactions_len: transactions.len(),
            },
        );
    }
    let ghost txs = transactions@;
    let ghost contents = checkpoint_contents@;
    let ghost summary = *checkpoint_summary;
    let mut records: Vec<IndexedTransaction> = Vec::new();
    let mut events: Vec<IndexedEvent> = Vec::new();
    let mut indices: Vec<TxIndex> = Vec::new();
    let mut displays: Vec<StoredDisplay> = Vec::new();
    let mut i: usize = 0;
    proof {
        assert(txs.take(0) =~= Seq::<CheckpointTransaction>::empty());
        assert(event_views(events@) =~= Seq::<IndexedEventView>::empty());
        assert(displays_spec(txs.take(0)) == Map::<Seq<char>, StoredDisplayView>::empty());
    }
    for tx in it: transactions
        invariant
            it.seq() == txs,
            i == it.index(),
            i <= txs.len(),
            txs.len() <= usize::MAX,
            contents == checkpoint_contents@,
            contents.len() == txs.len(),
            summary == *checkpoint_summary,
            checkpoint_seq == summary.sequence_number,
            order_error(txs, contents, checkpoint_seq, i as int) is None,
            records.len() == i,
            indices.len() == i,
            forall|k: int|
                0 <= k < i ==> is_indexed_transaction(#[trigger] records@[k], txs[k], contents[k], summary),
            forall|k: int| 0 <= k < i ==> is_tx_index(#[trigger] indices@[k], txs[k], contents[k], summary),
            event_views(events@) == events_spec(txs.take(i as int), contents, summary),
            represents_displays(displays@, displays_spec(txs.take(i as int))),
    {
        let ghost this = tx;
        proof {
            assert(this == txs[i as int]);
            assert(i < txs.len());
            assert(txs.take(i + 1).drop_last() =~= txs.take(i as int));
            assert(txs.take(i + 1).last() == this);
            assert(txs.take(i + 1).len() == i + 1);
        }
        let entry = checkpoint_contents[i];
        if entry.transaction != tx.transaction.digest {
            proof {
                assert(position_error(txs, contents, checkpoint_seq, i as int) is Some);
                lemma_first_error(txs, contents, checkpoint_seq, i as int, txs.len() as int);
            }
            return Err(
                IndexerError::TransactionOrderMismatch {
                    checkpoint_sequence_number: checkpoint_seq,
                    expected: entry.transaction,
                    found: tx.transaction.digest,
                },
            );
        }
        let index = tx_index_of(&tx, entry, checkpoint_summary);
        let CheckpointTransaction {
            transaction,
            effects,
            events: tx_events,
            input_objects: _,
            output_objects: _,
            changes,
        } = tx;
        let tx_events = match tx_events {
            Some(v) => v,
            None => Vec::new(),
        };
        proof {
            assert(tx_events@ == events_of(this));
        }
        // The events, each with its position among the transaction's events,
        // and the displays they publish.
        let ghost before = event_views(events@);
        let ghost evs = indexed_events_of(this, entry, summary);
        let ghost shown = displays_spec(txs.take(i as int));
        let mut j: usize = 0;
        proof {
            assert(tx_events@.take(0) =~= Seq::<Event>::empty());
        }
        while j < tx_events.len()
            invariant
                j <= tx_events.len(),
                tx_events@ == events_of(this),
                evs == indexed_events_of(this, entry, summary),
                summary == *checkpoint_summary,
                event_views(events@) == before + evs.take(j as int),
                represents_displays(displays@, add_displays(shown, tx_events@.take(j as int))),
            decreases tx_events.len() - j,
        {
            let ghost mid = event_views(events@);
            let ghost shown_j = add_displays(shown, tx_events@.take(j as int));
            events.push(
                IndexedEvent {
                    tx_sequence_number: entry.sequence_number,
                    event_sequence_number: j as u64,
                    checkpoint_sequence_number: checkpoint_summary.sequence_number,
                    transaction_digest: entry.transaction,
                    timestamp_ms: checkpoint_summary.timestamp_ms,
                    event: tx_events[j].duplicate(),
                },
            );
            proof {
                assert(evs.take(j + 1) =~= evs.take(j as int).push(evs[j as int]));
                assert(event_views(events@) =~= mid.push(evs[j as int]));
                assert(tx_events@.take(j + 1).drop_last() =~= tx_events@.take(j as int));
                assert(tx_events@.take(j + 1).last() == tx_events@[j as int]);
            }
            match &tx_events[j].display {
                Some(d) => {
                    add_display(&mut displays, d.duplicate(), Ghost(shown_j));
                },
                None => {},
            }
            j = j + 1;
        }
        proof {
            assert(evs.take(j as int) =~= evs);
            assert(tx_events@.take(j as int) =~= tx_events@);
        }
        let changes = match changes {
            Ok(c) => c,
            Err(e) => {
                proof {
                    assert(position_error(txs, contents, checkpoint_seq, i as int) is Some);
                    lemma_first_error(txs, contents, checkpoint_seq, i as int, txs.len() as int);
                }
                return Err(e);
            },
        };
        let transaction_kind = if transaction.data.is_system_tx {
            TransactionKind::SystemTransaction
        } else {
            TransactionKind::ProgrammableTransaction
        };
        let successful_tx_num = if effects.status_ok {
            transaction.data.tx_count
        } else {
            0
        };
        let TransactionChanges { balance_changes, object_changes } = changes;
        records.push(
            IndexedTransaction {
                tx_sequence_number: entry.sequence_number,
                tx_digest: entry.transaction,
                checkpoint_sequence_number: checkpoint_seq,
                timestamp_ms: checkpoint_summary.timestamp_ms,
                sender_signed_data: transaction,
                effects,
                events: tx_events,
                object_changes,
                balance_change: balance_changes,
                transaction_kind,
                successful_tx_num,
            },
        );
        indices.push(index);
        proof {
            assert(position_error(txs, contents, checkpoint_seq, i as int) is None);
        }
        i = i + 1;
    }
    proof {
        assert(txs.take(i as int) =~= txs);
    }
    Ok((records, events, indices, displays))
}

/// Why the transactions of a checkpoint cannot be indexed, if they cannot:
/// the error that [`index_transactions`] gives for them.
pub fn transactions_error_of(
    transactions: &Vec<CheckpointTransaction>,
    checkpoint_summary: &CheckpointSummary,
    checkpoint_contents: &Vec<ExecutionEntry>,
) -> (r: Option<IndexerError>)
    ensures
        r == transactions_error(transactions@, checkpoint_contents@, *checkpoint_summary),
{
    let checkpoint_seq = checkpoint_summary.sequence_number;
    if checkpoint_contents.len() != transactions.len() {
        return Some(
            IndexerError::ContentsSizeMismatch {
                checkpoint_sequence_number: checkpoint_seq,
                contents_size: checkpoint_contents.len(),
                transactions_len: transactions.len(),
            },
        );
    }
    let ghost txs = transactions@;
    let ghost contents = checkpoint_contents@;
    let mut i: usize = 0;
    while i < transactions.len()
        invariant
            i <= transactions.len(),
            txs == transactions@,
            contents == checkpoint_contents@,
            contents.len() == txs.len(),
            checkpoint_seq == checkpoint_summary.sequence_number,
            order_error(txs, contents, checkpoint_seq, i as int) is None,
        decreases transactions.len() - i,
    {
        let entry = checkpoint_contents[i];
        let tx = &transactions[i];
        if entry.transaction != tx.transaction.digest {
            proof {
                lemma_first_error(txs, contents, checkpoint_seq, i as int, txs.len() as int);
            }
            return Some(
                IndexerError::TransactionOrderMismatch {
                    checkpoint_sequence_number: checkpoint_seq,
                    expected: entry.transaction,
                    found: tx.transaction.digest,
                },
            );
        }
        if let Err(e) = &tx.changes {
            proof {
                lemma_first_error(txs, contents, checkpoint_seq, i as int, txs.len() as int);
            }
            return Some(e.duplicate());
        }
        i = i + 1;
    }
    None
}

/// When no position before `i` fails and position `i` does, the error is the
/// one at `i`.
proof fn lemma_first_error(
    txs: Seq<CheckpointTransaction>,
    contents: Seq<ExecutionEntry>,
    checkpoint: u64,
    i: int,
    n: int,
)
    requires
        0 <= i < n,
        order_error(txs, contents, checkpoint, i) is None,
        position_error(txs, contents, checkpoint, i) is Some,
    ensures
        order_error(txs, contents, checkpoint, n) == position_error(txs, contents, checkpoint, i),
    decreases n - i,
{
    if n > i + 1 {
        lemma_first_error(txs, contents, checkpoint, i, n - 1);
    }
}

} // verus!
