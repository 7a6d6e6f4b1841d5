//! The values of a Sui checkpoint that the indexer reads, held as plain data.
//!
//! Identifiers and digests are 32-byte values, each held as its big-endian
//! high and low halves, so that they compare as integers do.
use crate::indexed::IndexerError;
use vstd::prelude::*;

verus! {

/// The identifier of an object.
#[derive(Clone, Copy, Debug, PartialEq, Eq, Structural)]
pub struct ObjectId {
    pub high: u128,
    pub low: u128,
}

/// The address of an account.
#[derive(Clone, Copy, Debug, PartialEq, Eq, Structural)]
pub struct SuiAddress {
    pub high: u128,
    pub low: u128,
}

/// The digest of a transaction.
#[derive(Clone, Copy, Debug, PartialEq, Eq, Structural)]
pub struct TransactionDigest {
    pub high: u128,
    pub low: u128,
}

/// The digest of an object's contents.
#[derive(Clone, Copy, Debug, PartialEq, Eq, Structural)]
pub struct ObjectDigest {
    pub high: u128,
    pub low: u128,
}

/// A reference to one version of an object.
#[derive(Clone, Copy, Debug, PartialEq, Eq, Structural)]
pub struct ObjectRef {
    pub object_id: ObjectId,
    pub version: u64,
    pub digest: ObjectDigest,
}

/// Who owns an object after a transaction.
#[derive(Clone, Copy, Debug, PartialEq, Eq, Structural)]
pub enum Owner {
    AddressOwner(SuiAddress),
    ObjectOwner(SuiAddress),
    Shared { initial_shared_version: u64 },
    Immutable,
}

/// How a transaction wrote an object.
#[derive(Clone, Copy, Debug, PartialEq, Eq, Structural)]
pub enum WriteKind {
    Mutate,
    Create,
    Unwrap,
}

/// One object that a transaction created, mutated or unwrapped.
#[derive(Clone, Copy, Debug, PartialEq, Eq, Structural)]
pub struct ChangedObjectRef {
    pub object_ref: ObjectRef,
    pub owner: Owner,
    pub write_kind: WriteKind,
}

/// A Move object or package as stored at one version.
///
/// `contents` holds the object's data; for a package it is the package itself.
#[derive(Debug)]
pub struct Object {
    pub id: ObjectId,
    pub version: u64,
    pub is_package: bool,
    pub contents: Vec<u8>,
}

/// The mathematical value of an [`Object`].
pub struct ObjectView {
    pub id: ObjectId,
    pub version: u64,
    pub is_package: bool,
    pub contents: Seq<u8>,
}

impl View for Object {
    type V = ObjectView;

    open spec fn view(&self) -> ObjectView {
        ObjectView {
            id: self.id,
            version: self.version,
            is_package: self.is_package,
            contents: self.contents@,
        }
    }
}

/// Copies a byte vector.
pub fn copy_bytes(bytes: &Vec<u8>) -> (r: Vec<u8>)
    ensures
        r@ == bytes@,
{
    let mut r: Vec<u8> = Vec::new();
    let mut i: usize = 0;
    while i < bytes.len()
        invariant
            i <= bytes.len(),
            r@ == bytes@.subrange(0, i as int),
        decreases bytes.len() - i,
    {
        r.push(bytes[i]);
        i = i + 1;
        assert(r@ =~= bytes@.subrange(0, i as int));
    }
    assert(bytes@.subrange(0, i as int) =~= bytes@);
    r
}

impl Object {
    /// A copy of this object.
    pub fn duplicate(&self) -> (r: Object)
        ensures
            r@ == self@,
    {
        Object {
            id: self.id,
            version: self.version,
            is_package: self.is_package,
            contents: copy_bytes(&self.contents),
        }
    }
}

/// The effects of one executed transaction, as far as indexing reads them.
#[derive(Debug)]
pub struct TransactionEffects {
    /// Whether the transaction succeeded.
    pub status_ok: bool,
    /// Every object the transaction created, mutated or unwrapped, with its new owner.
    pub changed_objects: Vec<ChangedObjectRef>,
    pub deleted: Vec<ObjectRef>,
    pub wrapped: Vec<ObjectRef>,
    pub unwrapped_then_deleted: Vec<ObjectRef>,
}

/// A call of a Move function made by a programmable transaction.
#[derive(Debug)]
pub struct MoveCall {
    pub package: ObjectId,
    pub module: String,
    pub function: String,
}

impl MoveCall {
    /// A copy of this call.
    pub fn duplicate(&self) -> (r: MoveCall)
        ensures
            r == *self,
    {
        MoveCall { package: self.package, module: self.module.clone(), function: self.function.clone() }
    }
}

/// The data of a transaction, as far as indexing reads it.
#[derive(Debug)]
pub struct TransactionData {
    pub sender: SuiAddress,
    pub gas_owner: SuiAddress,
    pub is_system_tx: bool,
    /// The number of transactions that the transaction's kind counts as.
    pub tx_count: u64,
    /// The identifiers of the transaction's input objects.
    pub input_objects: Vec<ObjectId>,
    pub move_calls: Vec<MoveCall>,
}

/// A transaction with its digest and signatures.
#[derive(Debug)]
pub struct SignedTransaction {
    pub digest: TransactionDigest,
    pub data: TransactionData,
    pub signatures: Vec<u8>,
}

/// How objects of one type are displayed, as a display-update event
/// publishes it.
#[derive(Debug)]
pub struct StoredDisplay {
    /// The type of the objects, written out in full.
    pub object_type: String,
    /// The identifier of the display object.
    pub id: Vec<u8>,
    pub version: i16,
    /// The display, as the event carries it.
    pub bcs: Vec<u8>,
}

/// The mathematical value of a [`StoredDisplay`].
pub struct StoredDisplayView {
    pub object_type: String,
    pub id: Seq<u8>,
    pub version: i16,
    pub bcs: Seq<u8>,
}

impl View for StoredDisplay {
    type V = StoredDisplayView;

    open spec fn view(&self) -> StoredDisplayView {
        StoredDisplayView {
            object_type: self.object_type,
            id: self.id@,
            version: self.version,
            bcs: self.bcs@,
        }
    }
}

impl StoredDisplay {
    /// A copy of this display.
    pub fn duplicate(&self) -> (r: StoredDisplay)
        ensures
            r@ == self@,
    {
        StoredDisplay {
            object_type: self.object_type.clone(),
            id: copy_bytes(&self.id),
            version: self.version,
            bcs: copy_bytes(&self.bcs),
        }
    }
}

/// The view of an optional display.
pub open spec fn display_view(d: Option<StoredDisplay>) -> Option<StoredDisplayView> {
    match d {
        Some(d) => Some(d@),
        None => None,
    }
}

/// An event emitted by a transaction.
#[derive(Debug)]
pub struct Event {
    pub package_id: ObjectId,
    pub sender: SuiAddress,
    pub event_type: String,
    pub contents: Vec<u8>,
    /// The display that the event publishes, if it is a display-update event.
    pub display: Option<StoredDisplay>,
}

/// The mathematical value of an [`Event`].
pub struct EventView {
    pub package_id: ObjectId,
    pub sender: SuiAddress,
    pub event_type: String,
    pub contents: Seq<u8>,
    pub display: Option<StoredDisplayView>,
}

impl View for Event {
    type V = EventView;

    open spec fn view(&self) -> EventView {
        EventView {
            package_id: self.package_id,
            sender: self.sender,
            event_type: self.event_type,
            contents: self.contents@,
            display: display_view(self.display),
        }
    }
}

impl Event {
    /// A copy of this event.
    pub fn duplicate(&self) -> (r: Event)
        ensures
            r@ == self@,
    {
        let display = match &self.display {
            Some(d) => Some(d.duplicate()),
            None => None,
        };
        Event {
            package_id: self.package_id,
            sender: self.sender,
            event_type: self.event_type.clone(),
            contents: copy_bytes(&self.contents),
            display,
        }
    }
}

/// How the balance of one coin type changed for one owner.
#[derive(Debug)]
pub struct BalanceChange {
    pub owner: Owner,
    pub coin_type: String,
    pub amount: i128,
}

/// How a transaction changed one object, as reported to clients.
#[derive(Debug)]
pub enum ObjectChange {
    Published { package_id: ObjectId, version: u64, digest: ObjectDigest, modules: Vec<String> },
    Transferred {
        sender: SuiAddress,
        recipient: Owner,
        object_type: String,
        object_id: ObjectId,
        version: u64,
        digest: ObjectDigest,
    },
    Mutated {
        sender: SuiAddress,
        owner: Owner,
        object_type: String,
        object_id: ObjectId,
        version: u64,
        previous_version: u64,
        digest: ObjectDigest,
    },
    Deleted { sender: SuiAddress, object_type: String, object_id: ObjectId, version: u64 },
    Wrapped { sender: SuiAddress, object_type: String, object_id: ObjectId, version: u64 },
    Created {
        sender: SuiAddress,
        owner: Owner,
        object_type: String,
        object_id: ObjectId,
        version: u64,
        digest: ObjectDigest,
    },
}

/// The balance changes and object changes of one transaction.
#[derive(Debug)]
pub struct TransactionChanges {
    pub balance_changes: Vec<BalanceChange>,
    pub object_changes: Vec<ObjectChange>,
}

/// A transaction of a checkpoint together with what it did.
#[derive(Debug)]
pub struct CheckpointTransaction {
    pub transaction: SignedTransaction,
    pub effects: TransactionEffects,
    pub events: Option<Vec<Event>>,
    pub input_objects: Vec<Object>,
    pub output_objects: Vec<Object>,
    /// What the indexer's change processor makes of the transaction from its
    /// input and output objects: its changes, or the error it failed with.
    pub changes: Result<TransactionChanges, IndexerError>,
}

/// The summary of a checkpoint.
#[derive(Clone, Copy, Debug, PartialEq, Eq, Structural)]
pub struct CheckpointSummary {
    pub epoch: u64,
    pub sequence_number: u64,
    pub network_total_transactions: u64,
    pub timestamp_ms: u64,
}

/// One entry of a checkpoint's contents: a transaction's digest with its
/// sequence number in the whole chain.
#[derive(Clone, Copy, Debug, PartialEq, Eq, Structural)]
pub struct ExecutionEntry {
    pub sequence_number: u64,
    pub transaction: TransactionDigest,
}

/// The contents of checkpoint `summary` that lists the transactions
/// `digests`, each with its sequence number in the whole chain: the
/// checkpoint's transactions are the last ones of all the chain's transactions
/// up to and including it.
pub fn enumerate_transactions(summary: &CheckpointSummary, digests: &Vec<TransactionDigest>) -> (r:
    Vec<ExecutionEntry>)
    requires
        digests.len() <= summary.network_total_transactions,
    ensures
        r.len() == digests.len(),
        forall|i: int|
            0 <= i < digests.len() ==> #[trigger] r@[i].sequence_number
                == summary.network_total_transactions - digests.len() + i && r@[i].transaction
                == digests@[i],
{
    let start: u64 = summary.network_total_transactions - digests.len() as u64;
    let mut r: Vec<ExecutionEntry> = Vec::new();
    let mut i: usize = 0;
    while i < digests.len()
        invariant
            i <= digests.len(),
            digests.len() <= summary.network_total_transactions,
            start == summary.network_total_transactions - digests.len(),
            r.len() == i,
            forall|k: int|
                0 <= k < i ==> #[trigger] r@[k].sequence_number
                    == summary.network_total_transactions - digests.len() + k && r@[k].transaction
                    == digests@[k],
        decreases digests.len() - i,
    {
        r.push(ExecutionEntry { sequence_number: start + i as u64, transaction: digests[i] });
        i = i + 1;
    }
    r
}

/// Everything the indexer receives for one checkpoint.
#[derive(Debug)]
pub struct CheckpointData {
    pub checkpoint_summary: CheckpointSummary,
    /// The checkpoint's contents, each transaction with its sequence number.
    pub checkpoint_contents: Vec<ExecutionEntry>,
    pub transactions: Vec<CheckpointTransaction>,
}

} // verus!
