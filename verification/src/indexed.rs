//! The records that indexing a checkpoint produces for the store.
use vstd::prelude::*;

use crate::sui_model::{
    BalanceChange, CheckpointSummary, Event, ObjectChange, StoredDisplay, EventView, ExecutionEntry, MoveCall, Object, ObjectId, ObjectView,
    SignedTransaction, SuiAddress, TransactionDigest, TransactionEffects,
};

verus! {

/// An object that a transaction of the checkpoint deleted, wrapped, or
/// unwrapped and deleted.
#[derive(Clone, Copy, Debug, PartialEq, Eq, Structural)]
pub struct IndexedDeletedObject {
    pub object_id: ObjectId,
    pub object_version: u64,
    pub checkpoint_sequence_number: u64,
    pub tx_digest: TransactionDigest,
}

/// An object that the checkpoint left live, at its latest version.
#[derive(Debug)]
pub struct IndexedObject {
    pub checkpoint_sequence_number: u64,
    pub object: Object,
}

/// The mathematical value of an [`IndexedObject`].
pub struct IndexedObjectView {
    pub checkpoint_sequence_number: u64,
    pub object: ObjectView,
}

impl View for IndexedObject {
    type V = IndexedObjectView;

    open spec fn view(&self) -> IndexedObjectView {
        IndexedObjectView { checkpoint_sequence_number: self.checkpoint_sequence_number, object: self.object@ }
    }
}

/// The objects a checkpoint changed, to be written to the store.
#[derive(Debug)]
pub struct TransactionObjectChangesToCommit {
    pub changed_objects: Vec<IndexedObject>,
    pub deleted_objects: Vec<IndexedDeletedObject>,
}

/// A Move package published or upgraded in a checkpoint.
#[derive(Debug)]
pub struct IndexedPackage {
    pub package_id: ObjectId,
    pub move_package: Vec<u8>,
    pub checkpoint_sequence_number: u64,
}

/// The mathematical value of an [`IndexedPackage`].
pub struct IndexedPackageView {
    pub package_id: ObjectId,
    pub move_package: Seq<u8>,
    pub checkpoint_sequence_number: u64,
}

impl View for IndexedPackage {
    type V = IndexedPackageView;

    open spec fn view(&self) -> IndexedPackageView {
        IndexedPackageView {
            package_id: self.package_id,
            move_package: self.move_package@,
            checkpoint_sequence_number: self.checkpoint_sequence_number,
        }
    }
}

/// An event with the place where it was emitted.
#[derive(Debug)]
pub struct IndexedEvent {
    pub tx_sequence_number: u64,
    /// The event's position among the events of its transaction.
    pub event_sequence_number: u64,
    pub checkpoint_sequence_number: u64,
    pub transaction_digest: TransactionDigest,
    pub timestamp_ms: u64,
    pub event: Event,
}

/// The mathematical value of an [`IndexedEvent`].
pub struct IndexedEventView {
    pub tx_sequence_number: u64,
    pub event_sequence_number: u64,
    pub checkpoint_sequence_number: u64,
    pub transaction_digest: TransactionDigest,
    pub timestamp_ms: u64,
    pub event: EventView,
}

impl View for IndexedEvent {
    type V = IndexedEventView;

    open spec fn view(&self) -> IndexedEventView {
        IndexedEventView {
            tx_sequence_number: self.tx_sequence_number,
            event_sequence_number: self.event_sequence_number,
            checkpoint_sequence_number: self.checkpoint_sequence_number,
            transaction_digest: self.transaction_digest,
            timestamp_ms: self.timestamp_ms,
            event: self.event@,
        }
    }
}

/// Whether a transaction was a system transaction.
#[derive(Clone, Copy, Debug, PartialEq, Eq, Structural)]
pub enum TransactionKind {
    SystemTransaction,
    ProgrammableTransaction,
}

/// A transaction with the place where it was executed and what it did.
#[derive(Debug)]
pub struct IndexedTransaction {
    pub tx_sequence_number: u64,
    pub tx_digest: TransactionDigest,
    pub checkpoint_sequence_number: u64,
    pub timestamp_ms: u64,
    pub sender_signed_data: SignedTransaction,
    pub effects: TransactionEffects,
    pub events: Vec<Event>,
    pub object_changes: Vec<ObjectChange>,
    pub balance_change: Vec<BalanceChange>,
    pub transaction_kind: TransactionKind,
    /// How many transactions it counts as if it succeeded, else 0.
    pub successful_tx_num: u64,
}

/// The lookup entries of one transaction.
#[derive(Debug)]
pub struct TxIndex {
    pub tx_sequence_number: u64,
    pub transaction_digest: TransactionDigest,
    pub checkpoint_sequence_number: u64,
    pub input_objects: Vec<ObjectId>,
    pub changed_objects: Vec<ObjectId>,
    pub senders: Vec<SuiAddress>,
    pub payers: Vec<SuiAddress>,
    pub recipients: Vec<SuiAddress>,
    pub move_calls: Vec<MoveCall>,
}

/// A checkpoint with how many transactions it holds that succeeded.
#[derive(Debug)]
pub struct IndexedCheckpoint {
    pub summary: CheckpointSummary,
    pub contents: Vec<ExecutionEntry>,
    pub successful_tx_num: u64,
}

/// Everything one checkpoint adds to the store.
#[derive(Debug)]
pub struct CheckpointDataToCommit {
    pub checkpoint: IndexedCheckpoint,
    pub transactions: Vec<IndexedTransaction>,
    pub events: Vec<IndexedEvent>,
    pub tx_indices: Vec<TxIndex>,
    /// The latest display of each object type, each type once.
    pub display_updates: Vec<StoredDisplay>,
    pub object_changes: TransactionObjectChangesToCommit,
    pub object_history_changes: TransactionObjectChangesToCommit,
    pub packages: Vec<IndexedPackage>,
}

/// Why a checkpoint read from the full node could not be indexed.
#[derive(Clone, Debug, PartialEq, Eq)]
pub enum IndexerError {
    /// The checkpoint's contents and its transactions differ in number.
    ContentsSizeMismatch { checkpoint_sequence_number: u64, contents_size: usize, transactions_len: usize },
    /// At some position the checkpoint's contents and its transactions name
    /// different transactions.
    TransactionOrderMismatch {
        checkpoint_sequence_number: u64,
        expected: TransactionDigest,
        found: TransactionDigest,
    },
    /// The change processor failed on a transaction, with this message.
    ChangeProcessor { message: String },
}

/// Why a batch of checkpoints could not be indexed.
#[derive(Clone, Debug, PartialEq, Eq)]
pub enum BatchError {
    /// Indexing the checkpoint with this sequence number stopped without a
    /// result: a change that it leaves live does not name its object's latest
    /// output, or the count of its succeeded transactions overflows.
    IndexingAborted { checkpoint_sequence_number: u64 },
    /// A checkpoint could not be indexed, with this error.
    Indexer(IndexerError),
}

impl IndexerError {
    /// A copy of this error.
    pub fn duplicate(&self) -> (r: IndexerError)
        ensures
            r == *self,
    {
        match self {
            IndexerError::ContentsSizeMismatch {
                checkpoint_sequence_number,
                contents_size,
                transactions_len,
            } => IndexerError::ContentsSizeMismatch {
                checkpoint_sequence_number: *checkpoint_sequence_number,
                contents_size: *contents_size,
                transactions_len: *transactions_len,
            },
            IndexerError::TransactionOrderMismatch { checkpoint_sequence_number, expected, found } =>
                IndexerError::TransactionOrderMismatch {
                checkpoint_sequence_number: *checkpoint_sequence_number,
                expected: *expected,
                found: *found,
            },
            IndexerError::ChangeProcessor { message } => IndexerError::ChangeProcessor {
                message: message.clone(),
            },
        }
    }
}

} // verus!
