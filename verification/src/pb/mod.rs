//! The messages of the `sui.checkpoint.v1` protocol that the Firehose stream
//! carries.
use vstd::prelude::*;

pub mod checkpoint_commitment;

verus! {

/// One checkpoint with its transactions and the objects they changed.
#[derive(Clone, Debug, PartialEq)]
pub struct CheckpointData {
    pub checkpoint: Option<Checkpoint>,
    pub transactions: Vec<Transaction>,
    pub changed_objects: Vec<ChangedObject>,
}

/// A checkpoint.
#[derive(Clone, Debug, PartialEq)]
pub struct Checkpoint {
    /// Checkpoint's epoch ID
    pub epoch: u64,
    /// Checkpoint sequence number
    pub sequence_number: u64,
    /// Checkpoint digest (base58 encoded)
    pub digest: Vec<u8>,
    /// Total number of transactions committed since genesis, including those in this checkpoint.
    pub network_total_transactions: u64,
    /// Digest of the previous checkpoint
    pub previous_digest: Option<Vec<u8>>,
    /// The running total gas costs of all transactions included in the current epoch so far until this checkpoint.
    pub epoch_rolling_gas_cost_summary: Option<GasCostSummary>,
    /// Timestamp of the checkpoint - number of milliseconds from the Unix epoch
    /// Checkpoint timestamps are monotonic, but not strongly monotonic - subsequent
    /// checkpoints can have same timestamp if they originate from the same underlining consensus commit
    pub timestamp_ms: u64,
    /// Present only on the final checkpoint of the epoch.
    pub end_of_epoch_data: Option<EndOfEpochData>,
    /// Transaction digests (base58 encoded)
    pub transactions: Vec<Vec<u8>>,
    /// Commitments to checkpoint state
    pub checkpoint_commitments: Vec<CheckpointCommitment>,
    /// Validator Signature (base64  encoded)
    pub validator_signature: Vec<u8>,
}

/// A transaction of a checkpoint; the message has no fields yet.
#[derive(Clone, Debug, PartialEq)]
pub struct Transaction {}

/// An object that a checkpoint changed; the message has no fields yet.
#[derive(Clone, Debug, PartialEq)]
pub struct ChangedObject {}

/// Gas costs.
#[derive(Clone, Debug, PartialEq)]
pub struct GasCostSummary {
    /// Cost of computation/execution
    pub computation_cost: u64,
    /// Storage cost, it's the sum of all storage cost for all objects created or mutated.
    pub storage_cost: u64,
    /// The amount of storage cost refunded to the user for all objects deleted or mutated in the transaction.
    pub storage_rebate: u64,
    /// The fee for the rebate. The portion of the storage rebate kept by the system.
    pub non_refundable_storage_fee: u64,
}

/// What the last checkpoint of an epoch says of the next epoch.
#[derive(Clone, Debug, PartialEq)]
pub struct EndOfEpochData {
    /// next_epoch_committee is `Some` if and only if the current checkpoint is
    /// the last checkpoint of an epoch.
    /// Therefore next_epoch_committee can be used to pick the last checkpoint of an epoch,
    /// which is often useful to get epoch level summary stats like total gas cost of an epoch,
    /// or the total number of transactions from genesis to the end of an epoch.
    /// The committee is stored as a vector of validator pub key and stake pairs. The vector
    /// should be sorted based on the Committee data structure.
    pub next_epoch_committee: Vec<NextEpochCommittee>,
    /// The protocol version that is in effect during the epoch that starts immediately after this checkpoint.
    pub next_epoch_protocol_version: u64,
    /// Commitments to epoch specific state (e.g. live object set)
    pub epoch_commitments: Vec<CheckpointCommitment>,
}

/// One validator of the next epoch's committee with its stake.
#[derive(Clone, Debug, PartialEq)]
pub struct NextEpochCommittee {
    pub authority_name: Vec<u8>,
    pub stake_unit: u64,
}

/// A commitment to checkpoint state.
#[derive(Clone, Debug, PartialEq)]
pub struct CheckpointCommitment {
    pub checkpoint_commitment: Option<checkpoint_commitment::CheckpointCommitment>,
}

/// The digest of the live object set.
#[derive(Clone, Debug, PartialEq)]
pub struct EcmhLiveObjectSetDigest {
    /// base58 encoded
    pub digest: Vec<u8>,
}

} // verus!
