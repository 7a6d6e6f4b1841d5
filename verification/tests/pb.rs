use sf_indexer::pb::checkpoint_commitment;
use sf_indexer::pb::{
    Checkpoint, CheckpointCommitment, CheckpointData, EcmhLiveObjectSetDigest, EndOfEpochData,
    GasCostSummary, NextEpochCommittee,
};

#[test]
fn checkpoint_message_holds_its_fields() {
    let commitment = CheckpointCommitment {
        checkpoint_commitment: Some(checkpoint_commitment::CheckpointCommitment::EcmhLiveObjectSetDigest(
            EcmhLiveObjectSetDigest { digest: vec![1, 2] },
        )),
    };
    let checkpoint = Checkpoint {
        epoch: 3,
        sequence_number: 4,
        digest: vec![5],
        network_total_transactions: 6,
        previous_digest: None,
        epoch_rolling_gas_cost_summary: Some(GasCostSummary {
            computation_cost: 1,
            storage_cost: 2,
            storage_rebate: 3,
            non_refundable_storage_fee: 4,
        }),
        timestamp_ms: 7,
        end_of_epoch_data: Some(EndOfEpochData {
            next_epoch_committee: vec![NextEpochCommittee { authority_name: vec![8], stake_unit: 9 }],
            next_epoch_protocol_version: 10,
            epoch_commitments: vec![commitment.clone()],
        }),
        transactions: vec![vec![11]],
        checkpoint_commitments: vec![commitment],
        validator_signature: vec![12],
    };
    let data = CheckpointData { checkpoint: Some(checkpoint.clone()), transactions: vec![], changed_objects: vec![] };
    assert_eq!(data.checkpoint, Some(checkpoint));
    assert_eq!(data.checkpoint.unwrap().end_of_epoch_data.unwrap().next_epoch_protocol_version, 10);
}
