use sf_indexer::download::{
    checkpoint_poll_step, chunk_digests, concat_chunk_results, PollStep, CHECKPOINT_POLL_INTERVAL_MS,
    MULTI_GET_CHUNK_SIZE,
};
use sf_indexer::runtime::{indexer_rpc_client_settings, FirehoseStreamer};
use sf_indexer::sui_model::TransactionDigest;

fn digests(n: usize) -> Vec<TransactionDigest> {
    (0..n).map(|i| TransactionDigest { high: 0, low: i as u128 }).collect()
}

#[test]
fn digests_are_cut_into_chunks_of_fifty() {
    let d = digests(120);
    let chunks = chunk_digests(&d, MULTI_GET_CHUNK_SIZE);
    let lens: Vec<usize> = chunks.iter().map(|c| c.len()).collect();
    assert_eq!(lens, vec![50, 50, 20]);
    let joined: Vec<TransactionDigest> = chunks.concat();
    assert_eq!(joined, d);
}

#[test]
fn exact_multiple_gives_full_chunks_only() {
    let chunks = chunk_digests(&digests(100), 50);
    assert_eq!(chunks.iter().map(|c| c.len()).collect::<Vec<_>>(), vec![50, 50]);
}

#[test]
fn no_digests_give_no_chunks() {
    assert!(chunk_digests(&digests(0), 50).is_empty());
}

#[test]
fn chunk_answers_are_concatenated_in_order() {
    let answers: Vec<Result<Vec<u32>, String>> = vec![Ok(vec![1, 2]), Ok(vec![]), Ok(vec![3])];
    assert_eq!(concat_chunk_results(answers), Ok(vec![1, 2, 3]));
}

#[test]
fn first_failed_chunk_answer_is_the_error() {
    let answers: Vec<Result<Vec<u32>, String>> =
        vec![Ok(vec![1]), Err("first".to_string()), Err("second".to_string())];
    assert_eq!(concat_chunk_results(answers), Err("first".to_string()));
}

#[test]
fn streamer_starts_at_given_block() {
    assert_eq!(FirehoseStreamer::new(42).current_block_height, 42);
}

#[test]
fn client_settings_allow_two_gibibyte_requests() {
    let s = indexer_rpc_client_settings();
    assert_eq!(s.max_request_body_size, 2 << 30);
    assert_eq!(s.max_request_body_size, 2147483648);
    assert_eq!(s.max_concurrent_requests, usize::MAX);
    assert_eq!(s.client_sdk_type, "indexer");
}

#[test]
fn checkpoint_polling_stops_at_first_answer() {
    assert!(matches!(checkpoint_poll_step::<u32, String>(Ok(5)), PollStep::Done(5)));
    assert!(matches!(checkpoint_poll_step::<u32, String>(Err("not yet".to_string())), PollStep::Retry));
    assert_eq!(CHECKPOINT_POLL_INTERVAL_MS, 100);
}
