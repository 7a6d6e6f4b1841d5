//! The Firehose streamer's state and the settings of its connection to a full node.
use vstd::prelude::*;

verus! {

/// Streams checkpoints of the chain as Firehose blocks.
pub struct FirehoseStreamer {
    /// The height of the next block to stream.
    pub current_block_height: u64,
}

impl FirehoseStreamer {
    /// A streamer that starts at block `starting_block`.
    pub fn new(starting_block: u64) -> (r: Self)
        ensures
            r.current_block_height == starting_block,
    {
        Self { current_block_height: starting_block }
    }
}

/// The settings of the JSON-RPC client that reads from the full node.
pub struct RpcClientSettings {
    /// The largest request body, in bytes: 2 GiB.
    pub max_request_body_size: u32,
    /// How many requests may be in flight at once: no limit.
    pub max_concurrent_requests: usize,
    /// The client SDK type that the client names in its requests' headers.
    pub client_sdk_type: &'static str,
}

/// The settings of the indexer's JSON-RPC client.
pub fn indexer_rpc_client_settings() -> (r: RpcClientSettings)
    ensures
        r.max_request_body_size == 2147483648,
        r.max_concurrent_requests == usize::MAX,
        r.client_sdk_type@ == "indexer"@,
{
    let max_request_body_size: u32 = 2 << 30;
    assert(max_request_body_size == 2147483648) by (bit_vector)
        requires
            max_request_body_size == 2u32 << 30u32,
    ;
    RpcClientSettings {
        max_request_body_size,
        max_concurrent_requests: usize::MAX,
        client_sdk_type: "indexer",
    }
}

} // verus!
