# sf_indexer

A verified library for indexing Sui checkpoints and streaming them as
Firehose blocks, written in Verus.

- `src/sui_model.rs` — the values of a checkpoint that indexing reads
  (identifiers, object references, objects, effects, transactions, events).
- `src/objects.rs` — the objects a transaction deleted, and the latest
  version of each object among a checkpoint's outputs with the superseded
  versions.
- `src/transactions.rs` — the records, events and lookup entries of a
  checkpoint's transactions, and the errors when they disagree with the
  checkpoint's contents.
- `src/checkpoint_handler.rs` — the objects a checkpoint leaves live, the
  packages it publishes, one checkpoint and a batch of checkpoints indexed,
  and the size of the queue to the committer.
- `src/indexed.rs` — the records that indexing produces.
- `src/download.rs` — chunking a checkpoint's transactions for download and
  putting the answers back together; polling for a checkpoint.
- `src/runtime.rs` — the Firehose streamer and its JSON-RPC client settings.
- `src/pb/` — the `sui.checkpoint.v1` messages.
- `app/` — the I/O around the library: the streamer's loop, the full-node
  client, the protobuf encoding, and the task that indexes batches and sends
  them to the committer.

Every public function in `src/` states its result in its `ensures`; the proof
functions state the properties that hold across them.
