//! Indexing of Sui checkpoints and the state of a Firehose streamer, with
//! their contracts proved by Verus.
use vstd::prelude::*;

pub mod checkpoint_handler;
pub mod download;
pub mod indexed;
pub mod objects;
pub mod pb;
pub mod runtime;
pub mod sui_model;
pub mod transactions;
