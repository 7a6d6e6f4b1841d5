//! The kinds of commitment to checkpoint state.
use vstd::prelude::*;

verus! {

/// A commitment to checkpoint state, by kind.
#[derive(Clone, Debug, PartialEq)]
pub enum CheckpointCommitment {
    EcmhLiveObjectSetDigest(super::EcmhLiveObjectSetDigest),
}

} // verus!
