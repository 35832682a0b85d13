//! Shared identifiers and constants.

use vstd::prelude::*;

verus! {

/// Size of the immutable byte-level vocabulary (`0..=255`).
pub const BASE_VOCAB_SIZE: u32 = 256;

/// Sentinel value for missing links / removed nodes inside compact chain storage.
pub const NONE: u32 = 0xffff_ffff;

/// Public/external token identifier type used throughout the crate.
pub type TokenId = u32;

/// Index into a [`crate::chain::Chain`] node buffer.
pub type NodePos = u32;

/// Stable slot index inside a [`crate::merge_sequence::MergeSequence`].
pub type MergeNodeSlot = u32;

/// Index of a weighted merge sequence inside the training set.
pub type MergeSequenceIndex = u32;

/// Adjacent token pair used as the key for merge rules.
pub type TokenIdPair = (TokenId, TokenId);

} // verus!
