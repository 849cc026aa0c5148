//! Everything the codec can refuse, and with which numbers.

use vstd::prelude::*;

verus! {

/// The reasons an encode or reconstruct call is rejected.
#[derive(Clone, Copy, Debug, PartialEq, Eq, Structural)]
pub enum Error {
    /// Fewer than two shards were wanted.
    WantedShardCountTooLow(usize),
    /// No payload shard was wanted.
    WantedPayloadShardCountTooLow(usize),
    /// More shards were wanted than the field has points.
    WantedShardCountTooHigh(usize),
    /// Nothing to encode, or nothing received to reconstruct from.
    PayloadSizeIsZero,
    /// Every received shard is empty.
    ZeroLengthShards,
    /// A shard length that does not divide into whole symbols.
    UndivisableShardLength { shard_length: usize, field_bytes: usize },
    /// Two received shards disagree about the shard length.
    InconsistentShardLengths { first: usize, other: usize },
    /// Fewer shards survive than reconstruction needs.
    NeedMoreShards { have: usize, min: usize, all: usize },
}

} // verus!
