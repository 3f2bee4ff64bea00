//! A small sharded, in-memory key-value store: a consistent-hash ring maps
//! each key to one storage shard, every shard serializes access to its own
//! map through a bounded mailbox, and a router dispatches client requests
//! across the shards and aggregates the results.

pub mod cluster;
pub mod pipe;
pub mod router;
pub mod shard;
pub mod storage;

use vstd::prelude::*;

verus! {

/// True when every key in the sequence of entries appears exactly once.
pub open spec fn keys_unique(entries: Seq<(Seq<char>, Seq<char>)>) -> bool {
    forall|i: int, j: int|
        0 <= i < j < entries.len() ==> entries[i].0 != entries[j].0
}

} // verus!
