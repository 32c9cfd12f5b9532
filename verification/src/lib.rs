//! A Raft-replicated key-value node: the decisions of its cluster network,
//! the layout and bookkeeping of its storage, and the codecs they rely on.
use vstd::prelude::*;

pub mod codec;
pub mod network;
pub mod raft;
pub mod rocksstore;
pub mod utils;

verus! {

/// The identity of a node in the cluster.
pub type NodeId = u64;

} // verus!
