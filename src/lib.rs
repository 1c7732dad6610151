//! A small proof-of-work ledger: blocks, a fork-tolerant tree of blocks,
//! longest-chain selection and the decisions of a mining loop.
use vstd::prelude::*;

pub mod block;
pub mod simpletree;
pub mod blockchain;
pub mod mining;
pub mod store;

verus! {

} // verus!
