//! The errors of the engine.
use vstd::prelude::*;

verus! {

/// Why the engine turned a call down.
#[derive(Clone, Copy, Debug, PartialEq, Eq, Structural)]
pub enum ChainErr {
    /// The block already exists in the chain.
    AlreadyInChain,
    /// The parent of the given block is invalid.
    InvalidParent,
    /// The given block does not have a parent hash.
    NoParentHash,
    /// Bad block height.
    BadHeight,
    /// The block with the given hash is not written in the ledger.
    NoSuchBlock,
    /// The orphan pool is full.
    TooManyOrphans,
}

} // verus!
