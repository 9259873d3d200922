//! The standing of a block that is known but not canonical.
use vstd::prelude::*;

verus! {

/// How an orphan relates to the canonical chain.
#[derive(Clone, Copy, Debug, PartialEq, Eq, Structural)]
pub enum OrphanType {
    /// The orphan is a leaf of a sub-tree that is not linked to the
    /// canonical chain.
    DisconnectedTip,
    /// The orphan lies inside a sub-tree that is not linked to the
    /// canonical chain.
    BelongsToDisconnected,
    /// The orphan is a leaf of a sub-tree that descends from a canonical
    /// block.
    ValidChainTip,
    /// The orphan lies inside a sub-tree that descends from a canonical
    /// block.
    BelongsToValidChain,
}

} // verus!
