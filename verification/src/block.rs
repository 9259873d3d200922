//! What the engine asks of a block.
use crate::hash::H256;
use std::sync::Arc;
use vstd::prelude::*;

verus! {

/// The capabilities of a block. The engine reads nothing else of it.
///
/// Each executable method is tied to a model function of the same meaning.
/// The model functions have placeholder bodies so that a block type written
/// outside verified code only has to supply the executable methods; a
/// verified block type overrides them. What the engine proves holds for
/// block types whose methods behave as their contracts here say.
pub trait Block: Sized {
    /// The identity of the block.
    open spec fn spec_hash(&self) -> H256 {
        arbitrary()
    }

    /// The identity of the block's parent; only a genesis block has none.
    open spec fn spec_parent_hash(&self) -> Option<H256> {
        arbitrary()
    }

    /// The distance of the block from genesis.
    open spec fn spec_height(&self) -> u64 {
        arbitrary()
    }

    /// The encoding of the block.
    open spec fn spec_bytes(&self) -> Seq<u8> {
        arbitrary()
    }

    /// The block that `bytes` encode, if they encode one.
    open spec fn spec_from_bytes(bytes: Seq<u8>) -> Option<Arc<Self>> {
        arbitrary()
    }

    /// The fixed first block.
    open spec fn spec_genesis() -> Arc<Self> {
        arbitrary()
    }

    /// The identity of the block.
    fn block_hash(&self) -> (hash: H256)
        ensures
            hash == self.spec_hash(),
    ;

    /// The identity of the parent of the block.
    fn parent_hash(&self) -> (parent: Option<H256>)
        ensures
            parent == self.spec_parent_hash(),
    ;

    /// The distance of the block from genesis.
    fn height(&self) -> (height: u64)
        ensures
            height == self.spec_height(),
    ;

    /// Encodes the block. The encoding can be decoded again.
    fn to_bytes(&self) -> (bytes: Vec<u8>)
        ensures
            bytes@ == self.spec_bytes(),
            Self::spec_from_bytes(bytes@).is_some(),
            Self::spec_from_bytes(bytes@).unwrap() == *self,
    ;

    /// Decodes a block; fails where the bytes encode none.
    fn from_bytes(bytes: &[u8]) -> (decoded: Result<Arc<Self>, &'static str>)
        ensures
            match decoded {
                Ok(block) => Self::spec_from_bytes(bytes@) == Some(block),
                Err(_) => Self::spec_from_bytes(bytes@).is_none(),
            },
    ;

    /// The fixed first block.
    fn genesis() -> (first: Arc<Self>)
        ensures
            first == Self::spec_genesis(),
    ;

    /// Called with each block once it has been written to the canonical
    /// chain. The engine holds its state while this runs.
    fn after_write(block: Arc<Self>);
}

/// A second handle on the same block.
///
/// Calls `Arc::clone`, which hands back a pointer to the same allocation:
/// the two handles show the same value.
#[verifier::external_body]
pub(crate) fn share<B: Block>(block: &Arc<B>) -> (other: Arc<B>)
    ensures
        other == *block,
{
    block.clone()
}

} // verus!
