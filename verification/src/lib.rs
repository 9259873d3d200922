//! A fork-aware block tree for a proof-of-work chain.
//!
//! Blocks arrive in any order. The engine keeps the canonical chain in a
//! store, keeps every other known block in an orphan pool with its indexes,
//! and moves the canonical chain to a competing branch once that branch is
//! taller.
//!
//! `chain::engine` holds the chain and its operations, each with a contract
//! over the state that `chain::state` describes; `chain::laws` states what
//! holds of that state after any sequence of calls, proved in the modules
//! beside it. `chain_ref` puts a cache of blocks in front of a chain.
//! `block` is what the engine asks of a block type, `store` the dictionary
//! that the canonical chain lives in. The maps and sets that the engine
//! keeps are `ordered_map`, `tip_sets` and `heights`, over the hash tables
//! of `index`.
pub mod block;
pub mod chain;
pub mod chain_ref;
pub mod codec;
pub mod hash;
pub mod heights;
pub mod index;
pub mod ordered_map;
pub mod orphan_type;
pub mod store;
pub mod tip_sets;

pub use block::Block;
pub use chain::engine::Chain;
pub use chain::error::ChainErr;
pub use chain_ref::ChainRef;
pub use hash::H256;
pub use orphan_type::OrphanType;
pub use store::{Store, StoreKey};
