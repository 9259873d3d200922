//! The engine: append, orphan management, merging of sub-trees, switching
//! of the canonical chain, rewind.
pub mod engine;
pub mod error;
pub mod forest;
pub mod frames;
pub mod known;
pub mod laws;
pub mod leaves;
pub mod ledger;
pub mod levels;
pub mod links;
pub mod orphans;
pub mod present;
pub mod state;
pub mod tallest;
