//! Hash tables from a key to a position, kept by `hashbrown`.
//!
//! Nothing in this file is proved: each function states what the
//! `hashbrown` method that it calls does to the table. Each table lies in
//! a struct of its own, because the type of a `hashbrown` table cannot be
//! written out with its allocator bound outside `hashbrown`.
use crate::hash::H256;
use vstd::prelude::*;

verus! {

/// A `hashbrown::HashMap` from the 32 bytes of a hash to a position.
#[verifier::external_body]
pub struct HashIndex {
    table: hashbrown::HashMap<[u8; 32], usize>,
}

/// The entries of a `HashIndex`, each key read as a hash.
pub uninterp spec fn index_entries(index: HashIndex) -> Map<H256, usize>;

/// The table without entries.
pub open spec fn no_entries() -> Map<H256, usize> {
    Map::empty()
}

/// `HashMap::new`: a table without entries.
#[verifier::external_body]
pub(crate) fn index_new() -> (index: HashIndex)
    ensures
        index_entries(index) == no_entries(),
{
    HashIndex { table: hashbrown::HashMap::new() }
}

/// `HashMap::get`: the position stored under `key`, if there is one.
#[verifier::external_body]
pub(crate) fn index_get(index: &HashIndex, key: &H256) -> (slot: Option<usize>)
    ensures
        slot == index_entries(*index).get(*key),
{
    index.table.get(&key.0).copied()
}

/// `HashMap::insert`: afterwards `key` maps to `slot`, whether or not it
/// was present; no other entry changes.
#[verifier::external_body]
pub(crate) fn index_insert(index: &mut HashIndex, key: &H256, slot: usize)
    ensures
        index_entries(*final(index)) == index_entries(*old(index)).insert(*key, slot),
{
    index.table.insert(key.0, slot);
}

/// `HashMap::remove`: afterwards `key` has no entry; no other entry
/// changes.
#[verifier::external_body]
pub(crate) fn index_remove(index: &mut HashIndex, key: &H256)
    ensures
        index_entries(*final(index)) == index_entries(*old(index)).remove(*key),
{
    index.table.remove(&key.0);
}

/// A `hashbrown::HashMap` from a height to a position.
#[verifier::external_body]
pub struct LevelIndex {
    table: hashbrown::HashMap<u64, usize>,
}

/// The entries of a `LevelIndex`.
pub uninterp spec fn level_entries(index: LevelIndex) -> Map<u64, usize>;

/// The table without entries.
pub open spec fn no_levels() -> Map<u64, usize> {
    Map::empty()
}

/// `HashMap::new`: a table without entries.
#[verifier::external_body]
pub(crate) fn level_new() -> (index: LevelIndex)
    ensures
        level_entries(index) == no_levels(),
{
    LevelIndex { table: hashbrown::HashMap::new() }
}

/// `HashMap::get`: the position stored under `height`, if there is one.
#[verifier::external_body]
pub(crate) fn level_get(index: &LevelIndex, height: u64) -> (slot: Option<usize>)
    ensures
        slot == level_entries(*index).get(height),
{
    index.table.get(&height).copied()
}

/// `HashMap::insert`: afterwards `height` maps to `slot`, whether or not it
/// was present; no other entry changes.
#[verifier::external_body]
pub(crate) fn level_insert(index: &mut LevelIndex, height: u64, slot: usize)
    ensures
        level_entries(*final(index)) == level_entries(*old(index)).insert(height, slot),
{
    index.table.insert(height, slot);
}

} // verus!
