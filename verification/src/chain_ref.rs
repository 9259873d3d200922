//! A chain behind a cache of the blocks that were asked for last.
use crate::block::{share, Block};
use crate::chain::engine::Chain;
use crate::chain::error::ChainErr;
use crate::chain::state::ChainState;
use crate::hash::H256;
use std::sync::Arc;
use vstd::prelude::*;

verus! {

/// The number of blocks that the cache holds.
pub const BLOCK_CACHE_SIZE: usize = 20;

#[verifier::external_type_specification]
#[verifier::external_body]
#[verifier::reject_recursive_types(K)]
#[verifier::reject_recursive_types(V)]
#[verifier::reject_recursive_types(S)]
pub struct ExLruCache<K, V, S>(lru::LruCache<K, V, S>);

#[verifier::external_type_specification]
#[verifier::external_body]
pub struct ExDefaultHasher(lru::DefaultHasher);

/// The entries of an `LruCache` from the 32 bytes of a hash to a place,
/// each key read as a hash.
pub uninterp spec fn cache_slots(cache: lru::LruCache<[u8; 32], usize>) -> Map<H256, usize>;

/// The number of entries that an `LruCache` was made to hold at most.
pub uninterp spec fn cache_limit(cache: lru::LruCache<[u8; 32], usize>) -> nat;

/// The cache without entries.
pub open spec fn no_slots() -> Map<H256, usize> {
    Map::empty()
}

/// `LruCache::new`: a cache without entries that holds at most `capacity`
/// of them. The call fails on a capacity of 0.
#[verifier::external_body]
fn cache_new(capacity: usize) -> (cache: lru::LruCache<[u8; 32], usize>)
    requires
        capacity > 0,
    ensures
        cache_slots(cache) == no_slots(),
        cache_limit(cache) == capacity,
{
    lru::LruCache::new(std::num::NonZeroUsize::new(capacity).unwrap())
}

/// `LruCache::get`: the place stored under `key`, if there is one. The
/// entry becomes the one used last; the entries and the limit stay as
/// they are.
#[verifier::external_body]
fn cache_get(cache: &mut lru::LruCache<[u8; 32], usize>, key: &H256) -> (slot: Option<usize>)
    ensures
        slot == cache_slots(*old(cache)).get(*key),
        cache_slots(*final(cache)) == cache_slots(*old(cache)),
        cache_limit(*final(cache)) == cache_limit(*old(cache)),
{
    cache.get(&key.0).copied()
}

/// `LruCache::push`: afterwards `key` maps to `slot`. Where `key` had an
/// entry, that entry is handed back. Where it had none and the cache was
/// full, the entry used longest ago leaves and is handed back. Nothing is
/// handed back only where `key` had no entry and the cache held fewer
/// entries than its limit. No other entry changes, and the limit stays as
/// it is.
#[verifier::external_body]
fn cache_push(cache: &mut lru::LruCache<[u8; 32], usize>, key: &H256, slot: usize) -> (previous:
    Option<(H256, usize)>)
    ensures
        match previous {
            Some((gone, place)) => {
                &&& cache_slots(*old(cache)).contains_key(gone)
                &&& cache_slots(*old(cache))[gone] == place
                &&& cache_slots(*final(cache)) == cache_slots(*old(cache)).remove(gone).insert(
                    *key,
                    slot,
                )
            },
            None => {
                &&& !cache_slots(*old(cache)).contains_key(*key)
                &&& cache_slots(*old(cache)).dom().finite()
                &&& cache_slots(*old(cache)).len() < cache_limit(*old(cache))
                &&& cache_slots(*final(cache)) == cache_slots(*old(cache)).insert(*key, slot)
            },
        },
        cache_slots(*old(cache)).contains_key(*key) ==> previous == Some(
            (*key, cache_slots(*old(cache))[*key]),
        ),
        cache_limit(*final(cache)) == cache_limit(*old(cache)),
{
    cache.push(key.0, slot).map(|(gone, place)| (H256(gone), place))
}

/// A chain with a cache of blocks in front of its store.
#[verifier::reject_recursive_types(B)]
pub struct ChainRef<B: Block> {
    /// The chain.
    pub chain: Chain<B>,
    /// The place of each cached block, by hash.
    block_cache: lru::LruCache<[u8; 32], usize>,
    /// The cached blocks, each at its place.
    cached_blocks: Vec<Arc<B>>,
}

/// What a query for `hash` answers, given what a cache held for it: the
/// cached block where it has the hash `hash`, else the canonical block with
/// that hash.
pub open spec fn answer<B: Block>(cached: Option<Arc<B>>, chain: &Chain<B>, hash: H256) -> Option<
    Arc<B>,
> {
    match cached {
        Some(block) => if block.spec_hash() == hash {
            Some(block)
        } else {
            chain@.stored(hash)
        },
        None => chain@.stored(hash),
    }
}

/// Whether the answer to a query for `hash` goes into the cache: the cache
/// did not give it, and the chain did.
pub open spec fn publishes<B: Block>(cached: Option<Arc<B>>, chain: &Chain<B>, hash: H256) -> bool {
    let hit = match cached {
        Some(block) => block.spec_hash() == hash,
        None => false,
    };
    !hit && chain@.stored(hash).is_some()
}

/// Answers a query for `hash`, given what a cache held for it. The second
/// part of the result says whether the answer goes into the cache.
pub fn resolve<B: Block>(cached: Option<Arc<B>>, chain: &Chain<B>, hash: &H256) -> (found: (
    Option<Arc<B>>,
    bool,
))
    requires
        chain.wf(),
    ensures
        found.0 == answer(cached, chain, *hash),
        found.1 == publishes(cached, chain, *hash),
{
    match cached {
        Some(block) => {
            if block.block_hash() == *hash {
                return (Some(block), false);
            }
        },
        None => {},
    }
    match chain.query(hash) {
        Some(block) => (Some(block), true),
        None => (None, false),
    }
}

impl<B: Block> ChainRef<B> {
    /// The chain is sound, the cache holds at most `BLOCK_CACHE_SIZE`
    /// blocks, and every cached block lies at a place of its own under its
    /// own hash.
    pub closed spec fn wf(&self) -> bool {
        &&& self.chain.wf()
        &&& cache_limit(self.block_cache) == BLOCK_CACHE_SIZE
        &&& cache_slots(self.block_cache).dom().finite()
        &&& cache_slots(self.block_cache).len() == self.cached_blocks@.len()
        &&& self.cached_blocks@.len() <= BLOCK_CACHE_SIZE
        &&& forall|k: H256| #[trigger]
            cache_slots(self.block_cache).contains_key(k) ==> {
                &&& cache_slots(self.block_cache)[k] < self.cached_blocks@.len()
                &&& self.cached_blocks@[cache_slots(self.block_cache)[k] as int].spec_hash() == k
            }
        &&& forall|j: H256, k: H256|
            #![trigger cache_slots(self.block_cache)[j], cache_slots(self.block_cache)[k]]
            cache_slots(self.block_cache).contains_key(j) && cache_slots(
                self.block_cache,
            ).contains_key(k) && j != k ==> cache_slots(self.block_cache)[j] != cache_slots(
                self.block_cache,
            )[k]
    }

    /// The state of the chain of the reference.
    pub closed spec fn state(&self) -> ChainState<B> {
        self.chain@
    }

    /// The cached blocks, by hash.
    pub closed spec fn cached(&self) -> Map<H256, Arc<B>> {
        Map::new(
            |k: H256| cache_slots(self.block_cache).contains_key(k),
            |k: H256| self.cached_blocks@[cache_slots(self.block_cache)[k] as int],
        )
    }

    /// The cache never holds more than `BLOCK_CACHE_SIZE` blocks.
    pub proof fn law_cache_is_bounded(&self)
        requires
            self.wf(),
        ensures
            self.cached().dom().finite(),
            self.cached().len() <= BLOCK_CACHE_SIZE,
    {
        assert(self.cached().dom() =~= cache_slots(self.block_cache).dom());
    }

    /// Puts an empty cache in front of `chain`.
    pub fn new(chain: Chain<B>) -> (reference: ChainRef<B>)
        requires
            chain.wf(),
        ensures
            reference.wf(),
            reference.state() == chain@,
            reference.cached() == Map::<H256, Arc<B>>::empty(),
    {
        let reference = ChainRef {
            chain,
            block_cache: cache_new(BLOCK_CACHE_SIZE),
            cached_blocks: Vec::new(),
        };
        assert(reference.cached() =~= Map::empty());
        reference
    }

    /// Takes a block into the chain, as `Chain::append_block` does. The
    /// cache stays as it is.
    pub fn append_block(&mut self, block: Arc<B>) -> (result: Result<(), ChainErr>)
        requires
            old(self).wf(),
        ensures
            final(self).wf(),
            final(self).cached() == old(self).cached(),
            match result {
                Ok(_) => old(self).state().append_error(block).is_none() && final(self).state()
                    == old(self).state().append_block(block),
                Err(e) => old(self).state().append_error(block) == Some(e) && final(self).state()
                    == old(self).state(),
            },
    {
        self.chain.append_block(block)
    }

    /// Rewinds the chain to the block with the given hash, which is not
    /// the hash of genesis, as `Chain::rewind` does. The cache stays as it
    /// is: it may go on answering for blocks that are canonical no more.
    pub fn rewind(&mut self, block_hash: &H256) -> (result: Result<(), ChainErr>)
        requires
            old(self).wf(),
            *block_hash != B::spec_genesis().spec_hash(),
        ensures
            final(self).wf(),
            final(self).cached() == old(self).cached(),
            match result {
                Ok(_) => old(self).state().can_rewind(*block_hash) && final(self).state()
                    == old(self).state().rewind(*block_hash),
                Err(e) => e == ChainErr::NoSuchBlock && !old(self).state().can_rewind(*block_hash)
                    && final(self).state() == old(self).state(),
            },
    {
        self.chain.rewind(block_hash)
    }

    /// Puts `block` into the cache under `key`, under which the cache
    /// holds nothing. Where the cache is full, the block used longest ago
    /// leaves.
    fn publish(&mut self, key: &H256, block: Arc<B>)
        requires
            old(self).wf(),
            !old(self).cached().contains_key(*key),
            block.spec_hash() == *key,
        ensures
            final(self).wf(),
            final(self).state() == old(self).state(),
            final(self).cached().contains_key(*key),
            final(self).cached()[*key] == block,
            forall|k: H256|
                k != *key && #[trigger] final(self).cached().contains_key(k) ==> old(
                    self,
                ).cached().contains_key(k) && final(self).cached()[k] == old(self).cached()[k],
    {
        let ghost before = cache_slots(self.block_cache);
        let n = self.cached_blocks.len();
        match cache_push(&mut self.block_cache, key, n) {
            None => {
                self.cached_blocks.push(block);
                proof {
                    let after = cache_slots(self.block_cache);
                    assert forall|k: H256| #[trigger] after.contains_key(k) implies after[k]
                        < self.cached_blocks@.len() && self.cached_blocks@[after[k] as int].spec_hash()
                        == k by {
                        if k != *key {
                            assert(before.contains_key(k));
                        }
                    }
                    assert forall|j: H256, k: H256|
                        #![trigger after[j], after[k]]
                        after.contains_key(j) && after.contains_key(k) && j != k implies after[j]
                        != after[k] by {
                        if j != *key {
                            assert(before.contains_key(j));
                        }
                        if k != *key {
                            assert(before.contains_key(k));
                        }
                    }
                }
            },
            Some((gone, freed)) => {
                let ghost mid = cache_slots(self.block_cache);
                let _ = cache_push(&mut self.block_cache, key, freed);
                self.cached_blocks.set(freed, block);
                proof {
                    let after = cache_slots(self.block_cache);
                    assert(after =~= before.remove(gone).insert(*key, freed));
                    assert forall|k: H256| #[trigger] after.contains_key(k) implies after[k]
                        < self.cached_blocks@.len() && self.cached_blocks@[after[k] as int].spec_hash()
                        == k by {
                        if k != *key {
                            assert(before.contains_key(k) && before.contains_key(gone));
                            assert(before[k] != before[gone]);
                        }
                    }
                    assert forall|j: H256, k: H256|
                        #![trigger after[j], after[k]]
                        after.contains_key(j) && after.contains_key(k) && j != k implies after[j]
                        != after[k] by {
                        assert(before.contains_key(gone));
                        if j != *key {
                            assert(before.contains_key(j));
                            assert(before[j] != before[gone]);
                        }
                        if k != *key {
                            assert(before.contains_key(k));
                            assert(before[k] != before[gone]);
                        }
                    }
                }
            },
        }
    }

    /// The block with the given hash: the cached block where the cache
    /// holds one under the hash, else the canonical block with that hash.
    ///
    /// What is found has the hash that was asked for. The chain does not
    /// change. A block that the chain gave goes into the cache; no other
    /// block joins the cache, and none that stays changes.
    pub fn query(&mut self, hash: &H256) -> (block: Option<Arc<B>>)
        requires
            old(self).wf(),
        ensures
            final(self).wf(),
            final(self).state() == old(self).state(),
            block == (if old(self).cached().contains_key(*hash) {
                Some(old(self).cached()[*hash])
            } else {
                old(self).state().stored(*hash)
            }),
            block.is_some() ==> block.unwrap().spec_hash() == *hash,
            block.is_some() ==> final(self).cached().contains_key(*hash) && final(self).cached()[*hash]
                == block.unwrap(),
            forall|k: H256|
                k != *hash && #[trigger] final(self).cached().contains_key(k) ==> old(
                    self,
                ).cached().contains_key(k) && final(self).cached()[k] == old(self).cached()[k],
            block.is_none() || old(self).cached().contains_key(*hash) ==> final(self).cached()
                == old(self).cached(),
    {
        let ghost before = *self;
        match cache_get(&mut self.block_cache, hash) {
            Some(place) => {
                assert(self.cached() =~= before.cached());
                return Some(share(&self.cached_blocks[place]));
            },
            None => {},
        }
        assert(self.cached() =~= before.cached());
        let found = self.chain.query(hash);
        match &found {
            Some(block) => {
                self.publish(hash, share(block));
            },
            None => {},
        }
        found
    }
}

} // verus!
