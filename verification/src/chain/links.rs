//! The heights of orphans and their parents: what holds of them after
//! every call, as long as the blocks that come in agree with each other.
use crate::block::Block;
use crate::chain::forest::reaches;
use crate::chain::ledger::block_type_sound;
use crate::chain::state::ChainState;
use crate::hash::H256;
use crate::ordered_map::Entries;
use crate::orphan_type::OrphanType;
use crate::store::StoreKey;
use std::sync::Arc;
use vstd::prelude::*;

verus! {

/// The height of `block` is one more than that of its parent, where the
/// parent is an orphan of `pool` or a block of `store`.
pub open spec fn link_fits<B: Block>(
    pool: Entries<Arc<B>>,
    store: Map<StoreKey, Seq<u8>>,
    block: Arc<B>,
) -> bool {
    match block.spec_parent_hash() {
        Some(parent) => {
            &&& pool.contains(parent) ==> block.spec_height() == pool.map[parent].spec_height() + 1
            &&& ChainState::<B>::stored_in(store, parent).is_some() ==> block.spec_height()
                == ChainState::<B>::stored_in(store, parent).unwrap().spec_height() + 1
        },
        None => true,
    }
}

/// Every orphan is one higher than its parent, where the parent is known.
pub open spec fn links<B: Block>(pool: Entries<Arc<B>>, store: Map<StoreKey, Seq<u8>>) -> bool {
    forall|x: H256| #[trigger] pool.contains(x) ==> link_fits(pool, store, pool.map[x])
}

/// A walk through the pool goes down by one height at each step.
pub proof fn lemma_reaches_height<B: Block>(
    pool: Entries<Arc<B>>,
    store: Map<StoreKey, Seq<u8>>,
    from: H256,
    to: H256,
    steps: nat,
)
    requires
        links(pool, store),
        reaches(pool, from, to, steps),
    ensures
        pool.contains(from),
        pool.contains(to),
        pool.map[from].spec_height() >= pool.map[to].spec_height(),
        from != to ==> pool.map[from].spec_height() > pool.map[to].spec_height(),
    decreases steps,
{
    if from != to {
        let parent = pool.map[from].spec_parent_hash().unwrap();
        assert(reaches(pool, parent, to, (steps - 1) as nat));
        lemma_reaches_height(pool, store, parent, to, (steps - 1) as nat);
        assert(link_fits(pool, store, pool.map[from]));
    }
}

impl<B: Block> ChainState<B> {
    /// What holds of the heights of the orphans of the state.
    pub open spec fn links_ok(self) -> bool {
        links(self.pool, self.store)
    }

    /// Whether `block` agrees with what is known: it is not its own
    /// parent, it is one higher than its parent, where the parent is
    /// known, and every orphan that names it as its parent is one higher
    /// than it.
    pub open spec fn fits(self, block: Arc<B>) -> bool {
        &&& block.spec_parent_hash() != Some(block.spec_hash())
        &&& link_fits(self.pool, self.store, block)
        &&& forall|x: H256|
            #[trigger] self.pool.contains(x) && self.pool.map[x].spec_parent_hash() == Some(
                block.spec_hash(),
            ) ==> self.pool.map[x].spec_height() == block.spec_height() + 1
    }

    /// A step that leaves the pool and the store as they are keeps the heights
    /// sound.
    pub proof fn lemma_base_keeps_links(self, other: Self)
        requires
            self.links_ok(),
            self.same_base(other),
        ensures
            other.links_ok(),
    {
    }

    /// Putting a block that fits into the pool keeps the heights sound.
    pub proof fn lemma_insert_links(self, block: Arc<B>, pool: Entries<Arc<B>>)
        requires
            self.links_ok(),
            self.fits(block),
            pool == self.pool.insert(block.spec_hash(), block),
        ensures
            links(pool, self.store),
    {
        let hash = block.spec_hash();
        assert forall|x: H256| #[trigger] pool.contains(x) implies link_fits(
            pool,
            self.store,
            pool.map[x],
        ) by {
            if x == hash {
                assert(pool.map[x] == block);
            } else {
                assert(self.pool.contains(x));
                assert(pool.map[x] == self.pool.map[x]);
                assert(link_fits(self.pool, self.store, self.pool.map[x]));
                match self.pool.map[x].spec_parent_hash() {
                    Some(parent) => {
                        if parent == hash {
                            assert(self.pool.map[x].spec_height() == block.spec_height() + 1);
                        }
                    },
                    None => {},
                }
            }
        }
    }

    /// Rewinding keeps the heights sound.
    pub proof fn lemma_unwind_links(self, path: Seq<Arc<B>>, from: int)
        requires
            block_type_sound::<B>(),
            self.links_ok(),
            0 <= from <= path.len() <= u64::MAX,
            forall|h: H256| #[trigger] self.pool.contains(h) ==> self.pool.map[h].spec_hash() == h,
            forall|i: int|
                from <= i < path.len() ==> (#[trigger] path[i]).spec_parent_hash().is_some(),
            forall|i: int|
                from <= i < path.len() ==> self.stored((#[trigger] path[i]).spec_hash()) == Some(
                    path[i],
                ),
            forall|i: int|
                from <= i < path.len() ==> !self.pool.contains((#[trigger] path[i]).spec_hash()),
            forall|i: int, j: int|
                from <= i < j < path.len() ==> (#[trigger] path[i]).spec_height() > (
                #[trigger] path[j]).spec_height(),
            forall|i: int|
                from <= i < path.len() ==> link_fits(
                    Entries::<Arc<B>>::empty(),
                    self.store,
                    #[trigger] path[i],
                ),
            forall|i: int|
                from <= i < path.len() ==> (self.pool.contains(
                    (#[trigger] path[i]).spec_parent_hash().unwrap(),
                ) ==> path[i].spec_height()
                    == self.pool.map[path[i].spec_parent_hash().unwrap()].spec_height()
                    + 1),
        ensures
            self.unwind(path, from).links_ok(),
        decreases path.len() - from,
    {
        if from < path.len() {
            let block = path[from];
            let hash = block.spec_hash();
            let next = self.unwind_block(block, from as u64);
            assert forall|h: H256| h != hash implies next.stored(h) == self.stored(h) by {}
            assert(next.stored(hash).is_none());
            assert forall|x: H256| #[trigger] next.pool.contains(x) implies link_fits(
                next.pool,
                next.store,
                next.pool.map[x],
            ) by {
                if x == hash {
                    let parent = block.spec_parent_hash().unwrap();
                    assert(link_fits(Entries::<Arc<B>>::empty(), self.store, block));
                    if parent == hash {
                        assert(self.stored(parent) == Some(block));
                    }
                } else {
                    assert(self.pool.contains(x));
                    assert(link_fits(self.pool, self.store, self.pool.map[x]));
                }
            }
            assert forall|i: int| from + 1 <= i < path.len() implies next.stored(
                (#[trigger] path[i]).spec_hash(),
            ) == Some(path[i]) && !next.pool.contains(path[i].spec_hash()) && link_fits(
                Entries::<Arc<B>>::empty(),
                next.store,
                path[i],
            ) && (next.pool.contains(path[i].spec_parent_hash().unwrap()) ==> path[i].spec_height()
                == next.pool.map[path[i].spec_parent_hash().unwrap()].spec_height() + 1) by {
                assert(path[from].spec_height() > path[i].spec_height());
                assert(path[i].spec_hash() != hash);
                let parent = path[i].spec_parent_hash().unwrap();
                assert(link_fits(Entries::<Arc<B>>::empty(), self.store, path[i]));
                if parent == hash {
                    assert(self.stored(parent) == Some(block));
                    assert(false);
                }
            }
            assert forall|h: H256| #[trigger] next.pool.contains(h)
                implies next.pool.map[h].spec_hash()
                == h by {
                if h != hash {
                    assert(self.pool.contains(h));
                }
            }
            next.lemma_unwind_links(path, from + 1);
        }
    }

    /// Rewinding keeps the heights sound.
    pub proof fn lemma_rewind_links(self, target: H256)
        requires
            block_type_sound::<B>(),
            self.ledger_ok(),
            self.links_ok(),
            self.can_rewind(target),
        ensures
            self.rewind(target).links_ok(),
    {
        if self.tip.spec_hash() != target {
            let path = self.descent(self.tip, target, Seq::empty()).unwrap();
            assert(self.is_stored(target));
            if self.height == 0 {
                assert(false);
            }
            self.lemma_descent(self.tip, target, Seq::empty());
            assert forall|i: int| 0 <= i < path.len() implies {
                &&& (#[trigger] path[i]).spec_parent_hash().is_some()
                &&& self.stored(path[i].spec_hash()) == Some(path[i])
                &&& !self.pool.contains(path[i].spec_hash())
                &&& link_fits(Entries::<Arc<B>>::empty(), self.store, path[i])
                &&& (self.pool.contains(path[i].spec_parent_hash().unwrap())
                    ==> path[i].spec_height()
                    == self.pool.map[path[i].spec_parent_hash().unwrap()].spec_height() + 1)
            } by {
                let hash = path[i].spec_hash();
                assert(self.stored(hash) == Some(path[i]));
                assert(self.is_stored(hash));
                assert(self.link_ok(hash));
                let parent = path[i].spec_parent_hash().unwrap();
                if path[i].spec_height() != 1 {
                    assert(self.is_stored(parent));
                } else {
                    assert(!self.is_stored(parent));
                    assert(self.stored(parent).is_none());
                }
            }
            self.lemma_unwind_links(path, 0);
            let unwound = self.unwind(path, 0);
            self.lemma_unwind(path, 0);
            let after = self.rewind(target);
            assert forall|h: H256| after.stored(h) == unwound.stored(h) by {}
        }
    }

    /// Writing a block that extends the tip keeps the heights sound, as
    /// long as the orphans that name it as their parent are one higher
    /// than it.
    pub proof fn lemma_write_block_links(self, block: Arc<B>)
        requires
            block_type_sound::<B>(),
            self.ledger_ok(),
            self.links_ok(),
            self.extends_tip(block),
            !self.is_stored(block.spec_hash()),
            forall|x: H256|
                #[trigger] self.pool.contains(x) && self.pool.map[x].spec_parent_hash() == Some(
                    block.spec_hash(),
                ) ==> self.pool.map[x].spec_height() == block.spec_height() + 1,
            crate::chain::ledger::apart(block),
        ensures
            self.write_block(block).links_ok(),
    {
        let hash = block.spec_hash();
        let height = (self.height + 1) as u64;
        let heights = crate::heights::levels_remove(self.heights, block.spec_height(), hash);
        let written = self.written(block);
        assert(B::spec_from_bytes(block.spec_bytes()) == Some(block));
        assert(written.stored(hash) == Some(block));
        assert forall|h: H256| h != hash implies written.stored(h) == self.stored(h) by {}
        assert forall|x: H256| #[trigger] written.pool.contains(x) implies link_fits(
            written.pool,
            written.store,
            written.pool.map[x],
        ) by {
            assert(self.pool.contains(x));
            assert(link_fits(self.pool, self.store, self.pool.map[x]));
        }
        if self.heads.contains(hash) {
            written.lemma_promote_tips_base(self.heads.map[hash], 0, Some(hash), false);
            written.lemma_base_keeps_links(self.write_block(block));
        }
    }

    /// Writing an orphan that extends the tip keeps the heights sound.
    pub proof fn lemma_write_orphan_links(self, block: Arc<B>)
        requires
            block_type_sound::<B>(),
            self.ledger_ok(),
            self.links_ok(),
            self.extends_tip(block),
            self.pool.contains(block.spec_hash()),
            self.pool.map[block.spec_hash()] == block,
        ensures
            self.write_block(block).links_ok(),
    {
        let hash = block.spec_hash();
        assert forall|x: H256|
            #[trigger] self.pool.contains(x) && self.pool.map[x].spec_parent_hash() == Some(
                hash,
            ) implies self.pool.map[x].spec_height() == block.spec_height() + 1 by {
            assert(link_fits(self.pool, self.store, self.pool.map[x]));
        }
        if self.is_stored(hash) {
            assert(false);
        }
        self.lemma_write_block_links(block);
    }
}

} // verus!
