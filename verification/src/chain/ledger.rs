//! The canonical chain in the store: what holds of it after every call.
use crate::block::Block;
use crate::chain::state::ChainState;
use crate::hash::H256;
use crate::orphan_type::OrphanType;
use crate::store::StoreKey;
use std::sync::Arc;
use vstd::prelude::*;

verus! {

/// Decoding undoes encoding, for every block of type `B`.
pub open spec fn codec_sound<B: Block>() -> bool {
    forall|b: Arc<B>| #[trigger] B::spec_from_bytes(b.spec_bytes()) == Some(b)
}

/// What the engine takes for granted of the block type `B`: the encoding
/// can be decoded, and genesis has the height 0.
pub open spec fn block_type_sound<B: Block>() -> bool {
    &&& codec_sound::<B>()
    &&& B::spec_genesis().spec_height() == 0
}

/// Whether the hash of `block` tells it apart from the one block that a
/// chain knows without holding it: if `block` has the hash of genesis, it
/// is genesis. Of the blocks that a chain holds nothing has to be asked: a
/// block with the hash of a stored block or of an orphan is turned down
/// whatever it is.
pub open spec fn apart<B: Block>(block: Arc<B>) -> bool {
    block.spec_hash() == B::spec_genesis().spec_hash() ==> block == B::spec_genesis()
}

/// Whether no two of `path[from..]` have the same hash and none of them has
/// the hash of an orphan of `pool`.
pub open spec fn path_is_new<B: Block>(
    pool: crate::ordered_map::Entries<Arc<B>>,
    path: Seq<Arc<B>>,
    from: int,
) -> bool {
    &&& forall|i: int| from <= i < path.len() ==> !pool.contains((#[trigger] path[i]).spec_hash())
    &&& forall|i: int, j: int|
        from <= i < j < path.len() ==> (#[trigger] path[i]).spec_hash() != (
        #[trigger] path[j]).spec_hash()
}

impl<B: Block> ChainState<B> {
    /// Whether the store holds something under the hash `hash`.
    pub open spec fn is_stored(self, hash: H256) -> bool {
        self.store.contains_key(StoreKey::Block(hash))
    }

    /// The parent of the canonical block `hash` is the canonical block one
    /// below it; the parent of a block of height 1 is genesis.
    pub open spec fn link_ok(self, hash: H256) -> bool {
        let block = self.stored(hash).unwrap();
        match block.spec_parent_hash() {
            Some(parent) => if block.spec_height() == 1 {
                parent == B::spec_genesis().spec_hash()
            } else {
                &&& self.stored(parent).is_some()
                &&& self.stored(parent).unwrap().spec_height() + 1 == block.spec_height()
            },
            None => false,
        }
    }

    /// Whether the store names the canonical height, and above height 0
    /// the hash of the canonical tip.
    pub open spec fn names_tip(self) -> bool {
        &&& self.store.contains_key(StoreKey::Height)
        &&& self.store[StoreKey::Height] == crate::codec::be_bytes(self.height)
        &&& self.height > 0 ==> self.store.contains_key(StoreKey::Tip) && self.store[StoreKey::Tip]
            == self.tip.spec_hash().0@
    }

    /// What holds of the canonical chain: the height on record is that of
    /// the tip, and the store names both; the tip is genesis at height 0
    /// and a stored block above;
    /// genesis itself is neither stored nor an orphan; every entry of the
    /// store decodes to a
    /// block between 1 and the height, whose parent is stored one below
    /// it, and which is no orphan; no two stored blocks have the same
    /// height; and every orphan lies in the pool under its own hash and
    /// has a height of at least 1.
    pub open spec fn ledger_ok(self) -> bool {
        &&& self.tip.spec_height() == self.height
        &&& self.names_tip()
        &&& forall|h: H256| #[trigger]
            self.pool.contains(h) ==> self.pool.map[h].spec_hash() == h
                && self.pool.map[h].spec_height() >= 1
        &&& !self.is_stored(B::spec_genesis().spec_hash())
        &&& !self.pool.contains(B::spec_genesis().spec_hash())
        &&& self.height == 0 ==> self.tip == B::spec_genesis()
        &&& self.height > 0 ==> self.stored(self.tip.spec_hash()) == Some(self.tip)
        &&& forall|h: H256| #[trigger]
            self.is_stored(h) ==> {
                &&& self.stored(h).is_some()
                &&& 1 <= self.stored(h).unwrap().spec_height() <= self.height
                &&& self.link_ok(h)
                &&& !self.pool.contains(h)
            }
        &&& forall|h1: H256, h2: H256|
            #![trigger self.is_stored(h1), self.is_stored(h2)]
            self.is_stored(h1) && self.is_stored(h2) && self.stored(h1).unwrap().spec_height()
                == self.stored(h2).unwrap().spec_height() ==> h1 == h2
    }

    /// A step that leaves store, tip, height and pool as they are keeps the
    /// canonical chain sound.
    pub proof fn lemma_base_keeps_ledger(self, other: Self)
        requires
            self.ledger_ok(),
            self.same_base(other),
        ensures
            other.ledger_ok(),
    {
        assert forall|h: H256| #[trigger] other.is_stored(h) implies {
            &&& other.stored(h).is_some()
            &&& 1 <= other.stored(h).unwrap().spec_height() <= other.height
            &&& other.link_ok(h)
            &&& !other.pool.contains(h)
        } by {
            assert(self.is_stored(h));
        }
        assert forall|h1: H256, h2: H256|
            #![trigger other.is_stored(h1), other.is_stored(h2)]
            other.is_stored(h1) && other.is_stored(h2) && other.stored(h1).unwrap().spec_height()
                == other.stored(h2).unwrap().spec_height() implies h1 == h2 by {
            assert(self.is_stored(h1) && self.is_stored(h2));
        }
    }

    /// Putting a block that is not stored into the pool keeps the
    /// canonical chain sound.
    pub proof fn lemma_with_orphan_ledger(self, orphan: Arc<B>, standing: OrphanType, inverse: u64)
        requires
            self.ledger_ok(),
            !self.is_stored(orphan.spec_hash()),
            orphan.spec_hash() != B::spec_genesis().spec_hash(),
            orphan.spec_height() >= 1,
        ensures
            self.with_orphan(orphan, standing, inverse).ledger_ok(),
    {
        let after = self.with_orphan(orphan, standing, inverse);
        assert forall|h: H256| #[trigger] after.pool.contains(h)
            implies after.pool.map[h].spec_hash()
            == h && after.pool.map[h].spec_height() >= 1 by {
            if h != orphan.spec_hash() {
                assert(self.pool.contains(h));
            }
        }
        assert forall|h: H256| #[trigger] after.is_stored(h) implies {
            &&& after.stored(h).is_some()
            &&& 1 <= after.stored(h).unwrap().spec_height() <= after.height
            &&& after.link_ok(h)
            &&& !after.pool.contains(h)
        } by {
            assert(self.is_stored(h));
        }
        assert forall|h1: H256, h2: H256|
            #![trigger after.is_stored(h1), after.is_stored(h2)]
            after.is_stored(h1) && after.is_stored(h2) && after.stored(h1).unwrap().spec_height()
                == after.stored(h2).unwrap().spec_height() implies h1 == h2 by {
            assert(self.is_stored(h1) && self.is_stored(h2));
        }
    }

    /// Writing a block takes nothing out of the store.
    pub proof fn lemma_write_block_store(self, block: Arc<B>)
        ensures
            forall|h: H256| self.is_stored(h) ==> #[trigger] self.write_block(block).is_stored(h),
    {
        let written = self.written(block);
        if self.heads.contains(block.spec_hash()) {
            written.lemma_promote_tips_base(
                self.heads.map[block.spec_hash()],
                0,
                Some(block.spec_hash()),
                false,
            );
        }
    }

    /// Writing a block that extends the tip, is not stored yet, and
    /// decodes from its own encoding keeps the canonical chain sound.
    pub proof fn lemma_write_block_ledger(self, block: Arc<B>)
        requires
            block_type_sound::<B>(),
            self.ledger_ok(),
            self.extends_tip(block),
            !self.is_stored(block.spec_hash()),
            block.spec_hash() != B::spec_genesis().spec_hash(),
        ensures
            self.write_block(block).ledger_ok(),
            self.write_block(block).tip == block,
            self.write_block(block).height == self.height + 1,
            forall|h: H256|
                self.write_block(block).pool.contains(h) <==> (self.pool.contains(h) && h
                    != block.spec_hash()),
            forall|h: H256|
                self.write_block(block).pool.contains(h) ==> self.write_block(block).pool.map[h]
                    == self.pool.map[h],
    {
        let hash = block.spec_hash();
        let height = (self.height + 1) as u64;
        let heights = crate::heights::levels_remove(self.heights, block.spec_height(), hash);
        let written = self.written(block);
        assert(B::spec_from_bytes(block.spec_bytes()) == Some(block));
        assert(written.stored(hash) == Some(block));
        assert forall|h: H256| h != hash implies written.stored(h) == self.stored(h)
            && written.is_stored(h) == self.is_stored(h) by {}
        assert(written.is_stored(hash));
        assert forall|h: H256| #[trigger] written.pool.contains(h)
            implies written.pool.map[h].spec_hash()
            == h && written.pool.map[h].spec_height() >= 1 by {
            assert(self.pool.contains(h));
        }
        if self.height > 0 {
            assert(self.is_stored(self.tip.spec_hash())) by {
                assert(self.stored(self.tip.spec_hash()).is_some());
            }
        }
        assert forall|h: H256| #[trigger] written.is_stored(h) implies {
            &&& written.stored(h).is_some()
            &&& 1 <= written.stored(h).unwrap().spec_height() <= written.height
            &&& written.link_ok(h)
            &&& !written.pool.contains(h)
        } by {
            if h != hash {
                assert(self.is_stored(h));
                assert(self.link_ok(h));
                let b = self.stored(h).unwrap();
                if b.spec_height() != 1 {
                    let p = b.spec_parent_hash().unwrap();
                    assert(self.stored(p).is_some());
                    assert(self.is_stored(p));
                    assert(p != hash);
                }
            }
        }
        assert forall|h1: H256, h2: H256|
            #![trigger written.is_stored(h1), written.is_stored(h2)]
            written.is_stored(h1) && written.is_stored(h2)
                && written.stored(h1).unwrap().spec_height()
                == written.stored(h2).unwrap().spec_height() implies h1 == h2 by {
            if h1 != hash {
                assert(self.is_stored(h1));
            }
            if h2 != hash {
                assert(self.is_stored(h2));
            }
        }
        assert(written.ledger_ok());
        if self.heads.contains(hash) {
            written.lemma_promote_tips_base(self.heads.map[hash], 0, Some(hash), false);
            written.lemma_base_keeps_ledger(self.write_block(block));
        }
    }

    /// The blocks that `descent` adds behind `above` are canonical blocks,
    /// each one lower than the one before, from `block` down to the child
    /// of `target`.
    pub proof fn lemma_descent(self, block: Arc<B>, target: H256, above: Seq<Arc<B>>)
        requires
            self.ledger_ok(),
            self.stored(block.spec_hash()) == Some(block),
            self.stored(target).is_some(),
            self.descent(block, target, above).is_some(),
        ensures
            ({
                let path = self.descent(block, target, above).unwrap();
                let t = self.stored(target).unwrap();
                &&& path.len() == above.len() + block.spec_height() - t.spec_height()
                &&& block.spec_height() > t.spec_height()
                &&& forall|i: int| 0 <= i < above.len() ==> path[i] == above[i]
                &&& forall|i: int|
                    above.len() <= i < path.len() ==> {
                        &&& self.stored((#[trigger] path[i]).spec_hash()) == Some(path[i])
                        &&& path[i].spec_height() == block.spec_height() - (i - above.len())
                    }
            }),
        decreases block.spec_height(),
    {
        let hash = block.spec_hash();
        assert(self.is_stored(hash));
        assert(self.link_ok(hash));
        let parent = block.spec_parent_hash().unwrap();
        let t = self.stored(target).unwrap();
        assert(self.is_stored(target));
        if parent == target {
            assert(block.spec_height() != 1);
            let path = above.push(block);
            assert(self.descent(block, target, above) == Some(path));
        } else {
            let below = self.stored(parent).unwrap();
            assert(self.is_stored(parent));
            assert(block.spec_height() != 1);
            assert(below.spec_height() + 1 == block.spec_height());
            self.lemma_descent(below, target, above.push(block));
            let path = self.descent(below, target, above.push(block)).unwrap();
            assert(self.descent(block, target, above) == Some(path));
            assert forall|i: int| 0 <= i < above.len() implies path[i] == above[i] by {
                assert(above.push(block)[i] == above[i]);
            }
            assert(path[above.len() as int] == above.push(block)[above.len() as int]);
        }
    }

    /// The canonical blocks above `target` have hashes of their own, and
    /// none of them is an orphan.
    pub proof fn lemma_descent_is_new(self, target: H256)
        requires
            self.ledger_ok(),
            self.can_rewind(target),
            self.tip.spec_hash() != target,
        ensures
            path_is_new(self.pool, self.descent(self.tip, target, Seq::empty()).unwrap(), 0),
    {
        let path = self.descent(self.tip, target, Seq::empty()).unwrap();
        assert(self.is_stored(target));
        if self.height == 0 {
            assert(false);
        }
        self.lemma_descent(self.tip, target, Seq::empty());
        assert forall|i: int| 0 <= i < path.len() implies !self.pool.contains(
            (#[trigger] path[i]).spec_hash(),
        ) by {
            assert(self.stored(path[i].spec_hash()) == Some(path[i]));
            assert(self.is_stored(path[i].spec_hash()));
        }
        assert forall|i: int, j: int| 0 <= i < j < path.len() implies (
        #[trigger] path[i]).spec_hash() != (#[trigger] path[j]).spec_hash() by {
            assert(self.stored(path[i].spec_hash()) == Some(path[i]));
            assert(self.stored(path[j].spec_hash()) == Some(path[j]));
        }
    }

    /// Whether `hash` is the hash of one of `path[from..]`.
    pub open spec fn on_path(path: Seq<Arc<B>>, from: int, hash: H256) -> bool {
        exists|i: int| from <= i < path.len() && 0 <= i && (#[trigger] path[i]).spec_hash() == hash
    }

    /// What `unwind` does to store and pool: the blocks of the path leave
    /// the store and join the pool, and nothing else of the two changes.
    pub proof fn lemma_unwind(self, path: Seq<Arc<B>>, from: int)
        requires
            0 <= from <= path.len() <= u64::MAX,
        ensures
            ({
                let after = self.unwind(path, from);
                &&& after.height == self.height
                &&& after.tip == self.tip
                &&& forall|h: H256|
                    #![trigger after.is_stored(h)]
                    #![trigger self.is_stored(h)]
                    after.is_stored(h) <==> (self.is_stored(h) && !Self::on_path(path, from, h))
                &&& forall|k: StoreKey| #[trigger]
                    after.store.contains_key(k) ==> self.store.contains_key(k)
                        && after.store[k] == self.store[k]
                &&& forall|h: H256|
                    #![trigger after.pool.contains(h)]
                    #![trigger self.pool.contains(h)]
                    after.pool.contains(h) <==> (self.pool.contains(h) || Self::on_path(
                        path,
                        from,
                        h,
                    ))
                &&& forall|h: H256|
                    #![trigger after.pool.map[h]]
                    self.pool.contains(h) && !Self::on_path(path, from, h) ==> after.pool.map[h]
                        == self.pool.map[h]
                &&& forall|h: H256|
                    #![trigger after.pool.map[h]]
                    Self::on_path(path, from, h) ==> after.pool.map[h].spec_hash() == h && exists|
                        i: int,
                    |
                        from <= i < path.len() && 0 <= i && after.pool.map[h] == #[trigger] path[i]
            }),
        decreases path.len() - from,
    {
        let after = self.unwind(path, from);
        if from < path.len() {
            let next = self.unwind_block(path[from], from as u64);
            next.lemma_unwind(path, from + 1);
            let hash = path[from].spec_hash();
            assert forall|h: H256| Self::on_path(path, from, h) <==> (h == hash || Self::on_path(
                path,
                from + 1,
                h,
            )) by {
                if Self::on_path(path, from, h) {
                    let i = choose|i: int|
                        from <= i < path.len() && 0 <= i && (#[trigger] path[i]).spec_hash() == h;
                    if i != from {
                        assert(from + 1 <= i < path.len() && path[i].spec_hash() == h);
                    }
                }
                if h == hash {
                    assert(path[from].spec_hash() == h);
                }
                if Self::on_path(path, from + 1, h) {
                    let i = choose|i: int|
                        from + 1 <= i < path.len() && 0 <= i && (#[trigger] path[i]).spec_hash()
                            == h;
                    assert(from <= i < path.len() && path[i].spec_hash() == h);
                }
            }
            assert(after == next.unwind(path, from + 1));
            assert forall|k: StoreKey| #[trigger]
                after.store.contains_key(k) implies self.store.contains_key(k) && after.store[k]
                == self.store[k] by {
                assert(next.store.contains_key(k));
            }
            assert forall|h: H256|
                #![trigger after.is_stored(h)]
                #![trigger self.is_stored(h)]
                after.is_stored(h) <==> (self.is_stored(h) && !Self::on_path(path, from, h)) by {
                assert(next.is_stored(h) <==> (self.is_stored(h) && h != hash));
            }
            assert forall|h: H256|
                #![trigger after.pool.contains(h)]
                #![trigger self.pool.contains(h)]
                after.pool.contains(h) <==> (self.pool.contains(h) || Self::on_path(
                    path,
                    from,
                    h,
                )) by {
                assert(next.pool.contains(h) <==> (self.pool.contains(h) || h == hash));
            }
            assert forall|h: H256|
                #![trigger after.pool.map[h]]
                self.pool.contains(h) && !Self::on_path(path, from, h) implies after.pool.map[h]
                == self.pool.map[h] by {
                assert(next.pool.contains(h));
                assert(next.pool.map[h] == self.pool.map[h]);
            }
            assert forall|h: H256|
                #![trigger after.pool.map[h]]
                Self::on_path(path, from, h) implies after.pool.map[h].spec_hash() == h && exists|
                    i: int,
                |
                    from <= i < path.len() && 0 <= i && after.pool.map[h] == #[trigger] path[i] by {
                if !Self::on_path(path, from + 1, h) {
                    assert(h == hash);
                    assert(next.pool.contains(h));
                    assert(next.pool.map[h] == path[from]);
                    assert(after.pool.map[h] == path[from]);
                } else {
                    let i = choose|i: int|
                        from + 1 <= i < path.len() && 0 <= i && after.pool.map[h]
                            == #[trigger] path[i];
                    assert(from <= i < path.len() && after.pool.map[h] == path[i]);
                }
            }
        } else {
            assert forall|h: H256| !Self::on_path(path, from, h) by {}
        }
    }

    /// Rewinding keeps the canonical chain sound.
    pub proof fn lemma_rewind_ledger(self, target: H256)
        requires
            self.ledger_ok(),
            self.can_rewind(target),
        ensures
            self.rewind(target).ledger_ok(),
            forall|h: H256|
                self.pool.contains(h) ==> self.rewind(target).pool.contains(h) && self.rewind(
                    target,
                ).pool.map[h] == self.pool.map[h],
    {
        if self.tip.spec_hash() != target {
            let path = self.descent(self.tip, target, Seq::empty()).unwrap();
            let t = self.stored(target).unwrap();
            assert(self.is_stored(target));
            if self.height == 0 {
                assert(false);
            }
            self.lemma_descent(self.tip, target, Seq::empty());
            assert(path.len() == self.height - t.spec_height());
            self.lemma_unwind(path, 0);
            let unwound = self.unwind(path, 0);
            let after = self.rewind(target);
            assert forall|h: H256| Self::on_path(path, 0, h) implies self.is_stored(h)
                && self.stored(h).unwrap().spec_height() > t.spec_height() by {
                let i = choose|i: int|
                    0 <= i < path.len() && 0 <= i && (#[trigger] path[i]).spec_hash() == h;
                assert(self.stored(path[i].spec_hash()) == Some(path[i]));
            }
            assert forall|h: H256| after.is_stored(h) <==> unwound.is_stored(h) by {}
            assert forall|h: H256| #[trigger] after.is_stored(h) implies after.stored(h)
                == self.stored(h) && self.is_stored(h) && !Self::on_path(path, 0, h) by {
                assert(unwound.is_stored(h));
                assert(unwound.store.contains_key(StoreKey::Block(h)));
            }
            assert forall|h: H256| #[trigger] after.is_stored(h) implies self.stored(
                h,
            ).unwrap().spec_height() <= t.spec_height() by {
                assert(self.is_stored(h));
                let k = self.stored(h).unwrap().spec_height();
                if k > t.spec_height() {
                    let i = self.height - k;
                    assert(0 <= i < path.len());
                    assert(self.stored(path[i].spec_hash()) == Some(path[i]));
                    assert(path[i].spec_height() == k);
                    assert(self.is_stored(path[i].spec_hash()));
                    assert(path[i].spec_hash() == h);
                    assert(Self::on_path(path, 0, h));
                }
            }
            assert(after.is_stored(target)) by {
                if Self::on_path(path, 0, target) {
                    assert(self.stored(target).unwrap().spec_height() > t.spec_height());
                }
            }
            assert forall|h: H256| #[trigger] after.is_stored(h) implies {
                &&& after.stored(h).is_some()
                &&& 1 <= after.stored(h).unwrap().spec_height() <= after.height
                &&& after.link_ok(h)
                &&& !after.pool.contains(h)
            } by {
                assert(self.is_stored(h));
                assert(self.link_ok(h));
                let b = self.stored(h).unwrap();
                if b.spec_height() != 1 {
                    let p = b.spec_parent_hash().unwrap();
                    assert(self.is_stored(p));
                    if Self::on_path(path, 0, p) {
                        assert(self.stored(p).unwrap().spec_height() > t.spec_height());
                    }
                    assert(unwound.is_stored(p));
                    assert(after.is_stored(p));
                }
            }
            assert forall|h1: H256, h2: H256|
                #![trigger after.is_stored(h1), after.is_stored(h2)]
                after.is_stored(h1) && after.is_stored(h2)
                    && after.stored(h1).unwrap().spec_height()
                    == after.stored(h2).unwrap().spec_height() implies h1 == h2 by {
                assert(self.is_stored(h1) && self.is_stored(h2));
            }
            assert(!after.is_stored(B::spec_genesis().spec_hash()));
            assert forall|h: H256| self.pool.contains(h) implies after.pool.contains(h)
                && after.pool.map[h] == self.pool.map[h] by {
                if Self::on_path(path, 0, h) {
                    assert(self.is_stored(h));
                }
                assert(unwound.pool.map[h] == self.pool.map[h]);
            }
            assert forall|h: H256| #[trigger] after.pool.contains(h)
                implies after.pool.map[h].spec_hash()
                == h && after.pool.map[h].spec_height() >= 1 by {
                if Self::on_path(path, 0, h) {
                    assert(unwound.pool.map[h].spec_hash() == h);
                    let i = choose|i: int|
                        0 <= i < path.len() && 0 <= i && unwound.pool.map[h] == #[trigger] path[i];
                    assert(self.stored(path[i].spec_hash()) == Some(path[i]));
                    assert(self.is_stored(path[i].spec_hash()));
                } else {
                    assert(self.pool.contains(h));
                    assert(unwound.pool.map[h] == self.pool.map[h]);
                }
            }
        }
    }

    /// Whether each of the first `count` blocks of `branch` is the orphan
    /// under its hash, and no two of them have the same hash.
    pub open spec fn branch_in_pool(self, branch: Seq<Arc<B>>, count: int) -> bool {
        &&& 0 <= count <= branch.len()
        &&& forall|i: int|
            0 <= i < count ==> self.pool.contains((#[trigger] branch[i]).spec_hash())
                && self.pool.map[branch[i].spec_hash()] == branch[i]
        &&& forall|i: int, j: int|
            0 <= i < j < count ==> (#[trigger] branch[i]).spec_hash() != (
            #[trigger] branch[j]).spec_hash()
    }

    /// Writing a branch of orphans on top of the canonical chain keeps the
    /// canonical chain sound.
    pub proof fn lemma_replay_ledger(self, branch: Seq<Arc<B>>, count: int)
        requires
            block_type_sound::<B>(),
            self.ledger_ok(),
            self.branch_in_pool(branch, count),
        ensures
            self.replay(branch, count).ledger_ok(),
        decreases count,
    {
        if 0 < count <= branch.len() && self.extends_tip(branch[count - 1]) {
            let block = branch[count - 1];
            assert(self.pool.contains(block.spec_hash()));
            self.lemma_write_block_ledger(block);
            let written = self.write_block(block);
            assert(written.branch_in_pool(branch, count - 1)) by {
                assert forall|i: int| 0 <= i < count - 1 implies written.pool.contains(
                    (#[trigger] branch[i]).spec_hash(),
                ) && written.pool.map[branch[i].spec_hash()] == branch[i] by {
                    assert(branch[i].spec_hash() != branch[count - 1].spec_hash());
                    assert(self.pool.contains(branch[i].spec_hash()));
                }
            }
            written.lemma_replay_ledger(branch, count - 1);
        }
    }

    /// The blocks that `branch` adds behind `above` are orphans under
    /// their own hashes, each one lower than the one before.
    pub proof fn lemma_branch(self, block: Arc<B>, above: Seq<Arc<B>>)
        requires
            self.branch(block, above).is_some(),
        ensures
            ({
                let path = self.branch(block, above).unwrap().0;
                &&& path.len() > above.len()
                &&& path.len() <= above.len() + block.spec_height()
                &&& forall|i: int| 0 <= i < above.len() ==> path[i] == above[i]
                &&& path[above.len() as int] == block
                &&& forall|i: int|
                    above.len() <= i < path.len() ==> (#[trigger] path[i]).spec_height()
                        == block.spec_height() - (i - above.len())
                &&& forall|i: int|
                    above.len() < i < path.len() ==> self.pool.contains(
                        (#[trigger] path[i]).spec_hash(),
                    ) && self.pool.map[path[i].spec_hash()] == path[i]
                &&& self.is_stored(self.branch(block, above).unwrap().1)
            }),
        decreases block.spec_height(),
    {
        let parent = block.spec_parent_hash().unwrap();
        if self.store.contains_key(StoreKey::Block(parent)) {
            let path = above.push(block);
            assert(self.branch(block, above) == Some((path, parent)));
        } else {
            let below = self.pool.map[parent];
            self.lemma_branch(below, above.push(block));
            let path = self.branch(below, above.push(block)).unwrap().0;
            assert(self.branch(block, above) == self.branch(below, above.push(block)));
            assert forall|i: int| 0 <= i < above.len() implies path[i] == above[i] by {
                assert(above.push(block)[i] == above[i]);
            }
            assert(path[above.len() as int] == above.push(block)[above.len() as int]);
            assert(path[above.len() as int + 1] == below);
        }
    }

    /// Whether the first `count` blocks of `branch` hang together: each is
    /// one higher than the next and names it as its parent.
    pub open spec fn branch_linked(branch: Seq<Arc<B>>, count: int) -> bool {
        forall|i: int|
            0 <= i < count - 1 ==> (#[trigger] branch[i]).spec_parent_hash() == Some(
                branch[i + 1].spec_hash(),
            ) && branch[i].spec_height() == branch[i + 1].spec_height() + 1
    }

    /// The blocks that `branch` adds behind `above` hang together, and the
    /// last of them is one higher than the canonical block that it names
    /// as its parent.
    pub proof fn lemma_branch_linked(self, block: Arc<B>, above: Seq<Arc<B>>)
        requires
            self.branch(block, above).is_some(),
            Self::branch_linked(above.push(block), above.len() as int + 1),
        ensures
            ({
                let (path, horizon) = self.branch(block, above).unwrap();
                &&& Self::branch_linked(path, path.len() as int)
                &&& path.len() > 0
                &&& path.last().spec_parent_hash() == Some(horizon)
                &&& self.stored(horizon).is_some()
                &&& self.stored(horizon).unwrap().spec_height() + 1 == path.last().spec_height()
            }),
        decreases block.spec_height(),
    {
        let parent = block.spec_parent_hash().unwrap();
        if self.store.contains_key(StoreKey::Block(parent)) {
            let path = above.push(block);
            assert(self.branch(block, above) == Some((path, parent)));
        } else {
            let below = self.pool.map[parent];
            let next = above.push(block);
            assert(Self::branch_linked(next.push(below), next.len() as int + 1)) by {
                assert forall|i: int| 0 <= i < next.len() implies (
                #[trigger] next.push(below)[i]).spec_parent_hash() == Some(
                    next.push(below)[i + 1].spec_hash(),
                ) && next.push(below)[i].spec_height() == next.push(below)[i + 1].spec_height()
                    + 1 by {
                    if i < next.len() - 1 {
                        assert(next.push(below)[i] == next[i]);
                        assert(next.push(below)[i + 1] == next[i + 1]);
                    }
                }
            }
            self.lemma_branch_linked(below, next);
            assert(self.branch(block, above) == self.branch(below, next));
        }
    }

    /// Writing a branch of orphans that hang together, the last of which
    /// extends the canonical tip, raises the height by the length of the
    /// branch.
    pub proof fn lemma_replay_height(self, branch: Seq<Arc<B>>, count: int)
        requires
            block_type_sound::<B>(),
            self.ledger_ok(),
            self.branch_in_pool(branch, count),
            Self::branch_linked(branch, count),
            count > 0 ==> branch[count - 1].spec_parent_hash() == Some(self.tip.spec_hash())
                && branch[count - 1].spec_height() == self.height + 1,
        ensures
            self.replay(branch, count).height == self.height + count,
        decreases count,
    {
        if 0 < count {
            let block = branch[count - 1];
            assert(self.extends_tip(block));
            assert(self.pool.contains(block.spec_hash()));
            self.lemma_write_block_ledger(block);
            let written = self.write_block(block);
            assert(written.branch_in_pool(branch, count - 1)) by {
                assert forall|i: int| 0 <= i < count - 1 implies written.pool.contains(
                    (#[trigger] branch[i]).spec_hash(),
                ) && written.pool.map[branch[i].spec_hash()] == branch[i] by {
                    assert(branch[i].spec_hash() != branch[count - 1].spec_hash());
                    assert(self.pool.contains(branch[i].spec_hash()));
                }
            }
            if count > 1 {
                assert(branch[count - 2].spec_parent_hash() == Some(branch[count - 1].spec_hash()));
            }
            written.lemma_replay_height(branch, count - 1);
        }
    }

    /// Offering the canonical chain a branch keeps the canonical chain
    /// sound.
    pub proof fn lemma_attempt_switch_ledger(self, candidate: Arc<B>)
        requires
            block_type_sound::<B>(),
            self.ledger_ok(),
            self.pool.contains(candidate.spec_hash()),
            self.pool.map[candidate.spec_hash()] == candidate,
        ensures
            self.attempt_switch(candidate).ledger_ok(),
            self.attempt_switch(candidate).height >= self.height,
    {
        if self.switches_to(candidate) {
            let (branch, horizon) = self.branch(candidate, Seq::empty()).unwrap();
            self.lemma_branch(candidate, Seq::empty());
            self.lemma_rewind_ledger(horizon);
            let rewound = self.rewind(horizon);
            assert(rewound.branch_in_pool(branch, branch.len() as int)) by {
                assert forall|i: int| 0 <= i < branch.len() implies self.pool.contains(
                    (#[trigger] branch[i]).spec_hash(),
                ) && self.pool.map[branch[i].spec_hash()] == branch[i] by {}
                assert forall|i: int, j: int| 0 <= i < j < branch.len() implies (
                #[trigger] branch[i]).spec_hash() != (#[trigger] branch[j]).spec_hash() by {
                    assert(branch[i].spec_height() != branch[j].spec_height());
                    assert(self.pool.map[branch[i].spec_hash()] == branch[i]);
                    assert(self.pool.map[branch[j].spec_hash()] == branch[j]);
                }
            }
            rewound.lemma_replay_ledger(branch, branch.len() as int);
            assert(Self::branch_linked(Seq::<Arc<B>>::empty().push(candidate), 1));
            self.lemma_branch_linked(candidate, Seq::empty());
            assert(self.is_stored(horizon));
            if self.tip.spec_hash() == horizon {
                if self.height == 0 {
                    assert(false);
                }
            }
            rewound.lemma_replay_height(branch, branch.len() as int);
        }
    }

    /// Writing an orphan that extends the tip keeps the canonical chain
    /// sound.
    pub proof fn lemma_write_orphan_block_ledger(self, hash: H256)
        requires
            block_type_sound::<B>(),
            self.ledger_ok(),
        ensures
            self.write_orphan_block(hash).ledger_ok(),
            self.write_orphan_block(hash).height >= self.height,
    {
        if self.orphan_extends_tip(hash) {
            let block = self.pool.map[hash];
            if self.is_stored(block.spec_hash()) {
                assert(self.stored(block.spec_hash()).is_some());
                assert(self.stored(block.spec_hash()).unwrap() == block);
                assert(false);
            }
            self.lemma_write_block_ledger(block);
        }
    }

    /// The drain at one height keeps the canonical chain sound.
    pub proof fn lemma_drain_level_ledger(
        self,
        entries: Seq<(H256, u64)>,
        done: bool,
        working: Seq<H256>,
    )
        requires
            block_type_sound::<B>(),
            self.ledger_ok(),
        ensures
            self.drain_level(entries, done, working).0.ledger_ok(),
            self.drain_level(entries, done, working).0.height >= self.height,
    {
        if entries.len() == 1 {
            self.lemma_write_orphan_block_ledger(entries[0].0);
        } else if entries.len() == 0 {
        } else {
            let buf = self.followers(entries, entries.len() as int);
            let (linked, set) = self.relink(entries, 0, working);
            self.lemma_relink_base(entries, 0, working);
            self.lemma_base_keeps_ledger(linked);
            if buf.len() == 0 {
            } else {
                let winner = if done {
                    None
                } else {
                    Some(buf[crate::chain::state::deepest(buf, buf.len() as int)].0)
                };
                let written = match winner {
                    Some(hash) => linked.write_orphan_block(hash),
                    None => linked,
                };
                match winner {
                    Some(hash) => {
                        linked.lemma_write_orphan_block_ledger(hash);
                    },
                    None => {},
                }
                written.lemma_keep_tips_base(buf, 0, winner, set);
                written.lemma_base_keeps_ledger(written.keep_tips(buf, 0, winner, set).0);
            }
        }
    }

    /// The drain keeps the canonical chain sound.
    pub proof fn lemma_drain_ledger(self, height: u64, max: u64, done: bool, working: Seq<H256>)
        requires
            block_type_sound::<B>(),
            self.ledger_ok(),
        ensures
            self.drain(height, max, done, working).ledger_ok(),
            self.drain(height, max, done, working).height >= self.height,
        decreases max - height, (if done { 0int } else { 1int }),
    {
        if height <= max {
            let (next, set, step) = if self.heights.contains_key(height) {
                self.drain_level(crate::heights::level_seq(self.heights[height]), done, working)
            } else {
                (self, working, crate::chain::state::DrainStep::Advance)
            };
            if self.heights.contains_key(height) {
                self.lemma_drain_level_ledger(
                    crate::heights::level_seq(self.heights[height]),
                    done,
                    working,
                );
            }
            match step {
                crate::chain::state::DrainStep::Stop => {},
                crate::chain::state::DrainStep::Advance => {
                    if height < max {
                        next.lemma_drain_ledger((height + 1) as u64, max, done, set);
                    }
                },
                crate::chain::state::DrainStep::AdvanceDone => {
                    if height < max {
                        next.lemma_drain_ledger((height + 1) as u64, max, true, set);
                    }
                },
                crate::chain::state::DrainStep::Repeat => {
                    if !done {
                        next.lemma_drain_ledger(height, max, true, set);
                    }
                },
            }
        }
    }

    /// Draining the orphans keeps the canonical chain sound.
    pub proof fn lemma_process_orphans_ledger(self, start: u64)
        requires
            block_type_sound::<B>(),
            self.ledger_ok(),
        ensures
            self.process_orphans(start).ledger_ok(),
            self.process_orphans(start).height >= self.height,
    {
        match self.max_orphan_height {
            Some(max) => {
                self.lemma_drain_ledger(start, max, false, Seq::empty());
            },
            None => {},
        }
    }

    /// The tip that `attempt_attach_valid` hands back is `tip` itself or
    /// an orphan.
    pub proof fn lemma_attach_valid_tip(self, tip: Arc<B>)
        requires
            self.ledger_ok(),
        ensures
            self.attach_valid_tip(tip) == tip || (self.pool.contains(
                self.attach_valid_tip(tip).spec_hash(),
            ) && self.pool.map[self.attach_valid_tip(tip).spec_hash()] == self.attach_valid_tip(
                tip,
            )),
    {
        match self.attached_head(tip.spec_hash()) {
            Some(head) => {
                let largest = self.heads_heights.map[head].1;
                assert(self.pool.contains(largest));
            },
            None => {},
        }
    }

    /// Taking in a fork of the canonical chain keeps the canonical chain
    /// sound.
    pub proof fn lemma_append_fork_ledger(self, block: Arc<B>)
        requires
            block_type_sound::<B>(),
            self.ledger_ok(),
            !self.is_stored(block.spec_hash()),
            block.spec_height() >= 1,
            crate::chain::ledger::apart(block),
        ensures
            self.append_fork(block).ledger_ok(),
            self.append_fork(block).height >= self.height,
    {
        let written = self.with_orphan(block, OrphanType::ValidChainTip, 0);
        self.lemma_with_orphan_ledger(block, OrphanType::ValidChainTip, 0);
        let attached = written.attempt_attach_valid(block);
        written.lemma_attempt_attach_valid_base(block);
        written.lemma_base_keeps_ledger(attached);
        written.lemma_attach_valid_tip(block);
        let standing = written.attach_valid_standing(block);
        let settled = attached.settle_valid(block.spec_hash(), standing);
        attached.lemma_settle_valid_base(block.spec_hash(), standing);
        attached.lemma_base_keeps_ledger(settled);
        if standing != OrphanType::ValidChainTip {
            settled.lemma_attempt_switch_ledger(written.attach_valid_tip(block));
        }
    }

    /// Taking in a block whose parent is an orphan keeps the canonical
    /// chain sound.
    pub proof fn lemma_append_to_orphan_ledger(
        self,
        block: Arc<B>,
        parent: H256,
        standing: OrphanType,
    )
        requires
            block_type_sound::<B>(),
            self.ledger_ok(),
            !self.knows(block.spec_hash()),
            block.spec_height() >= 1,
            crate::chain::ledger::apart(block),
        ensures
            self.append_to_orphan(block, parent, standing).ledger_ok(),
            self.append_to_orphan(block, parent, standing).height >= self.height,
    {
        let hash = block.spec_hash();
        match standing {
            OrphanType::DisconnectedTip => {
                let head = self.tips.map[parent];
                let largest = self.heads_heights.map[head].0;
                let replaced = ChainState {
                    validations: self.validations.insert(parent, OrphanType::BelongsToDisconnected),
                    heads: crate::tip_sets::sets_add_tip(
                        crate::tip_sets::sets_remove_tip(self.heads, head, parent),
                        head,
                        hash,
                    ),
                    tips: self.tips.remove(parent),
                    heads_heights: if block.spec_height() > largest {
                        self.heads_heights.insert(head, (block.spec_height(), hash))
                    } else {
                        self.heads_heights
                    },
                    ..self
                };
                self.lemma_base_keeps_ledger(replaced);
                replaced.lemma_with_orphan_ledger(block, OrphanType::DisconnectedTip, 0);
                let written = replaced.with_orphan(block, OrphanType::DisconnectedTip, 0);
                let tipped = ChainState { tips: written.tips.insert(hash, head), ..written };
                written.lemma_base_keeps_ledger(tipped);
                tipped.lemma_settle_disconnected_base(block, head, false);
                tipped.lemma_base_keeps_ledger(tipped.settle_disconnected(block, head, false));
            },
            OrphanType::ValidChainTip => {
                let marked = self.mark(parent, OrphanType::BelongsToValidChain);
                self.lemma_base_keeps_ledger(marked);
                marked.lemma_with_orphan_ledger(block, OrphanType::ValidChainTip, 0);
                let written = marked.with_orphan(block, OrphanType::ValidChainTip, 0);
                let tip = written.attach_valid_tip(block);
                let inverse = written.attach_valid_inverse(block);
                written.lemma_attach_valid_tip(block);
                let attached = written.attempt_attach_valid(block);
                written.lemma_attempt_attach_valid_base(block);
                written.lemma_base_keeps_ledger(attached);
                let lifted = attached.recurse_inverse(block, inverse, inverse == 0);
                attached.lemma_recurse_inverse_base(block, inverse, inverse == 0);
                attached.lemma_base_keeps_ledger(lifted);
                let tipped = lifted.settle_valid(
                    block.spec_hash(),
                    written.attach_valid_standing(block),
                );
                lifted.lemma_settle_valid_base(
                    block.spec_hash(),
                    written.attach_valid_standing(block),
                );
                lifted.lemma_base_keeps_ledger(tipped);
                tipped.lemma_attempt_switch_ledger(tip);
            },
            OrphanType::BelongsToDisconnected => {
                let head = self.head_above(parent, block.spec_height()).unwrap();
                self.lemma_with_orphan_ledger(block, OrphanType::DisconnectedTip, 0);
                let written = self.with_orphan(block, OrphanType::DisconnectedTip, 0);
                let tipped = ChainState {
                    heads: crate::tip_sets::sets_add_tip(written.heads, head, hash),
                    tips: written.tips.insert(hash, head),
                    ..written
                };
                written.lemma_base_keeps_ledger(tipped);
                tipped.lemma_settle_disconnected_base(block, head, true);
                tipped.lemma_base_keeps_ledger(tipped.settle_disconnected(block, head, true));
            },
            OrphanType::BelongsToValidChain => {
                let tipped = ChainState { valid_tips: self.valid_tips.insert(hash, ()), ..self };
                self.lemma_base_keeps_ledger(tipped);
                let tip = tipped.attach_valid_tip(block);
                let inverse = tipped.attach_valid_inverse(block);
                let standing = tipped.attach_valid_standing(block);
                tipped.lemma_attach_valid_tip(block);
                let attached = tipped.attempt_attach_valid(block);
                tipped.lemma_attempt_attach_valid_base(block);
                tipped.lemma_base_keeps_ledger(attached);
                attached.lemma_with_orphan_ledger(block, standing, inverse);
                let written = attached.with_orphan(block, standing, inverse);
                let lifted = written.recurse_inverse(tip, inverse, inverse == 0);
                written.lemma_recurse_inverse_base(tip, inverse, inverse == 0);
                written.lemma_base_keeps_ledger(lifted);
                assert(lifted.pool.contains(tip.spec_hash()) && lifted.pool.map[tip.spec_hash()]
                    == tip) by {
                    if tip != block {
                        assert(self.pool.contains(tip.spec_hash()));
                        assert(tip.spec_hash() != hash);
                    }
                }
                let settled = lifted.settle_valid(hash, standing);
                lifted.lemma_settle_valid_base(hash, standing);
                lifted.lemma_base_keeps_ledger(settled);
                settled.lemma_attempt_switch_ledger(tip);
            },
        }
    }

    /// Taking in a block whose parent is unknown keeps the canonical chain
    /// sound.
    pub proof fn lemma_append_disconnected_ledger(self, block: Arc<B>, parent: H256)
        requires
            block_type_sound::<B>(),
            self.ledger_ok(),
            !self.is_stored(block.spec_hash()),
            block.spec_height() >= 1,
            crate::chain::ledger::apart(block),
        ensures
            self.append_disconnected(block, parent).ledger_ok(),
            self.append_disconnected(block, parent).height >= self.height,
    {
        let hash = block.spec_hash();
        let seeded = ChainState {
            heads: self.heads.insert(hash, seq![hash]),
            tips: self.tips.insert(hash, hash),
            heads_heights: self.heads_heights.insert(hash, (block.spec_height(), hash)),
            heights: crate::heights::levels_put(self.heights, block.spec_height(), hash, 0),
            pool: self.pool.insert(hash, block),
            ..self
        };
        assert(seeded.ledger_ok()) by {
            assert forall|h: H256| #[trigger] seeded.pool.contains(h)
                implies seeded.pool.map[h].spec_hash()
                == h && seeded.pool.map[h].spec_height() >= 1 by {
                if h != hash {
                    assert(self.pool.contains(h));
                }
            }
            assert forall|h: H256| #[trigger] seeded.is_stored(h) implies {
                &&& seeded.stored(h).is_some()
                &&& 1 <= seeded.stored(h).unwrap().spec_height() <= seeded.height
                &&& seeded.link_ok(h)
                &&& !seeded.pool.contains(h)
            } by {
                assert(self.is_stored(h));
            }
            assert forall|h1: H256, h2: H256|
                #![trigger seeded.is_stored(h1), seeded.is_stored(h2)]
                seeded.is_stored(h1) && seeded.is_stored(h2) && seeded.stored(
                    h1,
                ).unwrap().spec_height() == seeded.stored(h2).unwrap().spec_height() implies h1
                == h2 by {
                assert(self.is_stored(h1) && self.is_stored(h2));
            }
        }
        let standing = seeded.attach_standing(hash, OrphanType::DisconnectedTip);
        let attached = seeded.attempt_attach(hash);
        seeded.lemma_attempt_attach_base(hash);
        seeded.lemma_base_keeps_ledger(attached);
        attached.lemma_with_orphan_ledger(block, standing, 0);
        let written = attached.with_orphan(block, standing, 0);
        match attached.matching_valid_tip(parent, 0) {
            Some(tip) => {
                written.lemma_attempt_attach_valid_base(attached.pool.map[tip]);
                written.lemma_base_keeps_ledger(
                    written.attempt_attach_valid(attached.pool.map[tip]),
                );
            },
            None => {},
        }
    }

    /// Taking in a block keeps the canonical chain sound.
    pub proof fn lemma_append_block_ledger(self, block: Arc<B>)
        requires
            block_type_sound::<B>(),
            self.ledger_ok(),
            self.append_error(block).is_none(),
            crate::chain::ledger::apart(block),
        ensures
            self.append_block(block).ledger_ok(),
            self.append_block(block).height >= self.height,
    {
        let parent = block.spec_parent_hash().unwrap();
        assert(!self.knows(block.spec_hash()));
        assert(block.spec_height() >= 1);
        if parent == self.tip.spec_hash() {
            self.lemma_write_block_ledger(block);
            let written = self.write_block(block);
            if block.spec_height() < u64::MAX {
                written.lemma_process_orphans_ledger((block.spec_height() + 1) as u64);
            }
        } else if self.store.contains_key(StoreKey::Block(parent)) {
            self.lemma_append_fork_ledger(block);
        } else if self.pool.contains(parent) {
            self.lemma_append_to_orphan_ledger(block, parent, self.validations.map[parent]);
        } else {
            self.lemma_append_disconnected_ledger(block, parent);
        }
    }

    /// The canonical tip is no orphan.
    pub proof fn lemma_tip_is_no_orphan(self)
        requires
            block_type_sound::<B>(),
            self.ledger_ok(),
        ensures
            !self.pool.contains(self.tip.spec_hash()),
    {
        let hash = self.tip.spec_hash();
        if self.pool.contains(hash) {
            if self.height > 0 {
                assert(self.stored(hash).is_some());
                assert(self.is_stored(hash));
            }
        }
    }
}

} // verus!
