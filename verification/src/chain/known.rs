//! The blocks that a chain knows: no step forgets one, and a block that
//! was taken in is known afterwards.
use crate::block::Block;
use crate::chain::state::{deepest, ChainState, DrainStep};
use crate::hash::H256;
use crate::heights::level_seq;
use crate::orphan_type::OrphanType;
use crate::store::StoreKey;
use crate::tip_sets::{sets_add_tip, sets_remove_tip};
use std::sync::Arc;
use vstd::prelude::*;

verus! {

impl<B: Block> ChainState<B> {
    /// Every canonical block or orphan of `self` is a canonical block or
    /// an orphan of `after`.
    pub open spec fn keeps_known(self, after: Self) -> bool {
        forall|x: H256| self.knows(x) ==> #[trigger] after.knows(x)
    }

    /// A step that leaves the store and the pool as they are forgets no
    /// block.
    pub proof fn lemma_base_keeps_known(self, after: Self)
        requires
            self.same_base(after),
        ensures
            self.keeps_known(after),
    {
    }

    /// Two steps that forget no block, one behind the other, forget none.
    pub proof fn lemma_known_then(self, mid: Self, after: Self)
        requires
            self.keeps_known(mid),
            mid.keeps_known(after),
        ensures
            self.keeps_known(after),
    {
        assert forall|x: H256| self.knows(x) implies #[trigger] after.knows(x) by {
            assert(mid.knows(x));
        }
    }

    /// Writing a block forgets no block, and the block is canonical
    /// afterwards.
    pub proof fn lemma_write_block_known(self, block: Arc<B>)
        ensures
            self.keeps_known(self.write_block(block)),
            self.write_block(block).store.contains_key(StoreKey::Block(block.spec_hash())),
    {
        let hash = block.spec_hash();
        let written = self.written(block);
        if self.heads.contains(hash) {
            written.lemma_promote_tips_base(self.heads.map[hash], 0, Some(hash), false);
        }
        assert forall|x: H256| self.knows(x) implies #[trigger] self.write_block(block).knows(
            x,
        ) by {
            assert(written.knows(x));
        }
    }

    /// Moving canonical blocks to the pool forgets no block.
    pub proof fn lemma_unwind_known(self, path: Seq<Arc<B>>, from: int)
        requires
            0 <= from,
        ensures
            self.keeps_known(self.unwind(path, from)),
        decreases path.len() - from,
    {
        if from < path.len() && from <= u64::MAX {
            let next = self.unwind_block(path[from], from as u64);
            assert(self.keeps_known(next));
            next.lemma_unwind_known(path, from + 1);
            self.lemma_known_then(next, self.unwind(path, from));
        }
    }

    /// Rewinding forgets no block.
    pub proof fn lemma_rewind_known(self, target: H256)
        ensures
            self.keeps_known(self.rewind(target)),
    {
        if self.tip.spec_hash() != target {
            let path = self.descent(self.tip, target, Seq::empty()).unwrap();
            let unwound = self.unwind(path, 0);
            self.lemma_unwind_known(path, 0);
            assert(unwound.keeps_known(self.rewind(target)));
            self.lemma_known_then(unwound, self.rewind(target));
        }
    }

    /// Writing a branch of orphans forgets no block.
    pub proof fn lemma_replay_known(self, branch: Seq<Arc<B>>, count: int)
        ensures
            self.keeps_known(self.replay(branch, count)),
        decreases count,
    {
        if 0 < count <= branch.len() && self.extends_tip(branch[count - 1]) {
            let written = self.write_block(branch[count - 1]);
            self.lemma_write_block_known(branch[count - 1]);
            written.lemma_replay_known(branch, count - 1);
            self.lemma_known_then(written, self.replay(branch, count));
        }
    }

    /// Offering the canonical chain a branch forgets no block.
    pub proof fn lemma_attempt_switch_known(self, candidate: Arc<B>)
        ensures
            self.keeps_known(self.attempt_switch(candidate)),
    {
        if self.switches_to(candidate) {
            let (branch, horizon) = self.branch(candidate, Seq::empty()).unwrap();
            let rewound = self.rewind(horizon);
            self.lemma_rewind_known(horizon);
            rewound.lemma_replay_known(branch, branch.len() as int);
            self.lemma_known_then(rewound, self.attempt_switch(candidate));
        }
    }

    /// Writing an orphan where it extends the tip forgets no block.
    pub proof fn lemma_write_orphan_block_known(self, hash: H256)
        ensures
            self.keeps_known(self.write_orphan_block(hash)),
    {
        if self.orphan_extends_tip(hash) {
            self.lemma_write_block_known(self.pool.map[hash]);
        }
    }

    /// The drain at one height forgets no block.
    pub proof fn lemma_drain_level_known(
        self,
        entries: Seq<(H256, u64)>,
        done: bool,
        working: Seq<H256>,
    )
        ensures
            self.keeps_known(self.drain_level(entries, done, working).0),
    {
        if entries.len() == 1 {
            self.lemma_write_orphan_block_known(entries[0].0);
        } else if entries.len() == 0 {
        } else {
            let buf = self.followers(entries, entries.len() as int);
            let (linked, set) = self.relink(entries, 0, working);
            self.lemma_relink_base(entries, 0, working);
            self.lemma_base_keeps_known(linked);
            if buf.len() == 0 {
            } else {
                let winner = if done {
                    None
                } else {
                    Some(buf[deepest(buf, buf.len() as int)].0)
                };
                let written = match winner {
                    Some(hash) => linked.write_orphan_block(hash),
                    None => linked,
                };
                match winner {
                    Some(hash) => {
                        linked.lemma_write_orphan_block_known(hash);
                    },
                    None => {},
                }
                self.lemma_known_then(linked, written);
                let kept = written.keep_tips(buf, 0, winner, set).0;
                written.lemma_keep_tips_base(buf, 0, winner, set);
                written.lemma_base_keeps_known(kept);
                self.lemma_known_then(written, kept);
            }
        }
    }

    /// The drain forgets no block.
    pub proof fn lemma_drain_known(self, height: u64, max: u64, done: bool, working: Seq<H256>)
        ensures
            self.keeps_known(self.drain(height, max, done, working)),
        decreases max - height, (if done { 0int } else { 1int }),
    {
        if height <= max {
            let (next, set, step) = if self.heights.contains_key(height) {
                self.drain_level(level_seq(self.heights[height]), done, working)
            } else {
                (self, working, DrainStep::Advance)
            };
            if self.heights.contains_key(height) {
                self.lemma_drain_level_known(level_seq(self.heights[height]), done, working);
            }
            match step {
                DrainStep::Stop => {},
                DrainStep::Advance => {
                    if height < max {
                        next.lemma_drain_known((height + 1) as u64, max, done, set);
                    }
                },
                DrainStep::AdvanceDone => {
                    if height < max {
                        next.lemma_drain_known((height + 1) as u64, max, true, set);
                    }
                },
                DrainStep::Repeat => {
                    if !done {
                        next.lemma_drain_known(height, max, true, set);
                    }
                },
            }
            self.lemma_known_then(next, self.drain(height, max, done, working));
        }
    }

    /// What follows once a block stands as a tip in the sub-tree of a head
    /// forgets no block.
    pub proof fn lemma_settle_disconnected_known(self, block: Arc<B>, head: H256, again: bool)
        ensures
            self.keeps_known(self.settle_disconnected(block, head, again)),
    {
        self.lemma_settle_disconnected_base(block, head, again);
    }

    /// Offering a valid tip to the disconnected sub-trees, raising the
    /// inverse heights from `from`, settling the standing of `hash` and
    /// offering the canonical chain the branch of `tip` forget no block.
    pub proof fn lemma_attach_and_switch_known(
        self,
        offered: Arc<B>,
        from: Arc<B>,
        inverse: u64,
        hash: H256,
        standing: OrphanType,
        tip: Arc<B>,
    )
        ensures
            self.keeps_known(
                self.attempt_attach_valid(offered).recurse_inverse(
                    from,
                    inverse,
                    inverse == 0,
                ).settle_valid(hash, standing).attempt_switch(tip),
            ),
    {
        let attached = self.attempt_attach_valid(offered);
        self.lemma_attempt_attach_valid_base(offered);
        let lifted = attached.recurse_inverse(from, inverse, inverse == 0);
        attached.lemma_recurse_inverse_base(from, inverse, inverse == 0);
        let settled = lifted.settle_valid(hash, standing);
        lifted.lemma_settle_valid_base(hash, standing);
        settled.lemma_attempt_switch_known(tip);
        self.lemma_known_then(attached, lifted);
        self.lemma_known_then(lifted, settled);
        self.lemma_known_then(settled, settled.attempt_switch(tip));
    }

    /// A block that was taken in is a canonical block or an orphan
    /// afterwards, and no block that was known before is forgotten.
    pub proof fn lemma_append_block_known(self, block: Arc<B>)
        requires
            self.append_error(block).is_none(),
        ensures
            self.append_block(block).knows(block.spec_hash()),
            self.keeps_known(self.append_block(block)),
    {
        let hash = block.spec_hash();
        let parent = block.spec_parent_hash().unwrap();
        let after = self.append_block(block);
        if parent == self.tip.spec_hash() {
            let written = self.write_block(block);
            self.lemma_write_block_known(block);
            assert(written.knows(hash));
            if block.spec_height() < u64::MAX {
                match written.max_orphan_height {
                    Some(max) => {
                        written.lemma_drain_known(
                            (block.spec_height() + 1) as u64,
                            max,
                            false,
                            Seq::empty(),
                        );
                    },
                    None => {},
                }
            }
            self.lemma_known_then(written, after);
        } else if self.store.contains_key(StoreKey::Block(parent)) {
            let written = self.with_orphan(block, OrphanType::ValidChainTip, 0);
            assert(self.keeps_known(written));
            assert(written.knows(hash));
            let standing = written.attach_valid_standing(block);
            let attached = written.attempt_attach_valid(block);
            written.lemma_attempt_attach_valid_base(block);
            let settled = attached.settle_valid(hash, standing);
            attached.lemma_settle_valid_base(hash, standing);
            settled.lemma_attempt_switch_known(written.attach_valid_tip(block));
            written.lemma_known_then(attached, settled);
            written.lemma_known_then(settled, after);
            self.lemma_known_then(written, after);
        } else if self.pool.contains(parent) {
            self.lemma_append_to_orphan_known(block, parent, self.validations.map[parent]);
        } else {
            let seeded = ChainState {
                heads: self.heads.insert(hash, seq![hash]),
                tips: self.tips.insert(hash, hash),
                heads_heights: self.heads_heights.insert(hash, (block.spec_height(), hash)),
                heights: crate::heights::levels_put(self.heights, block.spec_height(), hash, 0),
                pool: self.pool.insert(hash, block),
                ..self
            };
            assert(self.keeps_known(seeded));
            assert(seeded.knows(hash));
            let standing = seeded.attach_standing(hash, OrphanType::DisconnectedTip);
            let attached = seeded.attempt_attach(hash);
            seeded.lemma_attempt_attach_base(hash);
            let written = attached.with_orphan(block, standing, 0);
            assert(attached.keeps_known(written));
            seeded.lemma_known_then(attached, written);
            match attached.matching_valid_tip(parent, 0) {
                Some(tip) => {
                    written.lemma_attempt_attach_valid_base(attached.pool.map[tip]);
                },
                None => {},
            }
            seeded.lemma_known_then(written, after);
            self.lemma_known_then(seeded, after);
        }
    }

    /// A block whose parent is an orphan is an orphan or a canonical block
    /// once it was taken in, and no block that was known before is
    /// forgotten.
    pub proof fn lemma_append_to_orphan_known(
        self,
        block: Arc<B>,
        parent: H256,
        standing: OrphanType,
    )
        ensures
            self.append_to_orphan(block, parent, standing).knows(block.spec_hash()),
            self.keeps_known(self.append_to_orphan(block, parent, standing)),
    {
        let hash = block.spec_hash();
        let after = self.append_to_orphan(block, parent, standing);
        match standing {
            OrphanType::DisconnectedTip => {
                let head = self.tips.map[parent];
                let largest = self.heads_heights.map[head].0;
                let replaced = ChainState {
                    validations: self.validations.insert(parent, OrphanType::BelongsToDisconnected),
                    heads: sets_add_tip(sets_remove_tip(self.heads, head, parent), head, hash),
                    tips: self.tips.remove(parent),
                    heads_heights: if block.spec_height() > largest {
                        self.heads_heights.insert(head, (block.spec_height(), hash))
                    } else {
                        self.heads_heights
                    },
                    ..self
                };
                let written = replaced.with_orphan(block, OrphanType::DisconnectedTip, 0);
                let tipped = ChainState { tips: written.tips.insert(hash, head), ..written };
                assert(self.keeps_known(tipped));
                assert(tipped.knows(hash));
                tipped.lemma_settle_disconnected_known(block, head, false);
                self.lemma_known_then(tipped, after);
            },
            OrphanType::ValidChainTip => {
                let written = self.mark(parent, OrphanType::BelongsToValidChain).with_orphan(
                    block,
                    OrphanType::ValidChainTip,
                    0,
                );
                assert(self.keeps_known(written));
                assert(written.knows(hash));
                written.lemma_attach_and_switch_known(
                    block,
                    block,
                    written.attach_valid_inverse(block),
                    hash,
                    written.attach_valid_standing(block),
                    written.attach_valid_tip(block),
                );
                self.lemma_known_then(written, after);
            },
            OrphanType::BelongsToDisconnected => {
                let head = self.head_above(parent, block.spec_height()).unwrap();
                let written = self.with_orphan(block, OrphanType::DisconnectedTip, 0);
                let tipped = ChainState {
                    heads: sets_add_tip(written.heads, head, hash),
                    tips: written.tips.insert(hash, head),
                    ..written
                };
                assert(self.keeps_known(tipped));
                assert(tipped.knows(hash));
                tipped.lemma_settle_disconnected_known(block, head, true);
                self.lemma_known_then(tipped, after);
            },
            OrphanType::BelongsToValidChain => {
                let tipped = ChainState { valid_tips: self.valid_tips.insert(hash, ()), ..self };
                let tip = tipped.attach_valid_tip(block);
                let inverse = tipped.attach_valid_inverse(block);
                let standing = tipped.attach_valid_standing(block);
                let attached = tipped.attempt_attach_valid(block);
                tipped.lemma_attempt_attach_valid_base(block);
                let written = attached.with_orphan(block, standing, inverse);
                assert(self.keeps_known(written));
                assert(written.knows(hash));
                let lifted = written.recurse_inverse(tip, inverse, inverse == 0);
                written.lemma_recurse_inverse_base(tip, inverse, inverse == 0);
                let settled = lifted.settle_valid(hash, standing);
                lifted.lemma_settle_valid_base(hash, standing);
                settled.lemma_attempt_switch_known(tip);
                written.lemma_known_then(lifted, settled);
                written.lemma_known_then(settled, after);
                self.lemma_known_then(written, after);
            },
        }
    }
}

} // verus!
