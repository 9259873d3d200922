//! The indexes over the orphan pool: that they stay sound from call to
//! call, as long as the blocks that come in agree with each other.
use crate::block::Block;
use crate::chain::forest::reaches;
use crate::chain::ledger::block_type_sound;
use crate::chain::links::{lemma_reaches_height, link_fits, links};
use crate::chain::state::{deepest, ChainState, DrainStep};
use crate::chain::tallest::{
    lemma_tallest_add_tip, lemma_tallest_insert, lemma_tallest_replace_tip, lemma_tallest_seed,
    tallest, tallest_at,
};
use crate::hash::H256;
use crate::heights::level_seq;
use crate::orphan_type::OrphanType;
use crate::store::StoreKey;
use crate::tip_sets::{sets_add_tip, sets_remove_tip};
use std::sync::Arc;
use vstd::prelude::*;

verus! {

impl<B: Block> ChainState<B> {
    /// What holds of the indexes over the pool: the heights of orphans
    /// and their parents agree, and the record of tallest tips is right.
    pub open spec fn index_ok(self) -> bool {
        &&& self.links_ok()
        &&& self.tallest_ok()
    }

    /// The canonical chain, the disconnected sub-trees and the indexes
    /// over the pool are sound.
    pub open spec fn deep_ok(self) -> bool {
        &&& self.ledger_ok()
        &&& self.forest_ok()
        &&& self.index_ok()
    }

    /// Writing an orphan that extends the tip keeps the indexes sound.
    pub proof fn lemma_write_orphan_deep(self, block: Arc<B>)
        requires
            block_type_sound::<B>(),
            self.deep_ok(),
            self.extends_tip(block),
            self.pool.contains(block.spec_hash()),
            self.pool.map[block.spec_hash()] == block,
        ensures
            self.write_block(block).deep_ok(),
    {
        self.lemma_write_block_ledger(block);
        self.lemma_write_tip_forest(block);
        self.lemma_write_orphan_links(block);
        self.lemma_tip_is_no_orphan();
        self.lemma_write_block_tallest(block);
    }

    /// Writing a new block that extends the tip and agrees with what is
    /// known keeps the indexes sound.
    pub proof fn lemma_write_new_deep(self, block: Arc<B>)
        requires
            block_type_sound::<B>(),
            self.deep_ok(),
            self.extends_tip(block),
            !self.knows(block.spec_hash()),
            self.fits(block),
            crate::chain::ledger::apart(block),
        ensures
            self.write_block(block).deep_ok(),
    {
        self.lemma_write_block_ledger(block);
        self.lemma_write_tip_forest(block);
        self.lemma_write_block_links(block);
        self.lemma_tip_is_no_orphan();
        self.lemma_write_block_tallest(block);
    }

    /// Moving canonical blocks to the pool keeps the record of tallest
    /// tips sound.
    pub proof fn lemma_unwind_tallest(self, path: Seq<Arc<B>>, from: int)
        requires
            crate::chain::ledger::path_is_new(self.pool, path, from),
            self.tallest_ok(),
            0 <= from,
        ensures
            self.unwind(path, from).tallest_ok(),
        decreases path.len() - from,
    {
        if from < path.len() && from <= u64::MAX {
            let block = path[from];
            let next = self.unwind_block(block, from as u64);
            lemma_tallest_insert(
                self.pool,
                self.heads,
                self.heads_heights,
                None,
                None,
                block.spec_hash(),
                block,
            );
            next.lemma_unwind_tallest(path, from + 1);
        }
    }

    /// Rewinding keeps the indexes sound.
    pub proof fn lemma_rewind_deep(self, target: H256)
        requires
            block_type_sound::<B>(),
            self.deep_ok(),
            self.can_rewind(target),
        ensures
            self.rewind(target).deep_ok(),
    {
        self.lemma_rewind_ledger(target);
        self.lemma_rewind_forest(target);
        self.lemma_rewind_links(target);
        if self.tip.spec_hash() != target {
            let path = self.descent(self.tip, target, Seq::empty()).unwrap();
            self.lemma_descent_is_new(target);
            self.lemma_unwind_tallest(path, 0);
        }
    }

    /// Writing a branch of orphans keeps the indexes sound.
    pub proof fn lemma_replay_deep(self, branch: Seq<Arc<B>>, count: int)
        requires
            block_type_sound::<B>(),
            self.deep_ok(),
            self.branch_in_pool(branch, count),
        ensures
            self.replay(branch, count).deep_ok(),
        decreases count,
    {
        if 0 < count <= branch.len() && self.extends_tip(branch[count - 1]) {
            let block = branch[count - 1];
            assert(self.pool.contains(block.spec_hash()));
            self.lemma_write_orphan_deep(block);
            self.lemma_write_block_ledger(block);
            let written = self.write_block(block);
            assert(written.branch_in_pool(branch, count - 1)) by {
                assert forall|i: int| 0 <= i < count - 1 implies written.pool.contains(
                    (#[trigger] branch[i]).spec_hash(),
                ) && written.pool.map[branch[i].spec_hash()] == branch[i] by {
                    assert(branch[i].spec_hash() != branch[count - 1].spec_hash());
                    assert(self.pool.contains(branch[i].spec_hash()));
                }
            }
            written.lemma_replay_deep(branch, count - 1);
        }
    }

    /// Offering the canonical chain a branch keeps the indexes sound.
    pub proof fn lemma_attempt_switch_deep(self, candidate: Arc<B>)
        requires
            block_type_sound::<B>(),
            self.deep_ok(),
            self.pool.contains(candidate.spec_hash()),
            self.pool.map[candidate.spec_hash()] == candidate,
        ensures
            self.attempt_switch(candidate).deep_ok(),
    {
        if self.switches_to(candidate) {
            let (branch, horizon) = self.branch(candidate, Seq::empty()).unwrap();
            self.lemma_branch(candidate, Seq::empty());
            self.lemma_rewind_ledger(horizon);
            self.lemma_rewind_deep(horizon);
            let rewound = self.rewind(horizon);
            assert(rewound.branch_in_pool(branch, branch.len() as int)) by {
                assert forall|i: int| 0 <= i < branch.len() implies self.pool.contains(
                    (#[trigger] branch[i]).spec_hash(),
                ) && self.pool.map[branch[i].spec_hash()] == branch[i] by {}
                assert forall|i: int, j: int| 0 <= i < j < branch.len() implies (
                #[trigger] branch[i]).spec_hash() != (#[trigger] branch[j]).spec_hash() by {
                    assert(branch[i].spec_height() != branch[j].spec_height());
                    assert(self.pool.map[branch[i].spec_hash()] == branch[i]);
                    assert(self.pool.map[branch[j].spec_hash()] == branch[j]);
                }
            }
            rewound.lemma_replay_deep(branch, branch.len() as int);
        }
    }

    /// Writing an orphan where it extends the tip keeps the indexes sound.
    pub proof fn lemma_write_orphan_block_deep(self, hash: H256)
        requires
            block_type_sound::<B>(),
            self.deep_ok(),
        ensures
            self.write_orphan_block(hash).deep_ok(),
            forall|x: H256|
                self.pool.contains(x) && x != hash ==> #[trigger] self.write_orphan_block(
                    hash,
                ).pool.contains(x),
    {
        if self.orphan_extends_tip(hash) {
            let block = self.pool.map[hash];
            assert(block.spec_hash() == hash);
            self.lemma_write_orphan_deep(block);
            if self.is_stored(hash) {
                assert(false);
            }
            self.lemma_write_block_ledger(block);
        }
    }

    /// The orphans that `followers` lists extend the canonical tip.
    pub proof fn lemma_followers(self, entries: Seq<(H256, u64)>, upto: int)
        ensures
            forall|i: int|
                0 <= i < self.followers(entries, upto).len() ==> self.orphan_extends_tip(
                    (#[trigger] self.followers(entries, upto)[i]).0,
                ),
        decreases upto,
    {
        if 0 < upto <= entries.len() {
            self.lemma_followers(entries, upto - 1);
            let before = self.followers(entries, upto - 1);
            let list = self.followers(entries, upto);
            assert forall|i: int| 0 <= i < list.len() implies self.orphan_extends_tip(
                (#[trigger] list[i]).0,
            ) by {
                if i < before.len() {
                    assert(list[i] == before[i]);
                } else {
                    assert(list[i] == entries[upto - 1]);
                }
            }
        }
    }

    /// The drain at one height keeps the indexes sound.
    pub proof fn lemma_drain_level_deep(
        self,
        entries: Seq<(H256, u64)>,
        done: bool,
        working: Seq<H256>,
    )
        requires
            block_type_sound::<B>(),
            self.deep_ok(),
        ensures
            self.drain_level(entries, done, working).0.deep_ok(),
    {
        if entries.len() == 1 {
            self.lemma_write_orphan_block_deep(entries[0].0);
        } else if entries.len() == 0 {
        } else {
            let buf = self.followers(entries, entries.len() as int);
            let (linked, set) = self.relink(entries, 0, working);
            self.lemma_relink_base(entries, 0, working);
            self.lemma_base_keeps_ledger(linked);
            self.lemma_same_forest(linked);
            self.lemma_base_keeps_links(linked);
            self.lemma_same_tallest(linked);
            if buf.len() == 0 {
            } else {
                let winner = if done {
                    None
                } else {
                    Some(buf[deepest(buf, buf.len() as int)].0)
                };
                let written = match winner {
                    Some(hash) => linked.write_orphan_block(hash),
                    None => linked,
                };
                match winner {
                    Some(hash) => {
                        linked.lemma_write_orphan_block_deep(hash);
                    },
                    None => {},
                }
                let kept = written.keep_tips(buf, 0, winner, set).0;
                written.lemma_keep_tips_base(buf, 0, winner, set);
                written.lemma_base_keeps_ledger(kept);
                written.lemma_keep_tips_forest(buf, 0, winner, set);
                written.lemma_base_keeps_links(kept);
                written.lemma_keep_tips_tallest(buf, 0, winner, set);
            }
        }
    }

    /// Putting a block that agrees with what is known into the pool keeps
    /// the indexes sound.
    pub proof fn lemma_with_orphan_deep(self, block: Arc<B>, standing: OrphanType, inverse: u64)
        requires
            block_type_sound::<B>(),
            self.ledger_ok(),
            self.forest_ok(),
            self.links_ok(),
            self.tallest_ok(),
            !self.is_stored(block.spec_hash()),
            self.pool.contains(block.spec_hash()) ==> self.pool.map[block.spec_hash()] == block,
            block.spec_height() >= 1,
            self.fits(block),
            crate::chain::ledger::apart(block),
        ensures
            self.with_orphan(block, standing, inverse).deep_ok(),
    {
        let hash = block.spec_hash();
        self.lemma_with_orphan_ledger(block, standing, inverse);
        self.lemma_with_orphan_forest(block, standing, inverse);
        self.lemma_insert_links(block, self.pool.insert(hash, block));
        lemma_tallest_insert(self.pool, self.heads, self.heads_heights, None, None, hash, block);
    }

    /// A step that leaves the pool, the store and the disconnected
    /// sub-trees as they are keeps the indexes sound.
    pub proof fn lemma_frames_keep_deep(self, after: Self)
        requires
            self.deep_ok(),
            self.same_base(after),
            self.same_forest(after),
        ensures
            after.deep_ok(),
    {
        self.lemma_base_keeps_ledger(after);
        self.lemma_same_forest(after);
        self.lemma_base_keeps_links(after);
        self.lemma_same_tallest(after);
    }

    /// Offering a valid tip to the disconnected sub-trees keeps the
    /// indexes sound.
    pub proof fn lemma_attempt_attach_valid_deep(self, tip: Arc<B>)
        requires
            self.deep_ok(),
        ensures
            self.attempt_attach_valid(tip).deep_ok(),
            self.same_base(self.attempt_attach_valid(tip)),
    {
        let after = self.attempt_attach_valid(tip);
        self.lemma_attempt_attach_valid_base(tip);
        self.lemma_base_keeps_ledger(after);
        self.lemma_attempt_attach_valid_forest(tip);
        self.lemma_base_keeps_links(after);
        self.lemma_attempt_attach_valid_tallest(tip);
    }

    /// Raising the inverse heights from an orphan keeps the indexes
    /// sound.
    pub proof fn lemma_recurse_inverse_deep(self, orphan: Arc<B>, start: u64, make_valid: bool)
        requires
            self.deep_ok(),
        ensures
            self.recurse_inverse(orphan, start, make_valid).deep_ok(),
    {
        let after = self.recurse_inverse(orphan, start, make_valid);
        self.lemma_recurse_inverse_base(orphan, start, make_valid);
        self.lemma_frames_keep_deep(after);
    }

    /// Taking a block that lies inside a valid chain out of the valid tips
    /// keeps the indexes sound.
    pub proof fn lemma_settle_valid_deep(self, hash: H256, standing: OrphanType)
        requires
            self.deep_ok(),
        ensures
            self.settle_valid(hash, standing).deep_ok(),
    {
        self.lemma_settle_valid_base(hash, standing);
        self.lemma_frames_keep_deep(self.settle_valid(hash, standing));
    }

    /// Keeping the orphans that extend the canonical tip and are not
    /// written keeps the record of tallest tips sound.
    pub proof fn lemma_keep_tips_tallest(
        self,
        entries: Seq<(H256, u64)>,
        from: int,
        written: Option<H256>,
        working: Seq<H256>,
    )
        requires
            self.tallest_ok(),
        ensures
            self.keep_tips(entries, from, written, working).0.tallest_ok(),
        decreases entries.len() - from,
    {
        if 0 <= from < entries.len() {
            let hash = entries[from].0;
            if written == Some(hash) {
                self.lemma_keep_tips_tallest(entries, from + 1, written, working);
            } else {
                self.lemma_make_valid_tips_tallest(hash);
                self.keep_tip(hash).lemma_keep_tips_tallest(
                    entries,
                    from + 1,
                    written,
                    crate::tip_sets::with_tip(working, hash),
                );
            }
        }
    }

    /// What follows once a block stands as a tip in the sub-tree of a head
    /// keeps the indexes sound.
    pub proof fn lemma_settle_disconnected_deep(self, block: Arc<B>, head: H256, again: bool)
        requires
            block_type_sound::<B>(),
            self.deep_ok(),
            self.tips.map.contains_key(block.spec_hash()),
            self.tips.map[block.spec_hash()] == head,
            head != block.spec_hash(),
            self.pool.map[block.spec_hash()] == block,
        ensures
            self.settle_disconnected(block, head, again).deep_ok(),
    {
        let hash = block.spec_hash();
        let after = self.settle_disconnected(block, head, again);
        self.lemma_settle_disconnected_base(block, head, again);
        self.lemma_base_keeps_ledger(after);
        self.lemma_base_keeps_links(after);
        self.lemma_settle_disconnected_forest(block, head, again);
        self.lemma_settle_disconnected_tallest(block, head, again);
    }

    /// The head that `tallest_follower` finds follows the tip.
    pub proof fn lemma_tallest_follower_follows(self, tip: H256, from: int, best: Option<H256>)
        requires
            0 <= from,
            match best {
                Some(b) => self.follows(b, tip),
                None => true,
            },
        ensures
            match self.tallest_follower(tip, from, best) {
                Some(head) => self.follows(head, tip),
                None => true,
            },
        decreases self.heads_heights.order.len() - from,
    {
        if from < self.heads_heights.order.len() {
            let head = self.heads_heights.order[from];
            let better = self.follows(head, tip) && (best.is_none()
                || self.heads_heights.map[head].0
                > self.heads_heights.map[best.unwrap()].0);
            self.lemma_tallest_follower_follows(
                tip,
                from + 1,
                if better {
                    Some(head)
                } else {
                    best
                },
            );
        }
    }

    /// Taking in a fork of the canonical chain keeps the indexes sound.
    pub proof fn lemma_append_fork_deep(self, block: Arc<B>)
        requires
            block_type_sound::<B>(),
            self.deep_ok(),
            !self.knows(block.spec_hash()),
            block.spec_height() >= 1,
            self.fits(block),
            crate::chain::ledger::apart(block),
        ensures
            self.append_fork(block).deep_ok(),
    {
        let written = self.with_orphan(block, OrphanType::ValidChainTip, 0);
        self.lemma_with_orphan_deep(block, OrphanType::ValidChainTip, 0);
        written.lemma_attempt_attach_valid_deep(block);
        written.lemma_attach_valid_tip(block);
        let attached = written.attempt_attach_valid(block);
        let standing = written.attach_valid_standing(block);
        let settled = attached.settle_valid(block.spec_hash(), standing);
        attached.lemma_settle_valid_deep(block.spec_hash(), standing);
        if standing != OrphanType::ValidChainTip {
            settled.lemma_attempt_switch_deep(written.attach_valid_tip(block));
        }
    }

    /// Taking in a block whose parent is the tip of a valid chain keeps
    /// the indexes sound.
    pub proof fn lemma_append_to_valid_tip_deep(self, block: Arc<B>, parent: H256)
        requires
            block_type_sound::<B>(),
            self.deep_ok(),
            !self.knows(block.spec_hash()),
            block.spec_height() >= 1,
            self.fits(block),
            block.spec_parent_hash() == Some(parent),
            self.pool.contains(parent),
            crate::chain::ledger::apart(block),
        ensures
            self.append_to_valid_tip(block, parent).deep_ok(),
    {
        let hash = block.spec_hash();
        let marked = self.mark(parent, OrphanType::BelongsToValidChain);
        self.lemma_frames_keep_deep(marked);
        marked.lemma_with_orphan_deep(block, OrphanType::ValidChainTip, 0);
        let written = marked.with_orphan(block, OrphanType::ValidChainTip, 0);
        let tip = written.attach_valid_tip(block);
        let inverse = written.attach_valid_inverse(block);
        written.lemma_attach_valid_tip(block);
        written.lemma_attempt_attach_valid_deep(block);
        let attached = written.attempt_attach_valid(block);
        attached.lemma_recurse_inverse_deep(block, inverse, inverse == 0);
        attached.lemma_recurse_inverse_base(block, inverse, inverse == 0);
        let lifted = attached.recurse_inverse(block, inverse, inverse == 0);
        let tipped = lifted.settle_valid(hash, written.attach_valid_standing(block));
        lifted.lemma_settle_valid_deep(hash, written.attach_valid_standing(block));
        tipped.lemma_attempt_switch_deep(tip);
    }

    /// No valid tip is an orphan with a hash that no orphan has.
    pub proof fn lemma_no_matching_valid_tip(self, hash: H256, from: int)
        requires
            self.ledger_ok(),
            !self.pool.contains(hash),
            0 <= from,
        ensures
            self.matching_valid_tip(hash, from).is_none(),
        decreases self.valid_tips.order.len() - from,
    {
        if from < self.valid_tips.order.len() {
            let tip = self.valid_tips.order[from];
            if self.pool.contains(tip) {
                assert(self.pool.map[tip].spec_hash() == tip);
            }
            self.lemma_no_matching_valid_tip(hash, from + 1);
        }
    }

    /// Taking in a block whose parent is unknown keeps the indexes sound.
    pub proof fn lemma_append_disconnected_deep(self, block: Arc<B>, parent: H256)
        requires
            block_type_sound::<B>(),
            self.deep_ok(),
            !self.knows(block.spec_hash()),
            block.spec_height() >= 1,
            self.fits(block),
            block.spec_parent_hash() == Some(parent),
            !self.pool.contains(parent),
            crate::chain::ledger::apart(block),
        ensures
            self.append_disconnected(block, parent).deep_ok(),
    {
        let hash = block.spec_hash();
        let seeded = ChainState {
            heads: self.heads.insert(hash, seq![hash]),
            tips: self.tips.insert(hash, hash),
            heads_heights: self.heads_heights.insert(hash, (block.spec_height(), hash)),
            heights: crate::heights::levels_put(self.heights, block.spec_height(), hash, 0),
            pool: self.pool.insert(hash, block),
            ..self
        };
        self.lemma_append_disconnected_ledger(block, parent);
        // the seeded state
        assert(seeded.ledger_ok()) by {
            assert forall|h: H256| #[trigger] seeded.pool.contains(h)
                implies seeded.pool.map[h].spec_hash()
                == h && seeded.pool.map[h].spec_height() >= 1 by {
                if h != hash {
                    assert(self.pool.contains(h));
                }
            }
            assert forall|h: H256| #[trigger] seeded.is_stored(h) implies {
                &&& seeded.stored(h).is_some()
                &&& 1 <= seeded.stored(h).unwrap().spec_height() <= seeded.height
                &&& seeded.link_ok(h)
                &&& !seeded.pool.contains(h)
            } by {
                assert(self.is_stored(h));
            }
            assert forall|h1: H256, h2: H256|
                #![trigger seeded.is_stored(h1), seeded.is_stored(h2)]
                seeded.is_stored(h1) && seeded.is_stored(h2) && seeded.stored(
                    h1,
                ).unwrap().spec_height() == seeded.stored(h2).unwrap().spec_height() implies h1
                == h2 by {
                assert(self.is_stored(h1) && self.is_stored(h2));
            }
        }
        crate::chain::forest::lemma_forest_seed(self.pool, self.heads, self.tips, hash, block);
        self.lemma_insert_links(block, seeded.pool);
        lemma_tallest_seed(self.pool, self.heads, self.heads_heights, hash, block);
        // the sub-trees that follow the block are attached
        let standing = seeded.attach_standing(hash, OrphanType::DisconnectedTip);
        let attached = seeded.attempt_attach(hash);
        seeded.lemma_attempt_attach_base(hash);
        seeded.lemma_base_keeps_ledger(attached);
        seeded.lemma_base_keeps_links(attached);
        seeded.lemma_attempt_attach_forest(hash);
        seeded.lemma_attempt_attach_tallest(hash);
        seeded.lemma_attempt_attach_plain(hash);
        assert(attached.tallest_ok()) by {
            if seeded.attached_heads(hash).len() > 0 {
                assert(tallest_at(
                    attached.pool,
                    attached.heads,
                    attached.heads_heights,
                    hash,
                    Some(hash),
                ));
                assert(attached.heads_heights.map[hash].1 != hash);
                attached.lemma_tallest_settled(hash, hash);
            }
        }
        // the block gets its standing
        assert(attached.fits(block)) by {
            assert(attached.store == self.store);
            assert(link_fits(attached.pool, attached.store, attached.pool.map[hash]));
            assert forall|x: H256|
                #[trigger] attached.pool.contains(x) && attached.pool.map[x].spec_parent_hash()
                    == Some(hash) implies attached.pool.map[x].spec_height() == block.spec_height()
                + 1 by {
                assert(link_fits(attached.pool, attached.store, attached.pool.map[x]));
            }
        }
        attached.lemma_with_orphan_deep(block, standing, 0);
        assert(parent != hash);
        attached.lemma_no_matching_valid_tip(parent, 0);
    }

}

} // verus!
