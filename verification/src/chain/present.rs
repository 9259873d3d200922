//! That every orphan has a standing, and that the valid tips are the
//! orphans that stand as tips of valid chains: what holds of the two after
//! every call, whatever blocks come in.
use crate::block::Block;
use crate::chain::ledger::block_type_sound;
use crate::chain::state::{deepest, ChainState, DrainStep};
use crate::hash::H256;
use crate::heights::level_seq;
use crate::ordered_map::Entries;
use crate::orphan_type::OrphanType;
use crate::store::StoreKey;
use crate::tip_sets::{sets_add_tip, sets_remove_tip};
use std::sync::Arc;
use vstd::prelude::*;

verus! {

/// `hash` is among the valid tips if and only if it stands as the tip of
/// a valid chain.
pub open spec fn paired(validations: Entries<OrphanType>, valid_tips: Entries<()>, hash: H256) -> bool {
    valid_tips.map.contains_key(hash) <==> (validations.map.contains_key(hash)
        && validations.map[hash] == OrphanType::ValidChainTip)
}

/// Every orphan but `exempt` has a standing, every valid tip but `exempt`
/// is an orphan, and every hash but `exempt` is a valid tip if and only
/// if it stands as the tip of a valid chain.
pub open spec fn present<B: Block>(
    pool: Entries<Arc<B>>,
    validations: Entries<OrphanType>,
    valid_tips: Entries<()>,
    exempt: Option<H256>,
) -> bool {
    &&& forall|x: H256|
        #[trigger] pool.contains(x) && exempt != Some(x) ==> validations.map.contains_key(x)
    &&& forall|x: H256|
        #[trigger] valid_tips.map.contains_key(x) && exempt != Some(x) ==> pool.contains(x)
    &&& forall|x: H256| exempt != Some(x) ==> #[trigger] paired(validations, valid_tips, x)
}

impl<B: Block> ChainState<B> {
    /// Every orphan of the state but `exempt` has a standing, every valid
    /// tip but `exempt` is an orphan, and every hash but `exempt` is a
    /// valid tip if and only if it stands as the tip of a valid chain.
    pub open spec fn present_ok(self, exempt: Option<H256>) -> bool {
        present(self.pool, self.validations, self.valid_tips, exempt)
    }

    /// From `self` to `after` the pool stays as it is, no standing is
    /// lost, every new valid tip is an orphan, and whatever was a valid
    /// tip if and only if it stood as one is so still.
    pub open spec fn adds(self, after: Self) -> bool {
        &&& after.pool == self.pool
        &&& forall|x: H256|
            self.validations.map.contains_key(x) ==> #[trigger] after.validations.map.contains_key(
                x,
            )
        &&& forall|x: H256| #[trigger]
            after.valid_tips.map.contains_key(x) ==> self.valid_tips.map.contains_key(x)
                || self.pool.contains(x)
        &&& forall|x: H256|
            paired(self.validations, self.valid_tips, x) ==> #[trigger] paired(
                after.validations,
                after.valid_tips,
                x,
            )
    }

    /// A step that loses no standing, makes only orphans valid tips and
    /// keeps the valid tips in step with the standings keeps the
    /// standings present.
    pub proof fn lemma_adds_keep_present(self, after: Self, exempt: Option<H256>)
        requires
            self.present_ok(exempt),
            self.adds(after),
        ensures
            after.present_ok(exempt),
    {
        assert forall|x: H256|
            #[trigger] after.pool.contains(x) && exempt != Some(x)
            implies after.validations.map.contains_key(x) by {
            assert(self.pool.contains(x));
        }
        assert forall|x: H256|
            #[trigger] after.valid_tips.map.contains_key(x) && exempt != Some(x)
            implies after.pool.contains(x) by {
            if self.valid_tips.map.contains_key(x) {
            }
        }
        assert forall|x: H256| exempt != Some(x) implies #[trigger] paired(
            after.validations,
            after.valid_tips,
            x,
        ) by {
            assert(paired(self.validations, self.valid_tips, x));
        }
    }

    /// Two such steps, one behind the other, make one such step.
    pub proof fn lemma_adds_then(self, mid: Self, after: Self)
        requires
            self.adds(mid),
            mid.adds(after),
        ensures
            self.adds(after),
    {
        assert forall|x: H256|
            self.validations.map.contains_key(x)
            implies #[trigger] after.validations.map.contains_key(x) by {
            assert(mid.validations.map.contains_key(x));
        }
        assert forall|x: H256| #[trigger] after.valid_tips.map.contains_key(x)
            implies self.valid_tips.map.contains_key(x) || self.pool.contains(x) by {
            if mid.valid_tips.map.contains_key(x) {
            }
        }
        assert forall|x: H256| paired(self.validations, self.valid_tips, x) implies #[trigger] paired(
            after.validations,
            after.valid_tips,
            x,
        ) by {
            assert(paired(mid.validations, mid.valid_tips, x));
        }
    }

    /// Giving an orphan or a valid tip a standing loses no standing and
    /// keeps the valid tips in step with the standings.
    pub proof fn lemma_mark_adds(self, hash: H256, standing: OrphanType)
        requires
            standing == OrphanType::ValidChainTip ==> self.pool.contains(hash)
                || self.valid_tips.map.contains_key(hash),
        ensures
            self.adds(self.mark(hash, standing)),
    {
        let after = self.mark(hash, standing);
        assert forall|x: H256| paired(self.validations, self.valid_tips, x) implies #[trigger] paired(
            after.validations,
            after.valid_tips,
            x,
        ) by {}
    }

    /// Marking the ancestors of an orphan as members of a valid chain
    /// loses no standing and makes nothing a valid tip.
    pub proof fn lemma_mark_ancestors_adds(
        self,
        parent: Option<H256>,
        below: u64,
        stop_at_valid: bool,
    )
        ensures
            self.adds(self.mark_ancestors(parent, below, stop_at_valid)),
        decreases below,
    {
        if self.steps_to(parent, below) {
            let p = parent.unwrap();
            let block = self.pool.map[p];
            if stop_at_valid && self.validations.get(p) == Some(OrphanType::BelongsToValidChain) {
            } else {
                let next = self.mark(p, OrphanType::BelongsToValidChain);
                self.lemma_mark_adds(p, OrphanType::BelongsToValidChain);
                next.lemma_mark_ancestors_adds(
                    block.spec_parent_hash(),
                    block.spec_height(),
                    stop_at_valid,
                );
                self.lemma_adds_then(next, self.mark_ancestors(parent, below, stop_at_valid));
            }
        }
    }

    /// Raising the inverse heights of the ancestors of an orphan loses no
    /// standing and makes nothing a valid tip.
    pub proof fn lemma_lift_ancestors_adds(
        self,
        parent: Option<H256>,
        below: u64,
        inverse: u64,
        make_valid: bool,
    )
        ensures
            self.adds(self.lift_ancestors(parent, below, inverse, make_valid)),
        decreases below,
    {
        if self.steps_to(parent, below) && inverse < u64::MAX {
            let p = parent.unwrap();
            let block = self.pool.map[p];
            let lifted = self.lift(block.spec_height(), p, (inverse + 1) as u64);
            let marked = if make_valid {
                lifted.mark(p, OrphanType::BelongsToValidChain)
            } else {
                lifted
            };
            assert(self.adds(lifted));
            lifted.lemma_mark_adds(p, OrphanType::BelongsToValidChain);
            self.lemma_adds_then(lifted, marked);
            marked.lemma_lift_ancestors_adds(
                block.spec_parent_hash(),
                block.spec_height(),
                (inverse + 1) as u64,
                make_valid,
            );
            self.lemma_adds_then(
                marked,
                self.lift_ancestors(parent, below, inverse, make_valid),
            );
        }
    }

    /// Raising the inverse heights from an orphan loses no standing and
    /// makes nothing but that orphan a valid tip.
    pub proof fn lemma_recurse_inverse_adds(self, orphan: Arc<B>, start: u64, make_valid: bool)
        requires
            make_valid ==> self.pool.contains(orphan.spec_hash())
                || self.valid_tips.map.contains_key(orphan.spec_hash()),
        ensures
            self.adds(self.recurse_inverse(orphan, start, make_valid)),
    {
        let first = if make_valid {
            self.mark(orphan.spec_hash(), OrphanType::ValidChainTip)
        } else {
            self
        };
        if make_valid {
            self.lemma_mark_adds(orphan.spec_hash(), OrphanType::ValidChainTip);
        }
        first.lemma_lift_ancestors_adds(
            orphan.spec_parent_hash(),
            orphan.spec_height(),
            start,
            make_valid,
        );
        self.lemma_adds_then(first, self.recurse_inverse(orphan, start, make_valid));
    }

    /// Promoting a tip loses no standing and makes nothing but that tip,
    /// where it is an orphan, a valid tip.
    pub proof fn lemma_promote_tip_adds(self, tip: H256, stop_at_valid: bool)
        ensures
            self.adds(self.promote_tip(tip, stop_at_valid)),
    {
        if self.pool.contains(tip) {
            let block = self.pool.map[tip];
            let first = ChainState {
                validations: self.validations.insert(tip, OrphanType::ValidChainTip),
                tips: self.tips.remove(tip),
                valid_tips: self.valid_tips.insert(tip, ()),
                ..self
            };
            assert(self.adds(first)) by {
                assert forall|x: H256|
                    paired(self.validations, self.valid_tips, x) implies #[trigger] paired(
                    first.validations,
                    first.valid_tips,
                    x,
                ) by {}
            }
            first.lemma_mark_ancestors_adds(
                block.spec_parent_hash(),
                block.spec_height(),
                stop_at_valid,
            );
            self.lemma_adds_then(first, self.promote_tip(tip, stop_at_valid));
        }
    }

    /// Promoting tips loses no standing and makes only orphans valid
    /// tips.
    pub proof fn lemma_promote_tips_adds(
        self,
        tips: Seq<H256>,
        from: int,
        skip: Option<H256>,
        stop_at_valid: bool,
    )
        ensures
            self.adds(self.promote_tips(tips, from, skip, stop_at_valid)),
        decreases tips.len() - from,
    {
        if 0 <= from < tips.len() {
            let next = if skip == Some(tips[from]) {
                self
            } else {
                self.promote_tip(tips[from], stop_at_valid)
            };
            self.lemma_promote_tip_adds(tips[from], stop_at_valid);
            next.lemma_promote_tips_adds(tips, from + 1, skip, stop_at_valid);
            self.lemma_adds_then(next, self.promote_tips(tips, from, skip, stop_at_valid));
        }
    }

    /// Turning a disconnected sub-tree into a valid one loses no standing
    /// and makes only orphans valid tips.
    pub proof fn lemma_make_valid_tips_adds(self, head: H256)
        ensures
            self.adds(self.make_valid_tips(head)),
    {
        if self.heads.contains(head) {
            let cut = ChainState {
                heads: self.heads.remove(head),
                heads_heights: self.heads_heights.remove(head),
                ..self
            };
            assert(self.adds(cut));
            cut.lemma_promote_tips_adds(self.heads.map[head], 0, None, true);
            self.lemma_adds_then(cut, self.make_valid_tips(head));
        }
    }

    /// Offering a valid tip to the disconnected sub-trees loses no
    /// standing and makes only orphans valid tips.
    pub proof fn lemma_attempt_attach_valid_adds(self, tip: Arc<B>)
        requires
            forall|h: H256| #[trigger] self.pool.contains(h) ==> self.pool.map[h].spec_hash() == h,
            self.pool.contains(tip.spec_hash()) || self.valid_tips.map.contains_key(
                tip.spec_hash(),
            ),
        ensures
            self.adds(self.attempt_attach_valid(tip)),
    {
        match self.attached_head(tip.spec_hash()) {
            Some(head) => {
                let largest = self.heads_heights.map[head].1;
                assert(self.pool.contains(largest));
                self.lemma_make_valid_tips_adds(head);
                let promoted = self.make_valid_tips(head);
                promoted.lemma_recurse_inverse_adds(self.attach_valid_tip(tip), 0, true);
                self.lemma_adds_then(
                    promoted,
                    promoted.recurse_inverse(self.attach_valid_tip(tip), 0, true),
                );
            },
            None => {
                self.lemma_recurse_inverse_adds(tip, 0, true);
            },
        }
    }

    /// Putting a block into the pool with a standing keeps the standings
    /// present, also where the block was exempt before.
    pub proof fn lemma_with_orphan_present(self, orphan: Arc<B>, standing: OrphanType, inverse: u64)
        requires
            self.present_ok(Some(orphan.spec_hash())),
        ensures
            self.with_orphan(orphan, standing, inverse).present_ok(None),
    {
        let after = self.with_orphan(orphan, standing, inverse);
        let hash = orphan.spec_hash();
        assert forall|x: H256| #[trigger] after.pool.contains(x)
            implies after.validations.map.contains_key(x) by {
            if x != hash {
                assert(self.pool.contains(x));
            }
        }
        assert forall|x: H256| #[trigger] after.valid_tips.map.contains_key(x)
            implies after.pool.contains(x) by {
            if x != hash {
                assert(self.valid_tips.map.contains_key(x));
            }
        }
        assert forall|x: H256| #[trigger] paired(after.validations, after.valid_tips, x) by {
            if x != hash {
                assert(paired(self.validations, self.valid_tips, x));
            }
        }
    }

    /// Moving canonical blocks to the pool keeps the standings present.
    pub proof fn lemma_unwind_present(self, path: Seq<Arc<B>>, from: int)
        requires
            self.present_ok(None),
            0 <= from,
        ensures
            self.unwind(path, from).present_ok(None),
        decreases path.len() - from,
    {
        if from < path.len() && from <= u64::MAX {
            let block = path[from];
            let hash = block.spec_hash();
            let next = self.unwind_block(block, from as u64);
            assert forall|x: H256| #[trigger] next.pool.contains(x)
                implies next.validations.map.contains_key(x) by {
                if x != hash {
                    assert(self.pool.contains(x));
                }
            }
            assert forall|x: H256| #[trigger] next.valid_tips.map.contains_key(x)
                implies next.pool.contains(x) by {
                if x != hash {
                    assert(self.valid_tips.map.contains_key(x));
                }
            }
            assert forall|x: H256| #[trigger] paired(next.validations, next.valid_tips, x) by {
                assert(paired(self.validations, self.valid_tips, x));
            }
            next.lemma_unwind_present(path, from + 1);
        }
    }

    /// Rewinding keeps the standings present.
    pub proof fn lemma_rewind_present(self, target: H256)
        requires
            self.present_ok(None),
        ensures
            self.rewind(target).present_ok(None),
    {
        if self.tip.spec_hash() != target {
            let path = self.descent(self.tip, target, Seq::empty()).unwrap();
            self.lemma_unwind_present(path, 0);
        }
    }

    /// Writing a block keeps the standings present.
    pub proof fn lemma_write_block_present(self, block: Arc<B>)
        requires
            self.present_ok(None),
        ensures
            self.write_block(block).present_ok(None),
    {
        let hash = block.spec_hash();
        let height = (self.height + 1) as u64;
        let heights = crate::heights::levels_remove(self.heights, block.spec_height(), hash);
        let written = self.written(block);
        assert(written.present_ok(None)) by {
            assert forall|x: H256| #[trigger] written.pool.contains(x)
                implies written.validations.map.contains_key(x) by {
                assert(self.pool.contains(x));
            }
            assert forall|x: H256| #[trigger] written.valid_tips.map.contains_key(x)
                implies written.pool.contains(x) by {
                assert(self.valid_tips.map.contains_key(x));
            }
            assert forall|x: H256| #[trigger] paired(written.validations, written.valid_tips, x) by {
                assert(paired(self.validations, self.valid_tips, x));
            }
        }
        if self.heads.contains(hash) {
            written.lemma_promote_tips_adds(self.heads.map[hash], 0, Some(hash), false);
            written.lemma_adds_keep_present(self.write_block(block), None);
        }
    }

    /// Writing a branch of orphans keeps the standings present.
    pub proof fn lemma_replay_present(self, branch: Seq<Arc<B>>, count: int)
        requires
            self.present_ok(None),
        ensures
            self.replay(branch, count).present_ok(None),
        decreases count,
    {
        if 0 < count <= branch.len() && self.extends_tip(branch[count - 1]) {
            self.lemma_write_block_present(branch[count - 1]);
            self.write_block(branch[count - 1]).lemma_replay_present(branch, count - 1);
        }
    }

    /// Offering the canonical chain a branch keeps the standings present.
    pub proof fn lemma_attempt_switch_present(self, candidate: Arc<B>)
        requires
            self.present_ok(None),
        ensures
            self.attempt_switch(candidate).present_ok(None),
    {
        if self.switches_to(candidate) {
            let (branch, horizon) = self.branch(candidate, Seq::empty()).unwrap();
            self.lemma_rewind_present(horizon);
            self.rewind(horizon).lemma_replay_present(branch, branch.len() as int);
        }
    }

    /// Letting orphans take the place of their parents among the valid
    /// tips keeps the standings present.
    pub proof fn lemma_relink_present(self, entries: Seq<(H256, u64)>, from: int, working: Seq<H256>)
        requires
            0 <= from,
        ensures
            self.adds(self.relink(entries, from, working).0),
        decreases entries.len() - from,
    {
        if from < entries.len() {
            let (next, set) = self.relink_orphan(entries[from].0, working);
            assert(self.adds(next)) by {
                assert forall|x: H256|
                    paired(self.validations, self.valid_tips, x) implies #[trigger] paired(
                    next.validations,
                    next.valid_tips,
                    x,
                ) by {}
            }
            next.lemma_relink_present(entries, from + 1, set);
            self.lemma_adds_then(next, self.relink(entries, from, working).0);
        }
    }

    /// Keeping the orphans that extend the canonical tip and are not
    /// written loses no standing and makes only orphans valid tips.
    pub proof fn lemma_keep_tips_present(
        self,
        entries: Seq<(H256, u64)>,
        from: int,
        written: Option<H256>,
        working: Seq<H256>,
    )
        ensures
            self.adds(self.keep_tips(entries, from, written, working).0),
        decreases entries.len() - from,
    {
        if 0 <= from < entries.len() {
            let hash = entries[from].0;
            if written == Some(hash) {
                self.lemma_keep_tips_present(entries, from + 1, written, working);
            } else {
                let next = self.keep_tip(hash);
                self.lemma_make_valid_tips_adds(hash);
                next.lemma_keep_tips_present(
                    entries,
                    from + 1,
                    written,
                    crate::tip_sets::with_tip(working, hash),
                );
                self.lemma_adds_then(next, self.keep_tips(entries, from, written, working).0);
            }
        }
    }

    /// The drain at one height keeps the standings present.
    pub proof fn lemma_drain_level_present(
        self,
        entries: Seq<(H256, u64)>,
        done: bool,
        working: Seq<H256>,
    )
        requires
            self.ledger_ok(),
            self.present_ok(None),
        ensures
            self.drain_level(entries, done, working).0.present_ok(None),
    {
        if entries.len() == 1 {
            if self.orphan_extends_tip(entries[0].0) {
                self.lemma_write_block_present(self.pool.map[entries[0].0]);
            }
        } else if entries.len() == 0 {
        } else {
            let buf = self.followers(entries, entries.len() as int);
            let (linked, set) = self.relink(entries, 0, working);
            self.lemma_relink_base(entries, 0, working);
            self.lemma_relink_present(entries, 0, working);
            self.lemma_adds_keep_present(linked, None);
            self.lemma_base_keeps_ledger(linked);
            if buf.len() == 0 {
            } else {
                let winner = if done {
                    None
                } else {
                    Some(buf[deepest(buf, buf.len() as int)].0)
                };
                let written = match winner {
                    Some(hash) => linked.write_orphan_block(hash),
                    None => linked,
                };
                match winner {
                    Some(hash) => {
                        if linked.orphan_extends_tip(hash) {
                            assert(linked.pool.map[hash].spec_hash() == hash);
                            linked.lemma_write_block_present(linked.pool.map[hash]);
                            linked.lemma_write_block_pool(linked.pool.map[hash]);
                        }
                    },
                    None => {},
                }
                written.lemma_keep_tips_present(buf, 0, winner, set);
                written.lemma_adds_keep_present(written.keep_tips(buf, 0, winner, set).0, None);
            }
        }
    }

    /// Writing a block takes nothing but the block out of the pool.
    pub proof fn lemma_write_block_pool(self, block: Arc<B>)
        ensures
            forall|x: H256|
                self.pool.contains(x) && x != block.spec_hash() ==> #[trigger] self.write_block(
                    block,
                ).pool.contains(x),
    {
        let hash = block.spec_hash();
        let height = (self.height + 1) as u64;
        let heights = crate::heights::levels_remove(self.heights, block.spec_height(), hash);
        let written = self.written(block);
        if self.heads.contains(hash) {
            written.lemma_promote_tips_base(self.heads.map[hash], 0, Some(hash), false);
        }
    }

    /// The drain keeps the standings present.
    pub proof fn lemma_drain_present(self, height: u64, max: u64, done: bool, working: Seq<H256>)
        requires
            block_type_sound::<B>(),
            self.ledger_ok(),
            self.present_ok(None),
        ensures
            self.drain(height, max, done, working).present_ok(None),
        decreases max - height, (if done { 0int } else { 1int }),
    {
        if height <= max {
            let (next, set, step) = if self.heights.contains_key(height) {
                self.drain_level(level_seq(self.heights[height]), done, working)
            } else {
                (self, working, DrainStep::Advance)
            };
            if self.heights.contains_key(height) {
                self.lemma_drain_level_present(level_seq(self.heights[height]), done, working);
                self.lemma_drain_level_ledger(level_seq(self.heights[height]), done, working);
            }
            match step {
                DrainStep::Stop => {},
                DrainStep::Advance => {
                    if height < max {
                        next.lemma_drain_present((height + 1) as u64, max, done, set);
                    }
                },
                DrainStep::AdvanceDone => {
                    if height < max {
                        next.lemma_drain_present((height + 1) as u64, max, true, set);
                    }
                },
                DrainStep::Repeat => {
                    if !done {
                        next.lemma_drain_present(height, max, true, set);
                    }
                },
            }
        }
    }

    /// What follows once a block stands as a tip in the sub-tree of a head
    /// keeps the standings present.
    pub proof fn lemma_settle_disconnected_present(self, block: Arc<B>, head: H256, again: bool)
        requires
            self.present_ok(None),
            !self.valid_tips.map.contains_key(block.spec_hash()),
        ensures
            self.settle_disconnected(block, head, again).present_ok(None),
    {
        let hash = block.spec_hash();
        let after = self.settle_disconnected(block, head, again);
        let standing = self.attach_standing(hash, OrphanType::DisconnectedTip);
        let attached = self.attempt_attach(hash);
        self.lemma_attempt_attach_plain(hash);
        if standing == OrphanType::DisconnectedTip {
            let tipped = if again {
                ChainState { tips: attached.tips.insert(hash, head), ..attached }
            } else {
                attached
            };
            tipped.lemma_recurse_inverse_adds(block, 0, false);
            tipped.lemma_adds_keep_present(after, None);
        } else {
            assert forall|x: H256| #[trigger] after.pool.contains(x)
                implies after.validations.map.contains_key(x) by {
                assert(self.pool.contains(x));
            }
            assert forall|x: H256| #[trigger] paired(after.validations, after.valid_tips, x) by {
                assert(paired(self.validations, self.valid_tips, x));
            }
        }
    }

    /// Taking in a block whose parent is an orphan keeps the standings
    /// present.
    pub proof fn lemma_append_to_orphan_present(
        self,
        block: Arc<B>,
        parent: H256,
        standing: OrphanType,
    )
        requires
            self.ledger_ok(),
            self.present_ok(None),
            !self.knows(block.spec_hash()),
            self.validations.map.contains_key(parent),
            self.validations.map[parent] == standing,
            crate::chain::ledger::apart(block),
        ensures
            self.append_to_orphan(block, parent, standing).present_ok(None),
    {
        let hash = block.spec_hash();
        match standing {
            OrphanType::DisconnectedTip => {
                let head = self.tips.map[parent];
                let largest = self.heads_heights.map[head].0;
                let replaced = ChainState {
                    validations: self.validations.insert(parent, OrphanType::BelongsToDisconnected),
                    heads: sets_add_tip(sets_remove_tip(self.heads, head, parent), head, hash),
                    tips: self.tips.remove(parent),
                    heads_heights: if block.spec_height() > largest {
                        self.heads_heights.insert(head, (block.spec_height(), hash))
                    } else {
                        self.heads_heights
                    },
                    ..self
                };
                assert(self.adds(replaced)) by {
                    assert forall|x: H256|
                        paired(self.validations, self.valid_tips, x) implies #[trigger] paired(
                        replaced.validations,
                        replaced.valid_tips,
                        x,
                    ) by {}
                }
                self.lemma_adds_keep_present(replaced, Some(hash));
                replaced.lemma_with_orphan_present(block, OrphanType::DisconnectedTip, 0);
                let written = replaced.with_orphan(block, OrphanType::DisconnectedTip, 0);
                let tipped = ChainState { tips: written.tips.insert(hash, head), ..written };
                tipped.lemma_settle_disconnected_present(block, head, false);
            },
            OrphanType::ValidChainTip => {
                let marked = self.mark(parent, OrphanType::BelongsToValidChain);
                self.lemma_mark_adds(parent, OrphanType::BelongsToValidChain);
                self.lemma_adds_keep_present(marked, Some(hash));
                self.lemma_base_keeps_ledger(marked);
                marked.lemma_with_orphan_present(block, OrphanType::ValidChainTip, 0);
                let written = marked.with_orphan(block, OrphanType::ValidChainTip, 0);
                let tip = written.attach_valid_tip(block);
                let inverse = written.attach_valid_inverse(block);
                marked.lemma_with_orphan_ledger_keys(block, OrphanType::ValidChainTip, 0);
                written.lemma_attach_valid_tip_known(block);
                written.lemma_attempt_attach_valid_adds(block);
                let attached = written.attempt_attach_valid(block);
                written.lemma_adds_keep_present(attached, None);
                attached.lemma_recurse_inverse_adds(block, inverse, inverse == 0);
                let lifted = attached.recurse_inverse(block, inverse, inverse == 0);
                attached.lemma_adds_keep_present(lifted, None);
                let tipped = lifted.settle_valid(hash, written.attach_valid_standing(block));
                lifted.lemma_settle_valid_adds(hash, written.attach_valid_standing(block));
                lifted.lemma_adds_keep_present(tipped, None);
                tipped.lemma_attempt_switch_present(tip);
            },
            OrphanType::BelongsToDisconnected => {
                let head = self.head_above(parent, block.spec_height()).unwrap();
                assert(self.present_ok(Some(hash)));
                self.lemma_with_orphan_present(block, OrphanType::DisconnectedTip, 0);
                let written = self.with_orphan(block, OrphanType::DisconnectedTip, 0);
                let tipped = ChainState {
                    heads: sets_add_tip(written.heads, head, hash),
                    tips: written.tips.insert(hash, head),
                    ..written
                };
                tipped.lemma_settle_disconnected_present(block, head, true);
            },
            OrphanType::BelongsToValidChain => {
                let tipped = ChainState { valid_tips: self.valid_tips.insert(hash, ()), ..self };
                assert(tipped.present_ok(Some(hash))) by {
                    assert forall|x: H256|
                        #[trigger] tipped.valid_tips.map.contains_key(x) && Some(hash) != Some(x)
                        implies tipped.pool.contains(x) by {
                        assert(self.valid_tips.map.contains_key(x));
                    }
                    assert forall|x: H256| Some(hash) != Some(x) implies #[trigger] paired(
                        tipped.validations,
                        tipped.valid_tips,
                        x,
                    ) by {
                        assert(paired(self.validations, self.valid_tips, x));
                    }
                }
                let tip = tipped.attach_valid_tip(block);
                let inverse = tipped.attach_valid_inverse(block);
                let standing = tipped.attach_valid_standing(block);
                tipped.lemma_attempt_attach_valid_adds(block);
                let attached = tipped.attempt_attach_valid(block);
                tipped.lemma_adds_keep_present(attached, Some(hash));
                attached.lemma_with_orphan_present(block, standing, inverse);
                let written = attached.with_orphan(block, standing, inverse);
                assert(written.pool.contains(tip.spec_hash())) by {
                    if tipped.attached_head(hash).is_some() {
                        let largest = tipped.heads_heights.map[tipped.attached_head(hash).unwrap()].1;
                        assert(tipped.pool.contains(largest));
                        assert(attached.pool.contains(largest));
                    }
                }
                written.lemma_recurse_inverse_adds(tip, inverse, inverse == 0);
                let lifted = written.recurse_inverse(tip, inverse, inverse == 0);
                written.lemma_adds_keep_present(lifted, None);
                let settled = lifted.settle_valid(hash, standing);
                lifted.lemma_settle_valid_adds(hash, standing);
                lifted.lemma_adds_keep_present(settled, None);
                settled.lemma_attempt_switch_present(tip);
            },
        }
    }

    /// Taking a block that lies inside a valid chain out of the valid tips
    /// loses no standing and keeps the valid tips in step with the
    /// standings.
    pub proof fn lemma_settle_valid_adds(self, hash: H256, standing: OrphanType)
        ensures
            self.adds(self.settle_valid(hash, standing)),
    {
        if standing == OrphanType::BelongsToValidChain {
            self.lemma_mark_adds(hash, OrphanType::BelongsToValidChain);
        }
    }

    /// After a block was put into the pool, every orphan lies under its
    /// own hash.
    pub proof fn lemma_with_orphan_ledger_keys(
        self,
        orphan: Arc<B>,
        standing: OrphanType,
        inverse: u64,
    )
        requires
            forall|h: H256| #[trigger] self.pool.contains(h) ==> self.pool.map[h].spec_hash() == h,
        ensures
            forall|h: H256| #[trigger]
                self.with_orphan(orphan, standing, inverse).pool.contains(h) ==> self.with_orphan(
                    orphan,
                    standing,
                    inverse,
                ).pool.map[h].spec_hash() == h,
    {
        let after = self.with_orphan(orphan, standing, inverse);
        assert forall|h: H256| #[trigger] after.pool.contains(h)
            implies after.pool.map[h].spec_hash() == h by {
            if h != orphan.spec_hash() {
                assert(self.pool.contains(h));
            }
        }
    }

    /// The hash of the tip that `attempt_attach_valid` hands back for an
    /// orphan is the hash of an orphan.
    pub proof fn lemma_attach_valid_tip_known(self, tip: Arc<B>)
        requires
            forall|h: H256| #[trigger] self.pool.contains(h) ==> self.pool.map[h].spec_hash() == h,
            self.pool.contains(tip.spec_hash()),
        ensures
            self.pool.contains(self.attach_valid_tip(tip).spec_hash()),
    {
        match self.attached_head(tip.spec_hash()) {
            Some(head) => {
                let largest = self.heads_heights.map[head].1;
                assert(self.pool.contains(largest));
            },
            None => {},
        }
    }

    /// The valid tip that `matching_valid_tip` finds is an orphan with the
    /// hash that was asked for.
    pub proof fn lemma_matching_valid_tip(self, hash: H256, from: int)
        ensures
            match self.matching_valid_tip(hash, from) {
                Some(tip) => self.pool.contains(tip) && self.pool.map[tip].spec_hash() == hash,
                None => true,
            },
        decreases self.valid_tips.order.len() - from,
    {
        if 0 <= from < self.valid_tips.order.len() {
            let tip = self.valid_tips.order[from];
            if self.pool.contains(tip) && self.pool.map[tip].spec_hash() == hash {
            } else {
                self.lemma_matching_valid_tip(hash, from + 1);
            }
        }
    }

    /// Taking in a block whose parent is unknown keeps the standings
    /// present.
    pub proof fn lemma_append_disconnected_present(self, block: Arc<B>, parent: H256)
        requires
            self.ledger_ok(),
            self.present_ok(None),
            !self.pool.contains(parent),
            Some(parent) == block.spec_parent_hash(),
        ensures
            self.append_disconnected(block, parent).present_ok(None),
    {
        let hash = block.spec_hash();
        let seeded = ChainState {
            heads: self.heads.insert(hash, seq![hash]),
            tips: self.tips.insert(hash, hash),
            heads_heights: self.heads_heights.insert(hash, (block.spec_height(), hash)),
            heights: crate::heights::levels_put(self.heights, block.spec_height(), hash, 0),
            pool: self.pool.insert(hash, block),
            ..self
        };
        assert(seeded.present_ok(Some(hash))) by {
            assert forall|x: H256|
                #[trigger] seeded.pool.contains(x) && Some(hash) != Some(x)
                implies seeded.validations.map.contains_key(x) by {
                assert(self.pool.contains(x));
            }
            assert forall|x: H256|
                #[trigger] seeded.valid_tips.map.contains_key(x) && Some(hash) != Some(x)
                implies seeded.pool.contains(x) by {
                assert(self.valid_tips.map.contains_key(x));
            }
        }
        let standing = seeded.attach_standing(hash, OrphanType::DisconnectedTip);
        let attached = seeded.attempt_attach(hash);
        seeded.lemma_attempt_attach_plain(hash);
        assert(attached.present_ok(Some(hash)));
        attached.lemma_with_orphan_present(block, standing, 0);
        let written = attached.with_orphan(block, standing, 0);
        match attached.matching_valid_tip(parent, 0) {
            Some(tip) => {
                attached.lemma_matching_valid_tip(parent, 0);
                assert forall|h: H256| #[trigger] attached.pool.contains(h)
                    implies attached.pool.map[h].spec_hash() == h by {
                    if h != hash {
                        assert(self.pool.contains(h));
                    }
                }
                attached.lemma_with_orphan_ledger_keys(block, standing, 0);
                assert(written.pool.contains(tip));
                written.lemma_attempt_attach_valid_adds(attached.pool.map[tip]);
                written.lemma_adds_keep_present(
                    written.attempt_attach_valid(attached.pool.map[tip]),
                    None,
                );
            },
            None => {},
        }
    }

    /// Taking in a block keeps the standings present.
    pub proof fn lemma_append_block_present(self, block: Arc<B>)
        requires
            block_type_sound::<B>(),
            self.ledger_ok(),
            self.present_ok(None),
            self.append_error(block).is_none(),
            crate::chain::ledger::apart(block),
        ensures
            self.append_block(block).present_ok(None),
    {
        let parent = block.spec_parent_hash().unwrap();
        let hash = block.spec_hash();
        assert(!self.knows(hash));
        if parent == self.tip.spec_hash() {
            self.lemma_write_block_present(block);
            self.lemma_write_block_ledger(block);
            let written = self.write_block(block);
            if block.spec_height() < u64::MAX {
                match written.max_orphan_height {
                    Some(max) => {
                        written.lemma_drain_present(
                            (block.spec_height() + 1) as u64,
                            max,
                            false,
                            Seq::empty(),
                        );
                    },
                    None => {},
                }
            }
        } else if self.store.contains_key(StoreKey::Block(parent)) {
            assert(self.present_ok(Some(hash)));
            self.lemma_with_orphan_present(block, OrphanType::ValidChainTip, 0);
            let written = self.with_orphan(block, OrphanType::ValidChainTip, 0);
            self.lemma_with_orphan_ledger_keys(block, OrphanType::ValidChainTip, 0);
            written.lemma_attempt_attach_valid_adds(block);
            let attached = written.attempt_attach_valid(block);
            written.lemma_adds_keep_present(attached, None);
            let standing = written.attach_valid_standing(block);
            let settled = attached.settle_valid(hash, standing);
            attached.lemma_settle_valid_adds(hash, standing);
            attached.lemma_adds_keep_present(settled, None);
            if standing != OrphanType::ValidChainTip {
                settled.lemma_attempt_switch_present(written.attach_valid_tip(block));
            }
        } else if self.pool.contains(parent) {
            self.lemma_append_to_orphan_present(block, parent, self.validations.map[parent]);
        } else {
            self.lemma_append_disconnected_present(block, parent);
        }
    }
}

} // verus!
