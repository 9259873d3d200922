//! What the steps on the orphan indexes leave as it is.
use crate::block::Block;
use crate::chain::state::ChainState;
use crate::hash::H256;
use crate::ordered_map::Entries;
use crate::orphan_type::OrphanType;
use std::sync::Arc;
use vstd::prelude::*;

verus! {

/// The two maps have the same levels, and each level holds the same
/// orphans in the same order.
pub open spec fn same_levels(a: Map<u64, Entries<u64>>, b: Map<u64, Entries<u64>>) -> bool {
    &&& forall|h: u64| a.contains_key(h) <==> b.contains_key(h)
    &&& forall|h: u64| #[trigger]
        a.contains_key(h) ==> a[h].order == b[h].order && forall|k: H256|
            a[h].map.contains_key(k) <==> b[h].map.contains_key(k)
}

impl<B: Block> ChainState<B> {
    /// The two states have the same store, tip, height and pool, the same
    /// greatest orphan height, and the same orphans at each height.
    pub open spec fn same_base(self, other: Self) -> bool {
        &&& self.store == other.store
        &&& self.height == other.height
        &&& self.tip == other.tip
        &&& self.pool == other.pool
        &&& self.max_orphan_height == other.max_orphan_height
        &&& same_levels(self.heights, other.heights)
    }

    /// The two states have the same pool and the same disconnected
    /// sub-trees.
    pub open spec fn same_forest(self, other: Self) -> bool {
        &&& self.pool == other.pool
        &&& self.heads == other.heads
        &&& self.heads_heights == other.heads_heights
        &&& self.tips == other.tips
    }

    /// Raising one inverse height leaves the store, the canonical tip, the
    /// height, the pool and the orphans of each height as they are.
    pub proof fn lemma_lift_base(self, height: u64, hash: H256, inverse: u64)
        ensures
            self.same_base(self.lift(height, hash, inverse)),
            self.same_forest(self.lift(height, hash, inverse)),
    {
    }

    /// Raising the inverse heights of the ancestors of an orphan leaves the
    /// store, the canonical tip, the height, the pool and the orphans of each
    /// height as they are.
    pub proof fn lemma_lift_ancestors_base(
        self,
        parent: Option<H256>,
        below: u64,
        inverse: u64,
        make_valid: bool,
    )
        ensures
            self.same_base(self.lift_ancestors(parent, below, inverse, make_valid)),
            self.same_forest(self.lift_ancestors(parent, below, inverse, make_valid)),
        decreases below,
    {
        if self.steps_to(parent, below) && inverse < u64::MAX {
            let p = parent.unwrap();
            let block = self.pool.map[p];
            let lifted = self.lift(block.spec_height(), p, (inverse + 1) as u64);
            self.lemma_lift_base(block.spec_height(), p, (inverse + 1) as u64);
            let marked = if make_valid {
                lifted.mark(p, OrphanType::BelongsToValidChain)
            } else {
                lifted
            };
            marked.lemma_lift_ancestors_base(
                block.spec_parent_hash(),
                block.spec_height(),
                (inverse + 1) as u64,
                make_valid,
            );
        }
    }

    /// Raising the inverse heights from an orphan leaves the store, the
    /// canonical tip, the height, the pool and the orphans of each height as
    /// they are.
    pub proof fn lemma_recurse_inverse_base(self, orphan: Arc<B>, start: u64, make_valid: bool)
        ensures
            self.same_base(self.recurse_inverse(orphan, start, make_valid)),
            self.same_forest(self.recurse_inverse(orphan, start, make_valid)),
    {
        let first = if make_valid {
            self.mark(orphan.spec_hash(), OrphanType::ValidChainTip)
        } else {
            self
        };
        first.lemma_lift_ancestors_base(
            orphan.spec_parent_hash(),
            orphan.spec_height(),
            start,
            make_valid,
        );
    }

    /// Marking the ancestors of an orphan as members of a valid chain leaves
    /// the store, the canonical tip, the height, the pool and the orphans of
    /// each height as they are.
    pub proof fn lemma_mark_ancestors_base(
        self,
        parent: Option<H256>,
        below: u64,
        stop_at_valid: bool,
    )
        ensures
            self.same_base(self.mark_ancestors(parent, below, stop_at_valid)),
            self.same_forest(self.mark_ancestors(parent, below, stop_at_valid)),
        decreases below,
    {
        if self.steps_to(parent, below) {
            let p = parent.unwrap();
            let block = self.pool.map[p];
            if stop_at_valid && self.validations.get(p) == Some(OrphanType::BelongsToValidChain) {
            } else {
                self.mark(p, OrphanType::BelongsToValidChain).lemma_mark_ancestors_base(
                    block.spec_parent_hash(),
                    block.spec_height(),
                    stop_at_valid,
                );
            }
        }
    }

    /// Promoting a tip leaves the store, the canonical tip, the height, the
    /// pool and the orphans of each height as they are.
    pub proof fn lemma_promote_tip_base(self, tip: H256, stop_at_valid: bool)
        ensures
            self.same_base(self.promote_tip(tip, stop_at_valid)),
    {
        if self.pool.contains(tip) {
            let block = self.pool.map[tip];
            ChainState {
                validations: self.validations.insert(tip, OrphanType::ValidChainTip),
                tips: self.tips.remove(tip),
                valid_tips: self.valid_tips.insert(tip, ()),
                ..self
            }.lemma_mark_ancestors_base(block.spec_parent_hash(), block.spec_height(), stop_at_valid);
        }
    }

    /// Promoting tips leaves the store, the canonical tip, the height, the pool
    /// and the orphans of each height as they are.
    pub proof fn lemma_promote_tips_base(
        self,
        tips: Seq<H256>,
        from: int,
        skip: Option<H256>,
        stop_at_valid: bool,
    )
        ensures
            self.same_base(self.promote_tips(tips, from, skip, stop_at_valid)),
        decreases tips.len() - from,
    {
        if 0 <= from < tips.len() {
            let next = if skip == Some(tips[from]) {
                self
            } else {
                self.promote_tip(tips[from], stop_at_valid)
            };
            self.lemma_promote_tip_base(tips[from], stop_at_valid);
            next.lemma_promote_tips_base(tips, from + 1, skip, stop_at_valid);
        }
    }

    /// Turning a disconnected sub-tree into a valid one leaves the store, the
    /// canonical tip, the height, the pool and the orphans of each height as
    /// they are.
    pub proof fn lemma_make_valid_tips_base(self, head: H256)
        ensures
            self.same_base(self.make_valid_tips(head)),
    {
        if self.heads.contains(head) {
            ChainState {
                heads: self.heads.remove(head),
                heads_heights: self.heads_heights.remove(head),
                ..self
            }.lemma_promote_tips_base(self.heads.map[head], 0, None, true);
        }
    }

    /// Offering a valid tip to the disconnected sub-trees leaves the store, the
    /// canonical tip, the height, the pool and the orphans of each height as
    /// they are.
    pub proof fn lemma_attempt_attach_valid_base(self, tip: Arc<B>)
        ensures
            self.same_base(self.attempt_attach_valid(tip)),
    {
        match self.attached_head(tip.spec_hash()) {
            Some(head) => {
                self.lemma_make_valid_tips_base(head);
                self.make_valid_tips(head).lemma_recurse_inverse_base(
                    self.attach_valid_tip(tip),
                    0,
                    true,
                );
            },
            None => {
                self.lemma_recurse_inverse_base(tip, 0, true);
            },
        }
    }

    /// Merging tips into the tips of a head leaves the store, the canonical
    /// tip, the height, the pool and the orphans of each height as they are.
    pub proof fn lemma_merge_tips_base(self, head: H256, tips: Seq<H256>, from: int)
        ensures
            self.same_base(self.merge_tips(head, tips, from)),
        decreases tips.len() - from,
    {
        if 0 <= from < tips.len() {
            self.merge_tip(head, tips[from]).lemma_merge_tips_base(head, tips, from + 1);
        }
    }

    /// Raising the inverse heights from tips leaves the store, the canonical
    /// tip, the height, the pool and the orphans of each height as they are.
    pub proof fn lemma_recurse_tips_base(self, tips: Seq<H256>, from: int)
        ensures
            self.same_base(self.recurse_tips(tips, from)),
            self.same_forest(self.recurse_tips(tips, from)),
        decreases tips.len() - from,
    {
        if 0 <= from < tips.len() {
            let next = if self.pool.contains(tips[from]) {
                self.recurse_inverse(self.pool.map[tips[from]], 0, false)
            } else {
                self
            };
            if self.pool.contains(tips[from]) {
                self.lemma_recurse_inverse_base(self.pool.map[tips[from]], 0, false);
            }
            next.lemma_recurse_tips_base(tips, from + 1);
        }
    }

    /// Fusing a sub-tree into another leaves the store, the canonical tip, the
    /// height, the pool and the orphans of each height as they are.
    pub proof fn lemma_attach_head_base(self, our_head: H256, head: H256)
        ensures
            self.same_base(self.attach_head(our_head, head)),
    {
        if self.heads.contains(head) {
            let tips = self.heads.map[head];
            let heads = self.heads.remove(head);
            let seeded = if heads.contains(our_head) {
                heads
            } else {
                heads.insert(our_head, Seq::empty())
            };
            let cleared = ChainState {
                heads: crate::tip_sets::sets_remove_tip(seeded, our_head, our_head),
                heads_heights: self.heads_heights.remove(head),
                tips: self.tips.remove(our_head),
                ..self
            };
            cleared.lemma_merge_tips_base(our_head, tips, 0);
            cleared.merge_tips(our_head, tips, 0).lemma_recurse_tips_base(tips, 0);
        }
    }

    /// Fusing sub-trees into another leaves the store, the canonical tip, the
    /// height, the pool and the orphans of each height as they are.
    pub proof fn lemma_attach_heads_base(self, our_head: H256, heads: Seq<H256>, from: int)
        ensures
            self.same_base(self.attach_heads(our_head, heads, from)),
        decreases heads.len() - from,
    {
        if 0 <= from < heads.len() {
            self.lemma_attach_head_base(our_head, heads[from]);
            self.attach_head(our_head, heads[from]).lemma_attach_heads_base(
                our_head,
                heads,
                from + 1,
            );
        }
    }

    /// Attaching the sub-trees that follow a disconnected tip leaves the store,
    /// the canonical tip, the height, the pool and the orphans of each height
    /// as they are.
    pub proof fn lemma_attempt_attach_base(self, tip: H256)
        ensures
            self.same_base(self.attempt_attach(tip)),
    {
        match self.tips.get(tip) {
            Some(our_head) => {
                self.lemma_attach_heads_base(our_head, self.attached_heads(tip), 0);
            },
            None => {},
        }
    }

    /// Letting orphans take the place of their parents among the valid tips
    /// leaves the store, the canonical tip, the height, the pool and the
    /// orphans of each height as they are.
    pub proof fn lemma_relink_base(self, entries: Seq<(H256, u64)>, from: int, working: Seq<H256>)
        ensures
            self.same_base(self.relink(entries, from, working).0),
            self.same_forest(self.relink(entries, from, working).0),
        decreases entries.len() - from,
    {
        if 0 <= from < entries.len() {
            let (next, set) = self.relink_orphan(entries[from].0, working);
            next.lemma_relink_base(entries, from + 1, set);
        }
    }

    /// Taking a block that lies inside a valid chain out of the valid tips
    /// leaves the store, the canonical tip, the height, the pool, the orphans
    /// of each height and the disconnected sub-trees as they are.
    pub proof fn lemma_settle_valid_base(self, hash: H256, standing: OrphanType)
        ensures
            self.same_base(self.settle_valid(hash, standing)),
            self.same_forest(self.settle_valid(hash, standing)),
    {
    }

    /// Keeping the orphans that extend the canonical tip and are not written
    /// leaves the store, the canonical tip, the height, the pool and the
    /// orphans of each height as they are.
    pub proof fn lemma_keep_tips_base(
        self,
        entries: Seq<(H256, u64)>,
        from: int,
        written: Option<H256>,
        working: Seq<H256>,
    )
        ensures
            self.same_base(self.keep_tips(entries, from, written, working).0),
        decreases entries.len() - from,
    {
        if 0 <= from < entries.len() {
            let hash = entries[from].0;
            if written == Some(hash) {
                self.lemma_keep_tips_base(entries, from + 1, written, working);
            } else {
                self.lemma_make_valid_tips_base(hash);
                self.keep_tip(hash).lemma_keep_tips_base(
                    entries,
                    from + 1,
                    written,
                    crate::tip_sets::with_tip(working, hash),
                );
            }
        }
    }

    /// What follows once a block stands as a tip in the sub-tree of a head
    /// leaves the store, the canonical tip, the height, the pool and the
    /// orphans of each height as they are.
    pub proof fn lemma_settle_disconnected_base(self, block: Arc<B>, head: H256, again: bool)
        ensures
            self.same_base(self.settle_disconnected(block, head, again)),
    {
        let hash = block.spec_hash();
        let attached = self.attempt_attach(hash);
        self.lemma_attempt_attach_base(hash);
        let standing = self.attach_standing(hash, OrphanType::DisconnectedTip);
        if standing == OrphanType::DisconnectedTip {
            let tipped = if again {
                ChainState { tips: attached.tips.insert(hash, head), ..attached }
            } else {
                attached
            };
            tipped.lemma_recurse_inverse_base(block, 0, false);
        }
    }

    /// The two states have the same pool, the same standings and the same
    /// valid tips.
    pub open spec fn same_standing(self, other: Self) -> bool {
        &&& self.pool == other.pool
        &&& self.validations == other.validations
        &&& self.valid_tips == other.valid_tips
    }

    /// Raising the inverse heights of the ancestors of an orphan, without
    /// marking them, leaves the pool, the standings and the valid tips as they
    /// are.
    pub proof fn lemma_lift_ancestors_plain(self, parent: Option<H256>, below: u64, inverse: u64)
        ensures
            self.same_standing(self.lift_ancestors(parent, below, inverse, false)),
        decreases below,
    {
        if self.steps_to(parent, below) && inverse < u64::MAX {
            let p = parent.unwrap();
            let block = self.pool.map[p];
            let lifted = self.lift(block.spec_height(), p, (inverse + 1) as u64);
            lifted.lemma_lift_ancestors_plain(
                block.spec_parent_hash(),
                block.spec_height(),
                (inverse + 1) as u64,
            );
        }
    }

    /// Raising the inverse heights from tips leaves the pool, the standings and
    /// the valid tips as they are.
    pub proof fn lemma_recurse_tips_plain(self, tips: Seq<H256>, from: int)
        ensures
            self.same_standing(self.recurse_tips(tips, from)),
        decreases tips.len() - from,
    {
        if 0 <= from < tips.len() {
            let next = if self.pool.contains(tips[from]) {
                self.recurse_inverse(self.pool.map[tips[from]], 0, false)
            } else {
                self
            };
            if self.pool.contains(tips[from]) {
                let orphan = self.pool.map[tips[from]];
                self.lemma_lift_ancestors_plain(
                    orphan.spec_parent_hash(),
                    orphan.spec_height(),
                    0,
                );
            }
            next.lemma_recurse_tips_plain(tips, from + 1);
        }
    }

    /// Merging tips into the tips of a head leaves the pool, the standings and
    /// the valid tips as they are.
    pub proof fn lemma_merge_tips_plain(self, head: H256, tips: Seq<H256>, from: int)
        ensures
            self.same_standing(self.merge_tips(head, tips, from)),
        decreases tips.len() - from,
    {
        if 0 <= from < tips.len() {
            self.merge_tip(head, tips[from]).lemma_merge_tips_plain(head, tips, from + 1);
        }
    }

    /// Fusing sub-trees into another leaves the pool, the standings and the
    /// valid tips as they are.
    pub proof fn lemma_attach_heads_plain(self, our_head: H256, heads: Seq<H256>, from: int)
        ensures
            self.same_standing(self.attach_heads(our_head, heads, from)),
        decreases heads.len() - from,
    {
        if 0 <= from < heads.len() {
            let head = heads[from];
            if self.heads.contains(head) {
                let tips = self.heads.map[head];
                let heads1 = self.heads.remove(head);
                let seeded = if heads1.contains(our_head) {
                    heads1
                } else {
                    heads1.insert(our_head, Seq::empty())
                };
                let cleared = ChainState {
                    heads: crate::tip_sets::sets_remove_tip(seeded, our_head, our_head),
                    heads_heights: self.heads_heights.remove(head),
                    tips: self.tips.remove(our_head),
                    ..self
                };
                cleared.lemma_merge_tips_plain(our_head, tips, 0);
                cleared.merge_tips(our_head, tips, 0).lemma_recurse_tips_plain(tips, 0);
            }
            self.attach_head(our_head, head).lemma_attach_heads_plain(our_head, heads, from + 1);
        }
    }

    /// Attaching the sub-trees that follow a disconnected tip leaves the pool,
    /// the standings and the valid tips as they are.
    pub proof fn lemma_attempt_attach_plain(self, tip: H256)
        ensures
            self.same_standing(self.attempt_attach(tip)),
    {
        match self.tips.get(tip) {
            Some(our_head) => {
                self.lemma_attach_heads_plain(our_head, self.attached_heads(tip), 0);
            },
            None => {},
        }
    }
}

} // verus!
