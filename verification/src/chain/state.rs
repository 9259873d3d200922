//! What the engine knows, as plain mathematics.
use crate::block::Block;
use crate::hash::H256;
use crate::codec::{be_bytes, be_value};
use crate::heights::{inverse_at, level_seq, levels_put, levels_remove};
use crate::ordered_map::Entries;
use crate::orphan_type::OrphanType;
use crate::store::StoreKey;
use crate::chain::error::ChainErr;
use crate::tip_sets::{sets_add_tip, sets_remove_tip, with_tip, without_tip};
use std::sync::Arc;
use vstd::prelude::*;

verus! {

/// The state of a chain: the store with the canonical chain in it, the
/// orphan pool, and the indexes over the pool.
pub struct ChainState<B> {
    /// The store.
    pub store: Map<StoreKey, Seq<u8>>,
    /// The canonical height.
    pub height: u64,
    /// The canonical tip.
    pub tip: Arc<B>,
    /// Every known block that is not canonical, by its hash.
    pub pool: Entries<Arc<B>>,
    /// The height up to which the drain looks for orphans.
    pub max_orphan_height: Option<u64>,
    /// The orphans of each height, each with its inverse height.
    pub heights: Map<u64, Entries<u64>>,
    /// The standing of each orphan.
    pub validations: Entries<OrphanType>,
    /// The tips of each disconnected sub-tree, by its head.
    pub heads: Entries<Seq<H256>>,
    /// The tallest tip of each disconnected sub-tree and its height, by
    /// the sub-tree's head.
    pub heads_heights: Entries<(u64, H256)>,
    /// The head of the sub-tree of each disconnected tip.
    pub tips: Entries<H256>,
    /// The tips of the sub-trees that descend from a canonical block.
    pub valid_tips: Entries<()>,
}

/// The valid tips after `hash` got the standing `standing`: `hash` is
/// among them if and only if it stands as the tip of a valid chain.
pub open spec fn tips_with(valid_tips: Entries<()>, hash: H256, standing: OrphanType) -> Entries<
    (),
> {
    if standing == OrphanType::ValidChainTip {
        valid_tips.insert(hash, ())
    } else {
        valid_tips.remove(hash)
    }
}

/// `max` raised to `height` where `height` is greater.
pub open spec fn raised(max: Option<u64>, height: u64) -> Option<u64> {
    match max {
        None => Some(height),
        Some(current) => if height > current {
            Some(height)
        } else {
            Some(current)
        },
    }
}

/// The greatest height from `from` down to 1 at which an orphan is
/// recorded; `None` where there is none.
pub open spec fn next_level_down(heights: Map<u64, Entries<u64>>, from: u64) -> Option<u64>
    decreases from,
{
    if from == 0 {
        None
    } else if heights.contains_key(from) && heights[from].len() > 0 {
        Some(from)
    } else {
        next_level_down(heights, (from - 1) as u64)
    }
}

/// The greatest number of orphans that the pool takes.
pub const MAX_ORPHANS: usize = 100;

/// How far below the canonical height a block may lie.
pub const MIN_HEIGHT: u64 = 10;

/// How far above the canonical height a block may lie.
pub const MAX_HEIGHT: u64 = 10;

/// How the drain goes on after a height.
#[derive(Clone, Copy, Debug, PartialEq, Eq, Structural)]
pub enum DrainStep {
    /// The drain ends.
    Stop,
    /// The drain goes on at the next height.
    Advance,
    /// The drain goes on at the next height and writes nothing any more.
    AdvanceDone,
    /// The drain looks at the same height once more and writes nothing
    /// any more.
    Repeat,
}

/// The place in `entries[..upto]` of the orphan with the greatest inverse
/// height; of several such, the last.
pub open spec fn deepest(entries: Seq<(H256, u64)>, upto: int) -> int
    decreases upto,
{
    if upto <= 1 {
        0
    } else {
        let before = deepest(entries, upto - 1);
        if 0 <= before < entries.len() && upto <= entries.len() && entries[upto - 1].1
            >= entries[before].1 {
            upto - 1
        } else {
            before
        }
    }
}

impl<B: Block> ChainState<B> {
    /// The block that the store holds under `hash`: what is kept there
    /// decodes to a block with that hash.
    pub open spec fn stored(self, hash: H256) -> Option<Arc<B>> {
        Self::stored_in(self.store, hash)
    }

    /// The block that `store` holds under `hash`.
    pub open spec fn stored_in(store: Map<StoreKey, Seq<u8>>, hash: H256) -> Option<Arc<B>> {
        if store.contains_key(StoreKey::Block(hash)) {
            match B::spec_from_bytes(store[StoreKey::Block(hash)]) {
                Some(block) => if block.spec_hash() == hash {
                    Some(block)
                } else {
                    None
                },
                None => None,
            }
        } else {
            None
        }
    }

    /// Whether a chain can be started on `store`: where it names a tip,
    /// it names it by 32 bytes and holds the block; where it names a
    /// height, it names it by eight bytes.
    pub open spec fn loadable(store: Map<StoreKey, Seq<u8>>) -> bool {
        &&& store.contains_key(StoreKey::Tip) ==> {
            &&& store[StoreKey::Tip].len() == 32
            &&& Self::stored_in(store, H256::spec_from_bytes(store[StoreKey::Tip])).is_some()
        }
        &&& store.contains_key(StoreKey::Height) ==> be_value(store[StoreKey::Height]).is_some()
    }

    /// The state of a chain that was started on `store`: the tip and the
    /// height are those that the store names, genesis and 0 where it
    /// names none; a store that names neither gets the height 0 written;
    /// there are no orphans.
    pub open spec fn loaded(store: Map<StoreKey, Seq<u8>>) -> Self {
        ChainState {
            store: if store.contains_key(StoreKey::Tip) || store.contains_key(StoreKey::Height) {
                store
            } else {
                store.insert(StoreKey::Height, be_bytes(0))
            },
            height: if store.contains_key(StoreKey::Height) {
                be_value(store[StoreKey::Height]).unwrap()
            } else {
                0
            },
            tip: if store.contains_key(StoreKey::Tip) {
                Self::stored_in(store, H256::spec_from_bytes(store[StoreKey::Tip])).unwrap()
            } else {
                B::spec_genesis()
            },
            pool: Entries::empty(),
            max_orphan_height: None,
            heights: Map::empty(),
            validations: Entries::empty(),
            heads: Entries::empty(),
            heads_heights: Entries::empty(),
            tips: Entries::empty(),
            valid_tips: Entries::empty(),
        }
    }

    /// The height on record for the canonical block `hash`: what the store
    /// holds for it as its height, decoded; `None` where the store does
    /// not hold the block or no such height.
    pub open spec fn block_height(self, hash: H256) -> Option<u64> {
        if self.store.contains_key(StoreKey::Block(hash)) && self.store.contains_key(
            StoreKey::BlockHeight(hash),
        ) {
            be_value(self.store[StoreKey::BlockHeight(hash)])
        } else {
            None
        }
    }

    /// The block of the height `height` that the walk from `block` through
    /// the parents in the store comes to; each parent must lie lower than
    /// its child.
    pub open spec fn ancestor_at(self, block: Arc<B>, height: u64) -> Option<Arc<B>>
        decreases block.spec_height(),
    {
        if block.spec_height() == height {
            Some(block)
        } else if block.spec_height() < height {
            None
        } else {
            match block.spec_parent_hash() {
                Some(parent) => match self.stored(parent) {
                    Some(below) => if below.spec_height() < block.spec_height() {
                        self.ancestor_at(below, height)
                    } else {
                        None
                    },
                    None => None,
                },
                None => None,
            }
        }
    }

    /// Whether `hash` is a canonical block or an orphan.
    pub open spec fn knows(self, hash: H256) -> bool {
        self.pool.contains(hash) || self.store.contains_key(StoreKey::Block(hash))
    }

    /// The standing of `hash` set to `standing`; `hash` is a valid tip
    /// afterwards if and only if it stands as one.
    pub open spec fn mark(self, hash: H256, standing: OrphanType) -> Self {
        ChainState {
            validations: self.validations.insert(hash, standing),
            valid_tips: tips_with(self.valid_tips, hash, standing),
            ..self
        }
    }

    /// The state after `orphan` was put into the pool with the standing
    /// `standing`. Its inverse height is recorded as `inverse` unless one
    /// is recorded for it already. It is a valid tip afterwards if and
    /// only if it stands as one.
    pub open spec fn with_orphan(self, orphan: Arc<B>, standing: OrphanType, inverse: u64) -> Self {
        let hash = orphan.spec_hash();
        let height = orphan.spec_height();
        ChainState {
            valid_tips: tips_with(self.valid_tips, hash, standing),
            heights: if inverse_at(self.heights, height, hash).is_some() {
                self.heights
            } else {
                levels_put(self.heights, height, hash, inverse)
            },
            pool: self.pool.insert(hash, orphan),
            max_orphan_height: raised(self.max_orphan_height, height),
            validations: self.validations.insert(hash, standing),
            ..self
        }
    }

    /// Whether the walk from a block of height `below` goes on to its
    /// parent `parent`: the parent is an orphan and lies lower.
    pub open spec fn steps_to(self, parent: Option<H256>, below: u64) -> bool {
        match parent {
            Some(p) => self.pool.contains(p) && self.pool.map[p].spec_height() < below,
            None => false,
        }
    }

    /// The inverse height of the orphan `hash` at `height` raised to
    /// `inverse` where it is recorded and smaller.
    pub open spec fn lift(self, height: u64, hash: H256, inverse: u64) -> Self {
        match inverse_at(self.heights, height, hash) {
            Some(recorded) => if recorded < inverse {
                ChainState { heights: levels_put(self.heights, height, hash, inverse), ..self }
            } else {
                self
            },
            None => self,
        }
    }

    /// The walk of `recurse_inverse` from the parent `parent` of a block of
    /// height `below` whose inverse height is `inverse`: each ancestor in
    /// the pool gets an inverse height of at least one more than its
    /// child's, and, if `make_valid`, the standing `BelongsToValidChain`.
    pub open spec fn lift_ancestors(
        self,
        parent: Option<H256>,
        below: u64,
        inverse: u64,
        make_valid: bool,
    ) -> Self
        decreases below,
    {
        if self.steps_to(parent, below) && inverse < u64::MAX {
            let p = parent.unwrap();
            let block = self.pool.map[p];
            let lifted = self.lift(block.spec_height(), p, (inverse + 1) as u64);
            let marked = if make_valid {
                lifted.mark(p, OrphanType::BelongsToValidChain)
            } else {
                lifted
            };
            marked.lift_ancestors(
                block.spec_parent_hash(),
                block.spec_height(),
                (inverse + 1) as u64,
                make_valid,
            )
        } else {
            self
        }
    }

    /// The state after the inverse heights of the ancestors of `orphan`
    /// were raised, starting from `start` for `orphan` itself. With
    /// `make_valid`, `orphan` becomes a `ValidChainTip` and its ancestors
    /// in the pool `BelongsToValidChain`.
    pub open spec fn recurse_inverse(self, orphan: Arc<B>, start: u64, make_valid: bool) -> Self {
        let first = if make_valid {
            self.mark(orphan.spec_hash(), OrphanType::ValidChainTip)
        } else {
            self
        };
        first.lift_ancestors(orphan.spec_parent_hash(), orphan.spec_height(), start, make_valid)
    }

    /// The walk that marks the ancestors in the pool as
    /// `BelongsToValidChain`, from the parent `parent` of a block of height
    /// `below`. With `stop_at_valid` it ends at the first ancestor that has
    /// that standing already.
    pub open spec fn mark_ancestors(
        self,
        parent: Option<H256>,
        below: u64,
        stop_at_valid: bool,
    ) -> Self
        decreases below,
    {
        if self.steps_to(parent, below) {
            let p = parent.unwrap();
            let block = self.pool.map[p];
            if stop_at_valid && self.validations.get(p) == Some(OrphanType::BelongsToValidChain) {
                self
            } else {
                self.mark(p, OrphanType::BelongsToValidChain).mark_ancestors(
                    block.spec_parent_hash(),
                    block.spec_height(),
                    stop_at_valid,
                )
            }
        } else {
            self
        }
    }

    /// The state after the disconnected tip `tip` became the tip of a
    /// valid chain, and its ancestors in the pool members of one. A tip
    /// that is not in the pool is passed over.
    pub open spec fn promote_tip(self, tip: H256, stop_at_valid: bool) -> Self {
        if self.pool.contains(tip) {
            let block = self.pool.map[tip];
            ChainState {
                validations: self.validations.insert(tip, OrphanType::ValidChainTip),
                tips: self.tips.remove(tip),
                valid_tips: self.valid_tips.insert(tip, ()),
                ..self
            }.mark_ancestors(block.spec_parent_hash(), block.spec_height(), stop_at_valid)
        } else {
            self
        }
    }

    /// `promote_tip` for each of `tips` from place `from` on, but for
    /// `skip`.
    pub open spec fn promote_tips(
        self,
        tips: Seq<H256>,
        from: int,
        skip: Option<H256>,
        stop_at_valid: bool,
    ) -> Self
        decreases tips.len() - from,
    {
        if 0 <= from < tips.len() {
            let next = if skip == Some(tips[from]) {
                self
            } else {
                self.promote_tip(tips[from], stop_at_valid)
            };
            next.promote_tips(tips, from + 1, skip, stop_at_valid)
        } else {
            self
        }
    }

    /// The state after the disconnected sub-tree of `head` became a valid
    /// one: the head leaves the disconnected indexes, each tip becomes a
    /// `ValidChainTip`, each ancestor of a tip in the pool
    /// `BelongsToValidChain`.
    pub open spec fn make_valid_tips(self, head: H256) -> Self {
        if self.heads.contains(head) {
            ChainState {
                heads: self.heads.remove(head),
                heads_heights: self.heads_heights.remove(head),
                ..self
            }.promote_tips(self.heads.map[head], 0, None, true)
        } else {
            self
        }
    }

    /// Whether `block` can be written on top of the canonical chain: its
    /// parent is the canonical tip and its height is the next one.
    pub open spec fn extends_tip(self, block: Arc<B>) -> bool {
        &&& block.spec_parent_hash() == Some(self.tip.spec_hash())
        &&& self.height < u64::MAX
        &&& block.spec_height() == self.height + 1
    }

    /// The store after `block` was written at the height `height` as the
    /// new canonical tip.
    pub open spec fn store_with(self, block: Arc<B>, height: u64) -> Map<StoreKey, Seq<u8>> {
        let hash = block.spec_hash();
        self.store.insert(StoreKey::Block(hash), block.spec_bytes()).insert(
            StoreKey::Height,
            be_bytes(height),
        ).insert(StoreKey::Tip, hash.0@).insert(StoreKey::BlockHeight(hash), be_bytes(height))
    }

    /// The state just after `block` was written as the canonical tip: the
    /// store holds it, it is the tip, the height is one more, and the
    /// block has left the pool, its level, the standings, the valid tips
    /// and the disconnected maps.
    pub open spec fn written(self, block: Arc<B>) -> Self {
        let hash = block.spec_hash();
        let height = (self.height + 1) as u64;
        let heights = levels_remove(self.heights, block.spec_height(), hash);
        ChainState {
            store: self.store_with(block, height),
            tip: block,
            height: height,
            pool: self.pool.remove(hash),
            heights: heights,
            validations: self.validations.remove(hash),
            valid_tips: self.valid_tips.remove(hash),
            max_orphan_height: if self.max_orphan_height == Some(block.spec_height()) {
                next_level_down(heights, block.spec_height())
            } else {
                self.max_orphan_height
            },
            heads: self.heads.remove(hash),
            heads_heights: self.heads_heights.remove(hash),
            tips: self.tips.remove(hash),
        }
    }

    /// The state after `block` became the canonical tip. The block leaves
    /// the pool and all its indexes. Where it was the head of a
    /// disconnected sub-tree, the tips of that sub-tree become tips of
    /// valid chains.
    pub open spec fn write_block(self, block: Arc<B>) -> Self {
        let hash = block.spec_hash();
        if self.heads.contains(hash) {
            self.written(block).promote_tips(self.heads.map[hash], 0, Some(hash), false)
        } else {
            self.written(block)
        }
    }

    /// Whether `head` is an orphan whose parent is `tip`.
    pub open spec fn follows(self, head: H256, tip: H256) -> bool {
        self.pool.contains(head) && self.pool.map[head].spec_parent_hash() == Some(tip)
    }

    /// Among the heads `heads_heights.order[from..]` that follow `tip`, and
    /// `best`, the first one whose tallest tip is highest.
    pub open spec fn tallest_follower(self, tip: H256, from: int, best: Option<H256>) -> Option<
        H256,
    >
        decreases self.heads_heights.order.len() - from,
    {
        if 0 <= from < self.heads_heights.order.len() {
            let head = self.heads_heights.order[from];
            let better = self.follows(head, tip) && (best.is_none()
                || self.heads_heights.map[head].0
                > self.heads_heights.map[best.unwrap()].0);
            self.tallest_follower(
                tip,
                from + 1,
                if better {
                    Some(head)
                } else {
                    best
                },
            )
        } else {
            best
        }
    }

    /// The head of the disconnected sub-tree that is attached to the valid
    /// tip `tip`: it follows `tip`, no other that follows has a taller tip,
    /// and its tallest tip is in the pool.
    pub open spec fn attached_head(self, tip: H256) -> Option<H256> {
        match self.tallest_follower(tip, 0, None) {
            Some(head) => if self.pool.contains(self.heads_heights.map[head].1) {
                Some(head)
            } else {
                None
            },
            None => None,
        }
    }

    /// The tip that `attempt_attach_valid` hands back for `tip`: the
    /// tallest tip of the attached sub-tree, or `tip` itself.
    pub open spec fn attach_valid_tip(self, tip: Arc<B>) -> Arc<B> {
        match self.attached_head(tip.spec_hash()) {
            Some(head) => self.pool.map[self.heads_heights.map[head].1],
            None => tip,
        }
    }

    /// The inverse height that `attempt_attach_valid` hands back for
    /// `tip`: how far the tallest tip of the attached sub-tree lies above
    /// it.
    pub open spec fn attach_valid_inverse(self, tip: Arc<B>) -> u64 {
        match self.attached_head(tip.spec_hash()) {
            Some(head) => if self.heads_heights.map[head].0 >= tip.spec_height() {
                (self.heads_heights.map[head].0 - tip.spec_height()) as u64
            } else {
                0
            },
            None => 0,
        }
    }

    /// The standing that `attempt_attach_valid` hands back for `tip`.
    pub open spec fn attach_valid_standing(self, tip: Arc<B>) -> OrphanType {
        match self.attached_head(tip.spec_hash()) {
            Some(_) => OrphanType::BelongsToValidChain,
            None => OrphanType::ValidChainTip,
        }
    }

    /// The state after the valid tip `tip` was offered to the disconnected
    /// sub-trees that follow it.
    pub open spec fn attempt_attach_valid(self, tip: Arc<B>) -> Self {
        match self.attached_head(tip.spec_hash()) {
            Some(head) => self.make_valid_tips(head).recurse_inverse(
                self.attach_valid_tip(tip),
                0,
                true,
            ),
            None => self.recurse_inverse(tip, 0, true),
        }
    }

    /// The heads among the first `upto` of `heads.order` that are attached
    /// to the disconnected tip `tip` of the sub-tree of `our_head`: every
    /// other head that is an orphan whose parent is `tip`.
    pub open spec fn attachable(self, tip: H256, our_head: H256, upto: int) -> Seq<H256>
        decreases upto,
    {
        if 0 < upto <= self.heads.order.len() {
            let before = self.attachable(tip, our_head, upto - 1);
            let head = self.heads.order[upto - 1];
            if head != our_head && head != tip && self.follows(head, tip) {
                before.push(head)
            } else {
                before
            }
        } else {
            Seq::empty()
        }
    }

    /// The state after the tip `tip` of an attached sub-tree became a tip
    /// of the sub-tree of `head`. A tip that is not in the pool is passed
    /// over.
    pub open spec fn merge_tip(self, head: H256, tip: H256) -> Self {
        if self.pool.contains(tip) {
            let block = self.pool.map[tip];
            ChainState {
                tips: self.tips.insert(tip, head),
                heads_heights: match self.heads_heights.get(head) {
                    Some((largest, _)) => if block.spec_height() > largest {
                        self.heads_heights.insert(head, (block.spec_height(), block.spec_hash()))
                    } else {
                        self.heads_heights
                    },
                    None => self.heads_heights,
                },
                heads: sets_add_tip(self.heads, head, tip),
                ..self
            }
        } else {
            self
        }
    }

    /// `merge_tip` for each of `tips` from place `from` on.
    pub open spec fn merge_tips(self, head: H256, tips: Seq<H256>, from: int) -> Self
        decreases tips.len() - from,
    {
        if 0 <= from < tips.len() {
            self.merge_tip(head, tips[from]).merge_tips(head, tips, from + 1)
        } else {
            self
        }
    }

    /// The state after the inverse heights were raised from each of
    /// `tips`, from place `from` on, that is in the pool.
    pub open spec fn recurse_tips(self, tips: Seq<H256>, from: int) -> Self
        decreases tips.len() - from,
    {
        if 0 <= from < tips.len() {
            let next = if self.pool.contains(tips[from]) {
                self.recurse_inverse(self.pool.map[tips[from]], 0, false)
            } else {
                self
            };
            next.recurse_tips(tips, from + 1)
        } else {
            self
        }
    }

    /// The state after the sub-tree of `head` was fused into the sub-tree
    /// of `our_head`: `head` is no head any more, its tips are tips of
    /// `our_head`, and `our_head` is no tip of its own sub-tree.
    pub open spec fn attach_head(self, our_head: H256, head: H256) -> Self {
        if self.heads.contains(head) {
            let tips = self.heads.map[head];
            let heads = self.heads.remove(head);
            let seeded = if heads.contains(our_head) {
                heads
            } else {
                heads.insert(our_head, Seq::empty())
            };
            ChainState {
                heads: sets_remove_tip(seeded, our_head, our_head),
                heads_heights: self.heads_heights.remove(head),
                tips: self.tips.remove(our_head),
                ..self
            }.merge_tips(our_head, tips, 0).recurse_tips(tips, 0)
        } else {
            self
        }
    }

    /// `attach_head` for each of `heads` from place `from` on.
    pub open spec fn attach_heads(self, our_head: H256, heads: Seq<H256>, from: int) -> Self
        decreases heads.len() - from,
    {
        if 0 <= from < heads.len() {
            self.attach_head(our_head, heads[from]).attach_heads(our_head, heads, from + 1)
        } else {
            self
        }
    }

    /// The heads that are attached to the disconnected tip `tip`.
    pub open spec fn attached_heads(self, tip: H256) -> Seq<H256> {
        match self.tips.get(tip) {
            Some(our_head) => self.attachable(tip, our_head, self.heads.order.len() as int),
            None => Seq::empty(),
        }
    }

    /// The state after the disconnected tip `tip` took in every
    /// disconnected sub-tree whose head follows it.
    pub open spec fn attempt_attach(self, tip: H256) -> Self {
        match self.tips.get(tip) {
            Some(our_head) => self.attach_heads(our_head, self.attached_heads(tip), 0),
            None => self,
        }
    }

    /// The standing of the disconnected tip `tip` after
    /// `attempt_attach`: it lies inside its sub-tree once another was
    /// attached to it.
    pub open spec fn attach_standing(self, tip: H256, initial: OrphanType) -> OrphanType {
        if self.attached_heads(tip).len() > 0 {
            OrphanType::BelongsToDisconnected
        } else {
            initial
        }
    }

    /// The canonical blocks from `block` down to the child of `target`,
    /// behind `above`: the walk goes from each block to its parent in the
    /// store, which must lie lower, and ends at the block whose parent is
    /// `target`. `None` where the walk does not get there.
    pub open spec fn descent(self, block: Arc<B>, target: H256, above: Seq<Arc<B>>) -> Option<
        Seq<Arc<B>>,
    >
        decreases block.spec_height(),
    {
        match block.spec_parent_hash() {
            Some(parent) => if parent == target {
                Some(above.push(block))
            } else {
                match self.stored(parent) {
                    Some(below) => if below.spec_height() < block.spec_height() {
                        self.descent(below, target, above.push(block))
                    } else {
                        None
                    },
                    None => None,
                }
            },
            None => None,
        }
    }

    /// Whether the canonical chain can be rewound to `target`: the store
    /// holds it, and it is the canonical tip or the walk down from the tip
    /// reaches it.
    pub open spec fn can_rewind(self, target: H256) -> bool {
        &&& self.stored(target).is_some()
        &&& (self.tip.spec_hash() == target || self.descent(
            self.tip,
            target,
            Seq::empty(),
        ).is_some())
    }

    /// The state after the canonical block `block` became an orphan with
    /// the inverse height `inverse`: the former tip a `ValidChainTip`, any
    /// other a `BelongsToValidChain`.
    pub open spec fn unwind_block(self, block: Arc<B>, inverse: u64) -> Self {
        let hash = block.spec_hash();
        ChainState {
            store: self.store.remove(StoreKey::Block(hash)),
            pool: self.pool.insert(hash, block),
            validations: self.validations.insert(
                hash,
                if inverse == 0 {
                    OrphanType::ValidChainTip
                } else {
                    OrphanType::BelongsToValidChain
                },
            ),
            valid_tips: tips_with(
                self.valid_tips,
                hash,
                if inverse == 0 {
                    OrphanType::ValidChainTip
                } else {
                    OrphanType::BelongsToValidChain
                },
            ),
            heights: levels_put(self.heights, block.spec_height(), hash, inverse),
            max_orphan_height: raised(self.max_orphan_height, block.spec_height()),
            ..self
        }
    }

    /// `unwind_block` for each of `path` from place `from` on, each with
    /// its place as its inverse height.
    pub open spec fn unwind(self, path: Seq<Arc<B>>, from: int) -> Self
        decreases path.len() - from,
    {
        if 0 <= from < path.len() && from <= u64::MAX {
            self.unwind_block(path[from], from as u64).unwind(path, from + 1)
        } else {
            self
        }
    }

    /// The state after the canonical chain was rewound to `target`: every
    /// block above it has moved from the store to the pool, the tip is
    /// `target`, and the height is its height.
    pub open spec fn rewind(self, target: H256) -> Self {
        if self.tip.spec_hash() == target {
            self
        } else {
            let path = self.descent(self.tip, target, Seq::empty()).unwrap();
            let tip = self.stored(target).unwrap();
            let unwound = self.unwind(path, 0);
            ChainState {
                height: tip.spec_height(),
                tip: tip,
                store: unwound.store.insert(StoreKey::Height, be_bytes(tip.spec_height())).insert(
                    StoreKey::Tip,
                    target.0@,
                ),
                ..unwound
            }
        }
    }

    /// The blocks from `block` down to the first one whose parent is in
    /// the store, behind `above`, and the hash of that parent, the horizon.
    /// The walk goes through the pool, each parent one lower than its
    /// child. `None` where it does not reach the store.
    pub open spec fn branch(self, block: Arc<B>, above: Seq<Arc<B>>) -> Option<
        (Seq<Arc<B>>, H256),
    >
        decreases block.spec_height(),
    {
        match block.spec_parent_hash() {
            Some(parent) => if self.store.contains_key(StoreKey::Block(parent)) {
                match self.stored(parent) {
                    Some(horizon) => if horizon.spec_height() < block.spec_height()
                        && horizon.spec_height() + 1 == block.spec_height() {
                        Some((above.push(block), parent))
                    } else {
                        None
                    },
                    None => None,
                }
            } else if self.pool.contains(parent) {
                let below = self.pool.map[parent];
                if below.spec_hash() == parent && below.spec_height() < block.spec_height()
                    && below.spec_height() + 1 == block.spec_height() {
                    self.branch(below, above.push(block))
                } else {
                    None
                }
            } else {
                None
            },
            None => None,
        }
    }

    /// The state after the first `count` blocks of `branch` were written
    /// on top of the canonical chain, last block first, for as long as
    /// each extends the tip.
    pub open spec fn replay(self, branch: Seq<Arc<B>>, count: int) -> Self
        decreases count,
    {
        if 0 < count <= branch.len() && self.extends_tip(branch[count - 1]) {
            self.write_block(branch[count - 1]).replay(branch, count - 1)
        } else {
            self
        }
    }

    /// Whether the canonical chain switches to the branch of `candidate`:
    /// it is the tip of a valid chain, it lies above the canonical tip,
    /// its branch leads down to a canonical block, and the chain can be
    /// rewound to that block.
    pub open spec fn switches_to(self, candidate: Arc<B>) -> bool {
        &&& self.valid_tips.contains(candidate.spec_hash())
        &&& candidate.spec_height() > self.height
        &&& self.branch(candidate, Seq::empty()).is_some()
        &&& self.can_rewind(self.branch(candidate, Seq::empty()).unwrap().1)
    }

    /// The state after the canonical chain was offered the branch of
    /// `candidate`: where it switches, the chain is rewound to the horizon
    /// and the branch written on top of it.
    pub open spec fn attempt_switch(self, candidate: Arc<B>) -> Self {
        if self.switches_to(candidate) {
            let (branch, horizon) = self.branch(candidate, Seq::empty()).unwrap();
            self.rewind(horizon).replay(branch, branch.len() as int)
        } else {
            self
        }
    }

    /// Whether the orphan `hash` can be written on top of the canonical
    /// chain.
    pub open spec fn orphan_extends_tip(self, hash: H256) -> bool {
        self.pool.contains(hash) && self.extends_tip(self.pool.map[hash])
    }

    /// The orphans among `entries[..upto]` that can be written on top of
    /// the canonical chain.
    pub open spec fn followers(self, entries: Seq<(H256, u64)>, upto: int) -> Seq<(H256, u64)>
        decreases upto,
    {
        if 0 < upto <= entries.len() {
            let before = self.followers(entries, upto - 1);
            if self.orphan_extends_tip(entries[upto - 1].0) {
                before.push(entries[upto - 1])
            } else {
                before
            }
        } else {
            Seq::empty()
        }
    }

    /// The state and the working set of valid tips after the orphan
    /// `hash` was looked at: where its parent is in the working set and is
    /// a valid tip, it takes its parent's place as the tip of a valid
    /// chain.
    pub open spec fn relink_orphan(self, hash: H256, working: Seq<H256>) -> (Self, Seq<H256>) {
        if self.pool.contains(hash) && !self.extends_tip(self.pool.map[hash]) {
            match self.pool.map[hash].spec_parent_hash() {
                Some(parent) => if working.contains(parent) && self.valid_tips.contains(parent) {
                    (
                        ChainState {
                            validations: self.validations.insert(
                                parent,
                                OrphanType::BelongsToValidChain,
                            ).insert(hash, OrphanType::ValidChainTip),
                            valid_tips: self.valid_tips.remove(parent).insert(hash, ()),
                            ..self
                        },
                        with_tip(without_tip(working, parent), hash),
                    )
                } else {
                    (self, working)
                },
                None => (self, working),
            }
        } else {
            (self, working)
        }
    }

    /// `relink_orphan` for each of `entries` from place `from` on.
    pub open spec fn relink(self, entries: Seq<(H256, u64)>, from: int, working: Seq<H256>) -> (
        Self,
        Seq<H256>,
    )
        decreases entries.len() - from,
    {
        if 0 <= from < entries.len() {
            let (next, set) = self.relink_orphan(entries[from].0, working);
            next.relink(entries, from + 1, set)
        } else {
            (self, working)
        }
    }

    /// The state after the orphan `hash`, which extends the canonical tip
    /// but is not written, was kept: where it is the head of a
    /// disconnected sub-tree, that sub-tree becomes a valid one, as
    /// `make_valid_tips` says.
    pub open spec fn keep_tip(self, hash: H256) -> Self {
        if self.heads.contains(hash) {
            self.make_valid_tips(hash)
        } else {
            self
        }
    }

    /// The state and the working set after each of `entries` from place
    /// `from` on, but for `written`, was kept and joined the working set.
    pub open spec fn keep_tips(
        self,
        entries: Seq<(H256, u64)>,
        from: int,
        written: Option<H256>,
        working: Seq<H256>,
    ) -> (Self, Seq<H256>)
        decreases entries.len() - from,
    {
        if 0 <= from < entries.len() {
            let hash = entries[from].0;
            if written == Some(hash) {
                self.keep_tips(entries, from + 1, written, working)
            } else {
                self.keep_tip(hash).keep_tips(entries, from + 1, written, with_tip(working, hash))
            }
        } else {
            (self, working)
        }
    }

    /// The state after the orphan `hash` was written on top of the
    /// canonical chain, where it can be.
    pub open spec fn write_orphan_block(self, hash: H256) -> Self {
        if self.orphan_extends_tip(hash) {
            self.write_block(self.pool.map[hash])
        } else {
            self
        }
    }

    /// What the drain does at a height whose level holds `entries`, with
    /// the working set `working` of valid tips of the height below.
    ///
    /// A single orphan is written where it extends the canonical tip, and
    /// the drain ends where it does not. Of several orphans that extend
    /// the tip, the one with the greatest inverse height is written, of
    /// several such the last, and the others become tips of valid chains.
    /// Orphans whose parent is in the working set take its place. Once
    /// `done`, no block is written any more. The drain ends where nothing
    /// is left to write and no valid tip to follow.
    pub open spec fn drain_level(
        self,
        entries: Seq<(H256, u64)>,
        done: bool,
        working: Seq<H256>,
    ) -> (
        Self,
        Seq<H256>,
        DrainStep,
    ) {
        if entries.len() == 1 {
            if !done && self.orphan_extends_tip(entries[0].0) {
                (self.write_orphan_block(entries[0].0), working, DrainStep::Advance)
            } else {
                (self, working, DrainStep::Stop)
            }
        } else if entries.len() == 0 {
            if working.len() == 0 || done {
                (self, working, DrainStep::Stop)
            } else {
                (self, working, DrainStep::AdvanceDone)
            }
        } else {
            let buf = self.followers(entries, entries.len() as int);
            let (linked, set) = self.relink(entries, 0, working);
            if buf.len() == 0 {
                if set.len() == 0 || done {
                    (linked, set, DrainStep::Stop)
                } else {
                    (linked, set, DrainStep::Repeat)
                }
            } else {
                let winner = if done {
                    None
                } else {
                    Some(buf[deepest(buf, buf.len() as int)].0)
                };
                let written = match winner {
                    Some(hash) => linked.write_orphan_block(hash),
                    None => linked,
                };
                let (kept, tips) = written.keep_tips(buf, 0, winner, set);
                (kept, tips, DrainStep::Advance)
            }
        }
    }

    /// The drain from the height `height` up to `max`: `drain_level` at
    /// each height that has a level, for as long as it does not end.
    pub open spec fn drain(self, height: u64, max: u64, done: bool, working: Seq<H256>) -> Self
        decreases max - height, (if done { 0int } else { 1int }),
    {
        if height > max {
            self
        } else {
            let (next, set, step) = if self.heights.contains_key(height) {
                self.drain_level(level_seq(self.heights[height]), done, working)
            } else {
                (self, working, DrainStep::Advance)
            };
            match step {
                DrainStep::Stop => next,
                DrainStep::Advance => if height < max {
                    next.drain((height + 1) as u64, max, done, set)
                } else {
                    next
                },
                DrainStep::AdvanceDone => if height < max {
                    next.drain((height + 1) as u64, max, true, set)
                } else {
                    next
                },
                DrainStep::Repeat => if done {
                    next
                } else {
                    next.drain(height, max, true, set)
                },
            }
        }
    }

    /// The state after the orphans that follow the canonical tip were
    /// written, from the height `start` on.
    pub open spec fn process_orphans(self, start: u64) -> Self {
        match self.max_orphan_height {
            Some(max) => self.drain(start, max, false, Seq::empty()),
            None => self,
        }
    }

    /// The head of the disconnected sub-tree above `current`: `current`
    /// itself where it is a head, else the head above its parent. The
    /// walk goes through the pool, from a block of height `below` on, each
    /// parent lower than its child.
    pub open spec fn head_above(self, current: H256, below: u64) -> Option<H256>
        decreases below,
    {
        if self.heads.contains(current) {
            Some(current)
        } else if self.pool.contains(current) && self.pool.map[current].spec_height() < below {
            match self.pool.map[current].spec_parent_hash() {
                Some(parent) => self.head_above(parent, self.pool.map[current].spec_height()),
                None => None,
            }
        } else {
            None
        }
    }

    /// The first of `valid_tips.order[from..]` that is an orphan with the
    /// hash `hash`.
    pub open spec fn matching_valid_tip(self, hash: H256, from: int) -> Option<H256>
        decreases self.valid_tips.order.len() - from,
    {
        if 0 <= from < self.valid_tips.order.len() {
            let tip = self.valid_tips.order[from];
            if self.pool.contains(tip) && self.pool.map[tip].spec_hash() == hash {
                Some(tip)
            } else {
                self.matching_valid_tip(hash, from + 1)
            }
        } else {
            None
        }
    }

    /// The state after a new block got the standing `standing` from
    /// `attempt_attach_valid`: where it lies inside a valid chain, it is no
    /// valid tip.
    pub open spec fn settle_valid(self, hash: H256, standing: OrphanType) -> Self {
        if standing == OrphanType::BelongsToValidChain {
            self.mark(hash, OrphanType::BelongsToValidChain)
        } else {
            self
        }
    }

    /// A block whose parent is a canonical block below the tip: it becomes
    /// the tip of a valid chain and takes in the disconnected sub-tree
    /// that follows it. Where it took one in, it lies inside the valid
    /// chain and is no valid tip any more, and the canonical chain switches
    /// where that made the valid chain taller.
    pub open spec fn append_fork(self, block: Arc<B>) -> Self {
        let written = self.with_orphan(block, OrphanType::ValidChainTip, 0);
        let standing = written.attach_valid_standing(block);
        let attached = written.attempt_attach_valid(block).settle_valid(
            block.spec_hash(),
            standing,
        );
        if standing == OrphanType::ValidChainTip {
            attached
        } else {
            attached.attempt_switch(written.attach_valid_tip(block))
        }
    }

    /// What follows once `block` stands as a tip in the sub-tree of
    /// `head`: it takes in the sub-trees that follow it. Where none does,
    /// the inverse heights of its ancestors are raised. Where one does,
    /// `block` lies inside the sub-tree and is no tip of it any more.
    pub open spec fn settle_disconnected(self, block: Arc<B>, head: H256, again: bool) -> Self {
        let hash = block.spec_hash();
        let standing = self.attach_standing(hash, OrphanType::DisconnectedTip);
        let attached = self.attempt_attach(hash);
        if standing == OrphanType::DisconnectedTip {
            let tipped = if again {
                ChainState { tips: attached.tips.insert(hash, head), ..attached }
            } else {
                attached
            };
            tipped.recurse_inverse(block, 0, false)
        } else {
            ChainState {
                validations: attached.validations.insert(hash, standing),
                heads: sets_remove_tip(attached.heads, head, hash),
                tips: attached.tips.remove(hash),
                ..attached
            }
        }
    }

    /// Whether the disconnected tip `parent` has its sub-tree on record:
    /// its head, the tips of the head, and the tallest of them.
    pub open spec fn tip_on_record(self, parent: H256) -> bool {
        &&& self.tips.contains(parent)
        &&& self.heads.contains(self.tips.map[parent])
        &&& self.heads_heights.contains(self.tips.map[parent])
    }

    /// A block whose parent is a disconnected tip: it takes its parent's
    /// place as a tip of the sub-tree.
    pub open spec fn append_to_disconnected_tip(self, block: Arc<B>, parent: H256) -> Self {
        let hash = block.spec_hash();
        let head = self.tips.map[parent];
        let largest = self.heads_heights.map[head].0;
        let replaced = ChainState {
            validations: self.validations.insert(parent, OrphanType::BelongsToDisconnected),
            heads: sets_add_tip(sets_remove_tip(self.heads, head, parent), head, hash),
            tips: self.tips.remove(parent),
            heads_heights: if block.spec_height() > largest {
                self.heads_heights.insert(head, (block.spec_height(), hash))
            } else {
                self.heads_heights
            },
            ..self
        };
        let written = replaced.with_orphan(block, OrphanType::DisconnectedTip, 0);
        ChainState { tips: written.tips.insert(hash, head), ..written }.settle_disconnected(
            block,
            head,
            false,
        )
    }

    /// A block whose parent is the tip of a valid chain: it takes its
    /// parent's place among the valid tips and takes in the disconnected
    /// sub-tree that follows it. Where it took one in, the tips of that
    /// sub-tree are the valid tips in its place. The canonical chain
    /// switches where the valid chain is taller.
    pub open spec fn append_to_valid_tip(self, block: Arc<B>, parent: H256) -> Self {
        let written = self.mark(parent, OrphanType::BelongsToValidChain).with_orphan(
            block,
            OrphanType::ValidChainTip,
            0,
        );
        let tip = written.attach_valid_tip(block);
        let inverse = written.attach_valid_inverse(block);
        let lifted = written.attempt_attach_valid(block).recurse_inverse(
            block,
            inverse,
            inverse == 0,
        );
        lifted.settle_valid(block.spec_hash(), written.attach_valid_standing(block)).attempt_switch(
            tip,
        )
    }

    /// A block whose parent lies inside a disconnected sub-tree with the
    /// head `head`: it becomes a further tip of that sub-tree.
    pub open spec fn append_to_disconnected(self, block: Arc<B>, head: H256) -> Self {
        let hash = block.spec_hash();
        let written = self.with_orphan(block, OrphanType::DisconnectedTip, 0);
        ChainState {
            heads: sets_add_tip(written.heads, head, hash),
            tips: written.tips.insert(hash, head),
            ..written
        }.settle_disconnected(block, head, true)
    }

    /// A block whose parent lies inside a valid chain: it starts a branch
    /// of that chain as a further valid tip, or, where it took in a
    /// disconnected sub-tree, with the tips of that sub-tree as further
    /// valid tips.
    pub open spec fn append_to_valid(self, block: Arc<B>) -> Self {
        let tipped = ChainState {
            valid_tips: self.valid_tips.insert(block.spec_hash(), ()),
            ..self
        };
        let tip = tipped.attach_valid_tip(block);
        let inverse = tipped.attach_valid_inverse(block);
        let standing = tipped.attach_valid_standing(block);
        tipped.attempt_attach_valid(block).with_orphan(block, standing, inverse).recurse_inverse(
            tip,
            inverse,
            inverse == 0,
        ).settle_valid(block.spec_hash(), standing).attempt_switch(tip)
    }

    /// A block whose parent is an orphan with the standing `standing`.
    /// `head` is the head above the parent where the parent lies inside a
    /// disconnected sub-tree.
    pub open spec fn append_to_orphan(
        self,
        block: Arc<B>,
        parent: H256,
        standing: OrphanType,
    ) -> Self {
        match standing {
            OrphanType::DisconnectedTip => self.append_to_disconnected_tip(block, parent),
            OrphanType::ValidChainTip => self.append_to_valid_tip(block, parent),
            OrphanType::BelongsToDisconnected => self.append_to_disconnected(
                block,
                self.head_above(parent, block.spec_height()).unwrap(),
            ),
            OrphanType::BelongsToValidChain => self.append_to_valid(block),
        }
    }

    /// A block whose parent is unknown: it seeds a disconnected sub-tree
    /// as its head and only tip, and takes in the sub-trees that follow
    /// it.
    pub open spec fn append_disconnected(self, block: Arc<B>, parent: H256) -> Self {
        let hash = block.spec_hash();
        let seeded = ChainState {
            heads: self.heads.insert(hash, seq![hash]),
            tips: self.tips.insert(hash, hash),
            heads_heights: self.heads_heights.insert(hash, (block.spec_height(), hash)),
            heights: levels_put(self.heights, block.spec_height(), hash, 0),
            pool: self.pool.insert(hash, block),
            ..self
        };
        let standing = seeded.attach_standing(hash, OrphanType::DisconnectedTip);
        let attached = seeded.attempt_attach(hash);
        let written = attached.with_orphan(block, standing, 0);
        match attached.matching_valid_tip(parent, 0) {
            Some(tip) => written.attempt_attach_valid(attached.pool.map[tip]),
            None => written,
        }
    }

    /// Whether the height of `block` lies outside the window around the
    /// canonical height.
    pub open spec fn outside_window(self, block: Arc<B>) -> bool {
        let lowest = if self.height > MIN_HEIGHT {
            self.height - MIN_HEIGHT
        } else {
            1
        };
        block.spec_height() > self.height + MAX_HEIGHT || block.spec_height() < lowest
    }

    /// Why an orphan with the parent `parent` in the pool is turned down.
    pub open spec fn orphan_parent_error(self, block: Arc<B>, parent: H256) -> Option<ChainErr> {
        if block.spec_height() != self.pool.map[parent].spec_height() + 1 {
            Some(ChainErr::BadHeight)
        } else {
            match self.validations.get(parent) {
                None => Some(ChainErr::InvalidParent),
                Some(OrphanType::DisconnectedTip) => if self.tip_on_record(parent) {
                    None
                } else {
                    Some(ChainErr::InvalidParent)
                },
                Some(OrphanType::BelongsToDisconnected) => if self.head_above(
                    parent,
                    block.spec_height(),
                ).is_some() {
                    None
                } else {
                    Some(ChainErr::InvalidParent)
                },
                Some(_) => None,
            }
        }
    }

    /// Why `block` is turned down, if it is.
    ///
    /// `BadHeight`: the height lies outside the window around the
    /// canonical height, or is not one more than that of the parent where
    /// the parent is known. `AlreadyInChain`: the block is known.
    /// `NoParentHash`: the block names no parent. `TooManyOrphans`: the
    /// pool is full and the block does not extend the canonical tip.
    /// `InvalidParent`: the parent is known but what is on record of it is
    /// broken.
    pub open spec fn append_error(self, block: Arc<B>) -> Option<ChainErr> {
        let hash = block.spec_hash();
        if self.outside_window(block) {
            Some(ChainErr::BadHeight)
        } else if self.knows(hash) {
            Some(ChainErr::AlreadyInChain)
        } else {
            match block.spec_parent_hash() {
                None => Some(ChainErr::NoParentHash),
                Some(parent) => if parent == self.tip.spec_hash() {
                    if self.extends_tip(block) {
                        None
                    } else {
                        Some(ChainErr::BadHeight)
                    }
                } else if self.pool.len() >= MAX_ORPHANS {
                    Some(ChainErr::TooManyOrphans)
                } else if self.store.contains_key(StoreKey::Block(parent)) {
                    match self.stored(parent) {
                        Some(below) => if block.spec_height() == below.spec_height() + 1 {
                            None
                        } else {
                            Some(ChainErr::BadHeight)
                        },
                        None => Some(ChainErr::InvalidParent),
                    }
                } else if self.pool.contains(parent) {
                    self.orphan_parent_error(block, parent)
                } else {
                    None
                },
            }
        }
    }

    /// The state after `block`, which is not turned down, was taken in.
    ///
    /// A block that extends the canonical tip is written and the orphans
    /// that follow it are drained. A block whose parent is canonical
    /// starts a fork. A block whose parent is an orphan goes by the
    /// standing of its parent. A block whose parent is unknown seeds a
    /// disconnected sub-tree.
    pub open spec fn append_block(self, block: Arc<B>) -> Self {
        let parent = block.spec_parent_hash().unwrap();
        if parent == self.tip.spec_hash() {
            let written = self.write_block(block);
            if block.spec_height() < u64::MAX {
                written.process_orphans((block.spec_height() + 1) as u64)
            } else {
                written
            }
        } else if self.store.contains_key(StoreKey::Block(parent)) {
            self.append_fork(block)
        } else if self.pool.contains(parent) {
            self.append_to_orphan(block, parent, self.validations.map[parent])
        } else {
            self.append_disconnected(block, parent)
        }
    }
}

} // verus!
