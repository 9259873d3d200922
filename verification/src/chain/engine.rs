//! The chain and the steps of its state machine.
use crate::block::{share, Block};
use crate::chain::error::ChainErr;
use crate::chain::state::{
    deepest, next_level_down, raised, ChainState, DrainStep, MAX_HEIGHT, MAX_ORPHANS, MIN_HEIGHT,
};
use crate::codec::{decode_be_u64, encode_be_u64};
use crate::hash::H256;
use crate::heights::HeightIndex;
use crate::ordered_map::{OrderedMap, OrderedSet};
use crate::orphan_type::OrphanType;
use crate::store::{Store, StoreKey};
use crate::tip_sets::TipSets;
use std::collections::VecDeque;
use std::sync::Arc;
use vstd::prelude::*;

verus! {

/// A chain of blocks of type `B` with its forks.
pub struct Chain<B: Block> {
    /// The store that holds the canonical chain.
    db: Store,
    /// The height of the canonical chain.
    height: u64,
    /// The tip of the canonical chain.
    canonical_tip: Arc<B>,
    /// The known blocks that are not canonical.
    orphan_pool: OrderedMap<Arc<B>>,
    /// The greatest height at which the drain looks for orphans.
    max_orphan_height: Option<u64>,
    /// The orphans of each height, each with its inverse height.
    heights_mapping: HeightIndex,
    /// The standing of each orphan.
    validations_mapping: OrderedMap<OrphanType>,
    /// The tips of each disconnected sub-tree, by its head.
    disconnected_heads_mapping: TipSets,
    /// The tallest tip of each disconnected sub-tree and its height.
    disconnected_heads_heights: OrderedMap<(u64, H256)>,
    /// The head of the sub-tree of each disconnected tip.
    disconnected_tips_mapping: OrderedMap<H256>,
    /// The tips of the sub-trees that descend from a canonical block.
    valid_tips: OrderedSet,
}

impl<B: Block> View for Chain<B> {
    type V = ChainState<B>;

    closed spec fn view(&self) -> ChainState<B> {
        ChainState {
            store: self.db@,
            height: self.height,
            tip: self.canonical_tip,
            pool: self.orphan_pool@,
            max_orphan_height: self.max_orphan_height,
            heights: self.heights_mapping@,
            validations: self.validations_mapping@,
            heads: self.disconnected_heads_mapping@,
            heads_heights: self.disconnected_heads_heights@,
            tips: self.disconnected_tips_mapping@,
            valid_tips: self.valid_tips@,
        }
    }
}

impl<B: Block> Chain<B> {
    /// The collections of the chain are sound.
    pub closed spec fn wf(&self) -> bool {
        &&& self.db.wf()
        &&& self.orphan_pool.wf()
        &&& self.heights_mapping.wf()
        &&& self.validations_mapping.wf()
        &&& self.disconnected_heads_mapping.wf()
        &&& self.disconnected_heads_heights.wf()
        &&& self.disconnected_tips_mapping.wf()
        &&& self.valid_tips.wf()
    }

    /// The block that `store` holds under `hash`.
    fn load_from(store: &Store, hash: &H256) -> (block: Option<Arc<B>>)
        requires
            store.wf(),
        ensures
            block == ChainState::<B>::stored_in(store@, *hash),
    {
        match store.get(&StoreKey::Block(*hash)) {
            Some(bytes) => match B::from_bytes(bytes.as_slice()) {
                Ok(block) => if block.block_hash() == *hash {
                    Some(block)
                } else {
                    None
                },
                Err(_) => None,
            },
            None => None,
        }
    }

    /// The tip that `store` names, where it names one by 32 bytes and
    /// holds the block.
    fn named_tip(store: &Store) -> (tip: Option<Arc<B>>)
        requires
            store.wf(),
            store@.contains_key(StoreKey::Tip),
        ensures
            tip.is_some() == (store@[StoreKey::Tip].len() == 32 && ChainState::<B>::stored_in(
                store@,
                H256::spec_from_bytes(store@[StoreKey::Tip]),
            ).is_some()),
            tip.is_some() ==> tip == ChainState::<B>::stored_in(
                store@,
                H256::spec_from_bytes(store@[StoreKey::Tip]),
            ),
    {
        match store.get(&StoreKey::Tip) {
            Some(bytes) => match H256::from_slice(bytes.as_slice()) {
                Some(hash) => Self::load_from(store, &hash),
                None => None,
            },
            None => None,
        }
    }

    /// Whether a chain can be started on `store`.
    pub fn loadable(store: &Store) -> (ok: bool)
        requires
            store.wf(),
        ensures
            ok == ChainState::<B>::loadable(store@),
    {
        let tip_ok = if store.contains(&StoreKey::Tip) {
            Self::named_tip(store).is_some()
        } else {
            true
        };
        let height_ok = match store.get(&StoreKey::Height) {
            Some(bytes) => decode_be_u64(bytes.as_slice()).is_some(),
            None => true,
        };
        tip_ok && height_ok
    }

    /// Starts a chain on `store`.
    ///
    /// The canonical tip is the block that the store names as its tip,
    /// genesis where it names none. The height is the one that the store
    /// names, 0 where it names none; a store that names neither tip nor
    /// height gets the height 0 written. The orphan indexes start empty.
    pub fn new(store: Store) -> (chain: Chain<B>)
        requires
            store.wf(),
            ChainState::<B>::loadable(store@),
        ensures
            chain.wf(),
            chain@ == ChainState::<B>::loaded(store@),
    {
        let mut db = store;
        let has_tip = db.contains(&StoreKey::Tip);
        let canonical_tip = if has_tip {
            match Self::named_tip(&db) {
                Some(tip) => tip,
                None => B::genesis(),
            }
        } else {
            B::genesis()
        };
        let recorded = match db.get(&StoreKey::Height) {
            Some(bytes) => decode_be_u64(bytes.as_slice()),
            None => None,
        };
        let height = match recorded {
            Some(height) => height,
            None => {
                if !has_tip && !db.contains(&StoreKey::Height) {
                    db.put(StoreKey::Height, encode_be_u64(0));
                }
                0
            },
        };
        Chain {
            db,
            height,
            canonical_tip,
            orphan_pool: OrderedMap::new(),
            max_orphan_height: None,
            heights_mapping: HeightIndex::new(),
            validations_mapping: OrderedMap::new(),
            disconnected_heads_mapping: TipSets::new(),
            disconnected_heads_heights: OrderedMap::new(),
            disconnected_tips_mapping: OrderedMap::new(),
            valid_tips: OrderedMap::new(),
        }
    }

    /// Raises the greatest orphan height to `new_height` where that is greater.
    fn update_max_orphan_height(&mut self, new_height: u64)
        ensures
            final(self).max_orphan_height == raised(old(self).max_orphan_height, new_height),
            final(self).db == old(self).db,
            final(self).height == old(self).height,
            final(self).canonical_tip == old(self).canonical_tip,
            final(self).orphan_pool == old(self).orphan_pool,
            final(self).heights_mapping == old(self).heights_mapping,
            final(self).validations_mapping == old(self).validations_mapping,
            final(self).disconnected_heads_mapping == old(self).disconnected_heads_mapping,
            final(self).disconnected_heads_heights == old(self).disconnected_heads_heights,
            final(self).disconnected_tips_mapping == old(self).disconnected_tips_mapping,
            final(self).valid_tips == old(self).valid_tips,
    {
        match self.max_orphan_height {
            None => {
                self.max_orphan_height = Some(new_height);
            },
            Some(current) => {
                if new_height > current {
                    self.max_orphan_height = Some(new_height);
                }
            },
        }
    }

    /// Sets the standing of `hash`; `hash` is a valid tip afterwards if
    /// and only if it stands as one.
    fn mark(&mut self, hash: H256, standing: OrphanType)
        requires
            old(self).wf(),
        ensures
            final(self).wf(),
            final(self)@ == old(self)@.mark(hash, standing),
    {
        self.validations_mapping.insert(hash, standing);
        match standing {
            OrphanType::ValidChainTip => {
                self.valid_tips.insert(hash, ());
            },
            _ => {
                self.valid_tips.remove(&hash);
            },
        }
    }

    /// Puts `orphan` into the pool with the standing `standing`.
    fn write_orphan(&mut self, orphan: Arc<B>, standing: OrphanType, inverse_height: u64)
        requires
            old(self).wf(),
        ensures
            final(self).wf(),
            final(self)@ == old(self)@.with_orphan(orphan, standing, inverse_height),
    {
        let hash = orphan.block_hash();
        let height = orphan.height();
        match standing {
            OrphanType::ValidChainTip => {
                self.valid_tips.insert(hash, ());
            },
            _ => {
                self.valid_tips.remove(&hash);
            },
        }
        if self.heights_mapping.inverse(height, &hash).is_none() {
            self.heights_mapping.put(height, hash, inverse_height);
        }
        self.orphan_pool.insert(hash, orphan);
        self.update_max_orphan_height(height);
        self.validations_mapping.insert(hash, standing);
    }

    /// Raises the inverse heights of the ancestors of `orphan`, whose own
    /// inverse height is `start_height`.
    fn recurse_inverse(&mut self, orphan: &Arc<B>, start_height: u64, make_valid: bool)
        requires
            old(self).wf(),
        ensures
            final(self).wf(),
            final(self)@ == old(self)@.recurse_inverse(*orphan, start_height, make_valid),
    {
        if make_valid {
            self.mark(orphan.block_hash(), OrphanType::ValidChainTip);
        }
        let ghost goal = old(self)@.recurse_inverse(*orphan, start_height, make_valid);
        let mut parent = orphan.parent_hash();
        let mut below = orphan.height();
        let mut inverse = start_height;
        loop
            invariant
                self.wf(),
                self@.lift_ancestors(parent, below, inverse, make_valid) == goal,
            ensures
                self.wf(),
                self@ == goal,
            decreases below,
        {
            let p = match parent {
                Some(p) => p,
                None => {
                    break ;
                },
            };
            let (next_parent, height) = match self.orphan_pool.get(&p) {
                Some(block) => (block.parent_hash(), block.height()),
                None => {
                    break ;
                },
            };
            if height >= below || inverse == u64::MAX {
                break ;
            }
            let next = inverse + 1;
            match self.heights_mapping.inverse(height, &p) {
                Some(recorded) => {
                    if recorded < next {
                        self.heights_mapping.put(height, p, next);
                    }
                },
                None => {},
            }
            if make_valid {
                self.mark(p, OrphanType::BelongsToValidChain);
            }
            parent = next_parent;
            below = height;
            inverse = next;
        }
    }

    /// Marks the ancestors in the pool of a block of height `below`, from
    /// its parent `parent` on, as members of a valid chain.
    fn mark_ancestors(&mut self, parent: Option<H256>, below: u64, stop_at_valid: bool)
        requires
            old(self).wf(),
        ensures
            final(self).wf(),
            final(self)@ == old(self)@.mark_ancestors(parent, below, stop_at_valid),
    {
        let ghost goal = old(self)@.mark_ancestors(parent, below, stop_at_valid);
        let mut parent = parent;
        let mut below = below;
        loop
            invariant
                self.wf(),
                self@.mark_ancestors(parent, below, stop_at_valid) == goal,
            ensures
                self.wf(),
                self@ == goal,
            decreases below,
        {
            let p = match parent {
                Some(p) => p,
                None => {
                    break ;
                },
            };
            let (next_parent, height) = match self.orphan_pool.get(&p) {
                Some(block) => (block.parent_hash(), block.height()),
                None => {
                    break ;
                },
            };
            if height >= below {
                break ;
            }
            if stop_at_valid {
                match self.validations_mapping.get(&p) {
                    Some(OrphanType::BelongsToValidChain) => {
                        break ;
                    },
                    _ => {},
                }
            }
            self.mark(p, OrphanType::BelongsToValidChain);
            parent = next_parent;
            below = height;
        }
    }

    /// Makes the disconnected tip `tip` the tip of a valid chain.
    fn promote_tip(&mut self, tip: &H256, stop_at_valid: bool)
        requires
            old(self).wf(),
        ensures
            final(self).wf(),
            final(self)@ == old(self)@.promote_tip(*tip, stop_at_valid),
    {
        let (parent, height) = match self.orphan_pool.get(tip) {
            Some(block) => (block.parent_hash(), block.height()),
            None => {
                return ;
            },
        };
        self.validations_mapping.insert(*tip, OrphanType::ValidChainTip);
        self.disconnected_tips_mapping.remove(tip);
        self.valid_tips.insert(*tip, ());
        self.mark_ancestors(parent, height, stop_at_valid);
    }

    /// Makes each of `tips`, but for `skip`, the tip of a valid chain.
    fn promote_tips(&mut self, tips: &Vec<H256>, skip: Option<H256>, stop_at_valid: bool)
        requires
            old(self).wf(),
        ensures
            final(self).wf(),
            final(self)@ == old(self)@.promote_tips(tips@, 0, skip, stop_at_valid),
    {
        let ghost goal = old(self)@.promote_tips(tips@, 0, skip, stop_at_valid);
        let mut i: usize = 0;
        while i < tips.len()
            invariant
                self.wf(),
                i <= tips@.len(),
                self@.promote_tips(tips@, i as int, skip, stop_at_valid) == goal,
            decreases tips@.len() - i,
        {
            let tip = tips[i];
            let skipped = match skip {
                Some(s) => s == tip,
                None => false,
            };
            if !skipped {
                self.promote_tip(&tip, stop_at_valid);
            }
            i += 1;
        }
    }

    /// Turns the disconnected sub-tree of `head` into a valid one.
    fn make_valid_tips(&mut self, head: &H256)
        requires
            old(self).wf(),
        ensures
            final(self).wf(),
            final(self)@ == old(self)@.make_valid_tips(*head),
    {
        let tips = match self.disconnected_heads_mapping.remove_head(head) {
            Some(tips) => tips,
            None => {
                return ;
            },
        };
        self.disconnected_heads_heights.remove(head);
        self.promote_tips(&tips, None, true);
    }

    /// The greatest height from `from` down to 1 at which an orphan is
    /// recorded.
    fn next_level_down(&self, from: u64) -> (level: Option<u64>)
        requires
            self.wf(),
        ensures
            level == next_level_down(self@.heights, from),
    {
        let mut current = from;
        loop
            invariant
                self.wf(),
                next_level_down(self@.heights, current) == next_level_down(self@.heights, from),
            ensures
                current == 0 ==> next_level_down(self@.heights, from).is_none(),
                current != 0 ==> next_level_down(self@.heights, from) == Some(current),
            decreases current,
        {
            if current == 0 {
                break ;
            }
            match self.heights_mapping.level_len(current) {
                Some(n) => {
                    if n > 0 {
                        break ;
                    }
                },
                None => {},
            }
            current -= 1;
        }
        if current == 0 {
            None
        } else {
            Some(current)
        }
    }

    /// Writes `block` on top of the canonical chain.
    fn write_block(&mut self, block: Arc<B>)
        requires
            old(self).wf(),
            old(self)@.extends_tip(block),
        ensures
            final(self).wf(),
            final(self)@ == old(self)@.write_block(block),
    {
        let hash = block.block_hash();
        let block_height = block.height();
        let height = self.height + 1;

        self.db.put(StoreKey::Block(hash), block.to_bytes());
        self.canonical_tip = share(&block);
        self.height = height;
        self.db.put(StoreKey::Height, encode_be_u64(height));
        self.db.put(StoreKey::Tip, hash.to_vec());
        self.db.put(StoreKey::BlockHeight(hash), encode_be_u64(height));

        self.orphan_pool.remove(&hash);
        self.heights_mapping.remove(block_height, &hash);
        self.validations_mapping.remove(&hash);
        self.valid_tips.remove(&hash);

        match self.max_orphan_height {
            Some(max_height) => {
                if block_height == max_height {
                    self.max_orphan_height = self.next_level_down(block_height);
                }
            },
            None => {},
        }

        let tips = self.disconnected_heads_mapping.remove_head(&hash);
        self.disconnected_heads_heights.remove(&hash);
        self.disconnected_tips_mapping.remove(&hash);

        match tips {
            Some(tips) => {
                self.promote_tips(&tips, Some(hash), false);
            },
            None => {},
        }

        B::after_write(block);
    }

    /// The head of the disconnected sub-tree that can be attached to the
    /// valid tip `tip`.
    fn attached_head(&self, tip: &H256) -> (found: Option<(H256, u64, Arc<B>)>)
        requires
            self.wf(),
        ensures
            match found {
                Some((head, largest_height, largest_tip)) => {
                    &&& self@.attached_head(*tip) == Some(head)
                    &&& largest_height == self@.heads_heights.map[head].0
                    &&& largest_tip == self@.pool.map[self@.heads_heights.map[head].1]
                },
                None => self@.attached_head(*tip).is_none(),
            },
    {
        let mut best: Option<(H256, u64, H256)> = None;
        let n = self.disconnected_heads_heights.len();
        let mut i: usize = 0;
        while i < n
            invariant
                self.wf(),
                n == self@.heads_heights.order.len(),
                i <= n,
                match best {
                    Some((head, height, tallest)) => {
                        &&& self@.heads_heights.map.contains_key(head)
                        &&& self@.heads_heights.map[head] == (height, tallest)
                        &&& self@.tallest_follower(*tip, i as int, Some(head))
                            == self@.tallest_follower(*tip, 0, None)
                    },
                    None => self@.tallest_follower(*tip, i as int, None) == self@.tallest_follower(
                        *tip,
                        0,
                        None,
                    ),
                },
            decreases n - i,
        {
            let head = self.disconnected_heads_heights.key_at(i);
            let (height, tallest) = *self.disconnected_heads_heights.value_at(i);
            let follows = match self.orphan_pool.get(&head) {
                Some(block) => match block.parent_hash() {
                    Some(parent) => parent == *tip,
                    None => false,
                },
                None => false,
            };
            if follows {
                let better = match best {
                    Some((_, best_height, _)) => height > best_height,
                    None => true,
                };
                if better {
                    best = Some((head, height, tallest));
                }
            }
            i += 1;
        }
        match best {
            Some((head, height, tallest)) => match self.orphan_pool.get(&tallest) {
                Some(block) => Some((head, height, share(block))),
                None => None,
            },
            None => None,
        }
    }

    /// Offers the valid tip `tip` to the disconnected sub-trees. Hands back
    /// the tip of the chain afterwards, the inverse height of `tip`, and
    /// its standing.
    fn attempt_attach_valid(&mut self, tip: Arc<B>) -> (attached: (Arc<B>, u64, OrphanType))
        requires
            old(self).wf(),
        ensures
            final(self).wf(),
            final(self)@ == old(self)@.attempt_attach_valid(tip),
            attached.0 == old(self)@.attach_valid_tip(tip),
            attached.1 == old(self)@.attach_valid_inverse(tip),
            attached.2 == old(self)@.attach_valid_standing(tip),
    {
        let tip_hash = tip.block_hash();
        match self.attached_head(&tip_hash) {
            Some((head, largest_height, largest_tip)) => {
                let tip_height = tip.height();
                let inverse = if largest_height >= tip_height {
                    largest_height - tip_height
                } else {
                    0
                };
                self.make_valid_tips(&head);
                self.recurse_inverse(&largest_tip, 0, true);
                (largest_tip, inverse, OrphanType::BelongsToValidChain)
            },
            None => {
                self.recurse_inverse(&tip, 0, true);
                (tip, 0, OrphanType::ValidChainTip)
            },
        }
    }

    /// Makes the tip `tip` of an attached sub-tree a tip of the sub-tree of
    /// `head`.
    fn merge_tip(&mut self, head: &H256, tip: &H256)
        requires
            old(self).wf(),
        ensures
            final(self).wf(),
            final(self)@ == old(self)@.merge_tip(*head, *tip),
    {
        let (height, hash) = match self.orphan_pool.get(tip) {
            Some(block) => (block.height(), block.block_hash()),
            None => {
                return ;
            },
        };
        let taller = match self.disconnected_heads_heights.get(head) {
            Some(entry) => height > entry.0,
            None => false,
        };
        self.disconnected_tips_mapping.insert(*tip, *head);
        if taller {
            self.disconnected_heads_heights.insert(*head, (height, hash));
        }
        self.disconnected_heads_mapping.add_tip(head, *tip);
    }

    /// Fuses the sub-tree of `head` into the sub-tree of `our_head`.
    fn attach_head(&mut self, our_head: &H256, head: &H256)
        requires
            old(self).wf(),
        ensures
            final(self).wf(),
            final(self)@ == old(self)@.attach_head(*our_head, *head),
    {
        let tips = match self.disconnected_heads_mapping.remove_head(head) {
            Some(tips) => tips,
            None => {
                return ;
            },
        };
        self.disconnected_heads_heights.remove(head);
        if !self.disconnected_heads_mapping.contains_head(our_head) {
            self.disconnected_heads_mapping.insert_head(*our_head, Vec::new());
        }
        self.disconnected_heads_mapping.remove_tip(our_head, our_head);
        self.disconnected_tips_mapping.remove(our_head);

        let ghost merged = self@.merge_tips(*our_head, tips@, 0);
        let mut i: usize = 0;
        while i < tips.len()
            invariant
                self.wf(),
                i <= tips@.len(),
                self@.merge_tips(*our_head, tips@, i as int) == merged,
            decreases tips@.len() - i,
        {
            let tip = tips[i];
            self.merge_tip(our_head, &tip);
            i += 1;
        }

        let ghost goal = self@.recurse_tips(tips@, 0);
        let mut j: usize = 0;
        while j < tips.len()
            invariant
                self.wf(),
                j <= tips@.len(),
                self@.recurse_tips(tips@, j as int) == goal,
            decreases tips@.len() - j,
        {
            let tip = tips[j];
            let block = match self.orphan_pool.get(&tip) {
                Some(block) => Some(share(block)),
                None => None,
            };
            match block {
                Some(block) => {
                    self.recurse_inverse(&block, 0, false);
                },
                None => {},
            }
            j += 1;
        }
    }

    /// The heads that are attached to the tip `tip` of the sub-tree of
    /// `our_head`.
    fn attachable(&self, tip: &H256, our_head: &H256) -> (heads: Vec<H256>)
        requires
            self.wf(),
        ensures
            heads@ == self@.attachable(*tip, *our_head, self@.heads.order.len() as int),
    {
        let mut heads: Vec<H256> = Vec::new();
        let n = self.disconnected_heads_mapping.len();
        let mut i: usize = 0;
        while i < n
            invariant
                self.wf(),
                n == self@.heads.order.len(),
                i <= n,
                heads@ == self@.attachable(*tip, *our_head, i as int),
            decreases n - i,
        {
            let head = self.disconnected_heads_mapping.head_at(i);
            if !(head == *our_head) && !(head == *tip) {
                let follows = match self.orphan_pool.get(&head) {
                    Some(block) => match block.parent_hash() {
                        Some(parent) => parent == *tip,
                        None => false,
                    },
                    None => false,
                };
                if follows {
                    heads.push(head);
                }
            }
            i += 1;
        }
        heads
    }

    /// Attaches to the disconnected tip `tip_hash` every disconnected
    /// sub-tree whose head follows it. Hands back the standing of the tip
    /// afterwards.
    fn attempt_attach(&mut self, tip_hash: &H256, initial_status: OrphanType) -> (status:
        OrphanType)
        requires
            old(self).wf(),
        ensures
            final(self).wf(),
            final(self)@ == old(self)@.attempt_attach(*tip_hash),
            status == old(self)@.attach_standing(*tip_hash, initial_status),
    {
        let our_head = match self.disconnected_tips_mapping.get(tip_hash) {
            Some(head) => *head,
            None => {
                return initial_status;
            },
        };
        let to_attach = self.attachable(tip_hash, &our_head);
        let ghost goal = self@.attach_heads(our_head, to_attach@, 0);
        let mut i: usize = 0;
        while i < to_attach.len()
            invariant
                self.wf(),
                i <= to_attach@.len(),
                self@.attach_heads(our_head, to_attach@, i as int) == goal,
            decreases to_attach@.len() - i,
        {
            let head = to_attach[i];
            self.attach_head(&our_head, &head);
            i += 1;
        }
        if to_attach.len() > 0 {
            OrphanType::BelongsToDisconnected
        } else {
            initial_status
        }
    }

    /// The block that the store holds under `hash`.
    fn load(&self, hash: &H256) -> (block: Option<Arc<B>>)
        requires
            self.wf(),
        ensures
            block == self@.stored(*hash),
    {
        match self.db.get(&StoreKey::Block(*hash)) {
            Some(bytes) => match B::from_bytes(bytes.as_slice()) {
                Ok(block) => if block.block_hash() == *hash {
                    Some(block)
                } else {
                    None
                },
                Err(_) => None,
            },
            None => None,
        }
    }

    /// The canonical blocks from the tip down to the child of `target`.
    fn descent(&self, target: &H256) -> (path: Option<Vec<Arc<B>>>)
        requires
            self.wf(),
        ensures
            match path {
                Some(p) => self@.descent(self@.tip, *target, Seq::empty()) == Some(p@),
                None => self@.descent(self@.tip, *target, Seq::empty()).is_none(),
            },
    {
        let ghost goal = self@.descent(self@.tip, *target, Seq::empty());
        let mut path: Vec<Arc<B>> = Vec::new();
        let mut current = share(&self.canonical_tip);
        loop
            invariant
                self.wf(),
                goal == self@.descent(self@.tip, *target, Seq::empty()),
                self@.descent(current, *target, path@) == goal,
            decreases current.spec_height(),
        {
            let parent = match current.parent_hash() {
                Some(parent) => parent,
                None => {
                    return None;
                },
            };
            if parent == *target {
                path.push(current);
                return Some(path);
            }
            let below = match self.load(&parent) {
                Some(below) => below,
                None => {
                    return None;
                },
            };
            if below.height() >= current.height() {
                return None;
            }
            path.push(current);
            current = below;
        }
    }

    /// Moves the canonical block `block` to the pool.
    fn unwind_block(&mut self, block: Arc<B>, inverse: u64)
        requires
            old(self).wf(),
        ensures
            final(self).wf(),
            final(self)@ == old(self)@.unwind_block(block, inverse),
    {
        let hash = block.block_hash();
        let height = block.height();
        self.db.remove(&StoreKey::Block(hash));
        self.orphan_pool.insert(hash, block);
        if inverse == 0 {
            self.validations_mapping.insert(hash, OrphanType::ValidChainTip);
            self.valid_tips.insert(hash, ());
        } else {
            self.validations_mapping.insert(hash, OrphanType::BelongsToValidChain);
            self.valid_tips.remove(&hash);
        }
        self.heights_mapping.put(height, hash, inverse);
        self.update_max_orphan_height(height);
    }

    /// Rewinds the canonical chain to the block with the given hash, which
    /// is not the hash of genesis.
    ///
    /// Every block above it moves from the store to the orphan pool: the
    /// former tip as the tip of a valid chain, the others as members of
    /// it, with inverse heights 0, 1, 2 and so on from the former tip
    /// down. Nothing changes where the block is the canonical tip. Fails
    /// with `NoSuchBlock`, and changes nothing, where the store does not
    /// hold the block or the walk down from the tip does not reach it.
    pub fn rewind(&mut self, block_hash: &H256) -> (result: Result<(), ChainErr>)
        requires
            old(self).wf(),
            *block_hash != B::spec_genesis().spec_hash(),
        ensures
            final(self).wf(),
            match result {
                Ok(_) => old(self)@.can_rewind(*block_hash) && final(self)@ == old(self)@.rewind(
                    *block_hash,
                ),
                Err(e) => e == ChainErr::NoSuchBlock && !old(self)@.can_rewind(*block_hash)
                    && final(self)@ == old(self)@,
            },
    {
        self.rewind_to(block_hash)
    }

    /// Rewinds the canonical chain to the block with the given hash.
    fn rewind_to(&mut self, block_hash: &H256) -> (result: Result<(), ChainErr>)
        requires
            old(self).wf(),
        ensures
            final(self).wf(),
            match result {
                Ok(_) => old(self)@.can_rewind(*block_hash) && final(self)@ == old(self)@.rewind(
                    *block_hash,
                ),
                Err(e) => e == ChainErr::NoSuchBlock && !old(self)@.can_rewind(*block_hash)
                    && final(self)@ == old(self)@,
            },
    {
        let new_tip = match self.load(block_hash) {
            Some(block) => block,
            None => {
                return Err(ChainErr::NoSuchBlock);
            },
        };
        if self.canonical_tip.block_hash() == *block_hash {
            return Ok(());
        }
        let path = match self.descent(block_hash) {
            Some(path) => path,
            None => {
                return Err(ChainErr::NoSuchBlock);
            },
        };
        let ghost goal = self@.unwind(path@, 0);
        let mut i: usize = 0;
        while i < path.len()
            invariant
                self.wf(),
                i <= path@.len(),
                self@.unwind(path@, i as int) == goal,
            decreases path@.len() - i,
        {
            let block = share(&path[i]);
            self.unwind_block(block, i as u64);
            i += 1;
        }
        let height = new_tip.height();
        self.height = height;
        self.db.put(StoreKey::Height, encode_be_u64(height));
        self.db.put(StoreKey::Tip, block_hash.to_vec());
        self.canonical_tip = new_tip;
        Ok(())
    }

    /// Whether `block` can be written on top of the canonical chain.
    fn extends_tip(&self, block: &Arc<B>) -> (extends: bool)
        ensures
            extends == self@.extends_tip(*block),
    {
        let follows = match block.parent_hash() {
            Some(parent) => parent == self.canonical_tip.block_hash(),
            None => false,
        };
        follows && self.height < u64::MAX && block.height() == self.height + 1
    }

    /// The blocks from the first one whose parent is canonical up to
    /// `candidate`, the lowest in front, and the hash of that parent.
    fn branch(&self, candidate: &Arc<B>) -> (found: Option<(VecDeque<Arc<B>>, H256)>)
        requires
            self.wf(),
        ensures
            match found {
                Some((path, horizon)) => self@.branch(*candidate, Seq::empty()) == Some(
                    (path@.reverse(), horizon),
                ),
                None => self@.branch(*candidate, Seq::empty()).is_none(),
            },
    {
        let ghost goal = self@.branch(*candidate, Seq::empty());
        let mut path: VecDeque<Arc<B>> = VecDeque::new();
        let mut current = share(candidate);
        assert(path@.reverse() =~= Seq::<Arc<B>>::empty());
        loop
            invariant
                self.wf(),
                goal == self@.branch(*candidate, Seq::empty()),
                self@.branch(current, path@.reverse()) == goal,
            decreases current.spec_height(),
        {
            let height = current.height();
            let parent = match current.parent_hash() {
                Some(parent) => parent,
                None => {
                    return None;
                },
            };
            if self.db.contains(&StoreKey::Block(parent)) {
                let horizon = match self.load(&parent) {
                    Some(horizon) => horizon,
                    None => {
                        return None;
                    },
                };
                let below = horizon.height();
                if below < height && below + 1 == height {
                    let ghost before = path@;
                    path.push_front(current);
                    assert(path@.reverse() =~= before.reverse().push(current));
                    return Some((path, parent));
                } else {
                    return None;
                }
            }
            let next = match self.orphan_pool.get(&parent) {
                Some(block) => share(block),
                None => {
                    return None;
                },
            };
            let below = next.height();
            if next.block_hash() == parent && below < height && below + 1 == height {
                let ghost before = path@;
                path.push_front(current);
                assert(path@.reverse() =~= before.reverse().push(current));
                current = next;
            } else {
                return None;
            }
        }
    }

    /// Switches the canonical chain to the valid chain with the tip
    /// `candidate_tip`, where that chain is taller.
    fn attempt_switch(&mut self, candidate_tip: Arc<B>)
        requires
            old(self).wf(),
        ensures
            final(self).wf(),
            final(self)@ == old(self)@.attempt_switch(candidate_tip),
    {
        if !self.valid_tips.contains_key(&candidate_tip.block_hash()) {
            return ;
        }
        if candidate_tip.height() <= self.height {
            return ;
        }
        let (branch, horizon) = match self.branch(&candidate_tip) {
            Some(found) => found,
            None => {
                return ;
            },
        };
        match self.rewind_to(&horizon) {
            Ok(_) => {},
            Err(_) => {
                return ;
            },
        }
        let ghost goal = self@.replay(branch@.reverse(), branch@.len() as int);
        let mut next: usize = 0;
        loop
            invariant
                self.wf(),
                next <= branch@.len(),
                self@.replay(branch@.reverse(), branch@.len() - next) == goal,
            ensures
                self.wf(),
                self@ == goal,
            decreases branch@.len() - next,
        {
            if next == branch.len() {
                break ;
            }
            let block = share(&branch[next]);
            assert(branch@.reverse()[branch@.len() - next - 1] == branch@[next as int]);
            if !self.extends_tip(&block) {
                break ;
            }
            self.write_block(block);
            next += 1;
        }
    }

    /// Whether the orphan `hash` can be written on top of the canonical
    /// chain.
    fn orphan_extends_tip(&self, hash: &H256) -> (extends: bool)
        requires
            self.wf(),
        ensures
            extends == self@.orphan_extends_tip(*hash),
    {
        match self.orphan_pool.get(hash) {
            Some(block) => self.extends_tip(block),
            None => false,
        }
    }

    /// Writes the orphan `hash` on top of the canonical chain, where it
    /// can be.
    fn write_orphan_block(&mut self, hash: &H256)
        requires
            old(self).wf(),
        ensures
            final(self).wf(),
            final(self)@ == old(self)@.write_orphan_block(*hash),
    {
        let block = match self.orphan_pool.get(hash) {
            Some(block) => share(block),
            None => {
                return ;
            },
        };
        if self.extends_tip(&block) {
            self.write_block(block);
        }
    }

    /// The orphans among `entries` that can be written on top of the
    /// canonical chain.
    fn followers(&self, entries: &Vec<(H256, u64)>) -> (buf: Vec<(H256, u64)>)
        requires
            self.wf(),
        ensures
            buf@ == self@.followers(entries@, entries@.len() as int),
    {
        let mut buf: Vec<(H256, u64)> = Vec::new();
        let mut i: usize = 0;
        while i < entries.len()
            invariant
                self.wf(),
                i <= entries@.len(),
                buf@ == self@.followers(entries@, i as int),
            decreases entries@.len() - i,
        {
            let entry = entries[i];
            if self.orphan_extends_tip(&entry.0) {
                buf.push(entry);
            }
            i += 1;
        }
        buf
    }

    /// Lets each of `entries` whose parent is in the working set take its
    /// parent's place as the tip of a valid chain.
    fn relink(&mut self, entries: &Vec<(H256, u64)>, working: &mut OrderedSet)
        requires
            old(self).wf(),
            old(working).wf(),
        ensures
            final(self).wf(),
            final(working).wf(),
            (final(self)@, final(working)@.order) == old(self)@.relink(entries@, 0, old(working)@.order),
    {
        let ghost goal = self@.relink(entries@, 0, working@.order);
        let mut i: usize = 0;
        while i < entries.len()
            invariant
                self.wf(),
                working.wf(),
                i <= entries@.len(),
                self@.relink(entries@, i as int, working@.order) == goal,
            decreases entries@.len() - i,
        {
            let hash = entries[i].0;
            let parent = match self.orphan_pool.get(&hash) {
                Some(block) => if self.extends_tip(block) {
                    None
                } else {
                    block.parent_hash()
                },
                None => None,
            };
            match parent {
                Some(parent) => {
                    proof {
                        working.lemma_wf();
                    }
                    if working.contains_key(&parent) && self.valid_tips.contains_key(&parent) {
                        self.validations_mapping.insert(parent, OrphanType::BelongsToValidChain);
                        self.validations_mapping.insert(hash, OrphanType::ValidChainTip);
                        self.valid_tips.remove(&parent);
                        self.valid_tips.insert(hash, ());
                        working.remove(&parent);
                        proof {
                            working.lemma_wf();
                        }
                        working.insert(hash, ());
                    }
                },
                None => {},
            }
            i += 1;
        }
    }

    /// Makes each of `entries`, but for `written`, the tip of a valid
    /// chain.
    fn keep_tips(
        &mut self,
        entries: &Vec<(H256, u64)>,
        written: Option<H256>,
        working: &mut OrderedSet,
    )
        requires
            old(self).wf(),
            old(working).wf(),
        ensures
            final(self).wf(),
            final(working).wf(),
            (final(self)@, final(working)@.order) == old(self)@.keep_tips(
                entries@,
                0,
                written,
                old(working)@.order,
            ),
    {
        let ghost goal = self@.keep_tips(entries@, 0, written, working@.order);
        let mut i: usize = 0;
        while i < entries.len()
            invariant
                self.wf(),
                working.wf(),
                i <= entries@.len(),
                self@.keep_tips(entries@, i as int, written, working@.order) == goal,
            decreases entries@.len() - i,
        {
            let hash = entries[i].0;
            let skipped = match written {
                Some(w) => w == hash,
                None => false,
            };
            if !skipped {
                if self.disconnected_heads_mapping.contains_head(&hash) {
                    self.make_valid_tips(&hash);
                }
                proof {
                    working.lemma_wf();
                }
                working.insert(hash, ());
            }
            i += 1;
        }
    }

    /// The drain at a height whose level holds `entries`.
    fn drain_level(
        &mut self,
        entries: &Vec<(H256, u64)>,
        done: bool,
        working: &mut OrderedSet,
    ) -> (step:
        DrainStep)
        requires
            old(self).wf(),
            old(working).wf(),
        ensures
            final(self).wf(),
            final(working).wf(),
            (final(self)@, final(working)@.order, step) == old(self)@.drain_level(
                entries@,
                done,
                old(working)@.order,
            ),
    {
        if entries.len() == 1 {
            let hash = entries[0].0;
            if !done && self.orphan_extends_tip(&hash) {
                self.write_orphan_block(&hash);
                DrainStep::Advance
            } else {
                DrainStep::Stop
            }
        } else if entries.len() == 0 {
            if working.is_empty() || done {
                DrainStep::Stop
            } else {
                DrainStep::AdvanceDone
            }
        } else {
            let buf = self.followers(entries);
            self.relink(entries, working);
            if buf.len() == 0 {
                if working.is_empty() || done {
                    DrainStep::Stop
                } else {
                    DrainStep::Repeat
                }
            } else {
                let winner = if done {
                    None
                } else {
                    Some(buf[Self::deepest(&buf)].0)
                };
                match winner {
                    Some(hash) => {
                        self.write_orphan_block(&hash);
                    },
                    None => {},
                }
                self.keep_tips(&buf, winner, working);
                DrainStep::Advance
            }
        }
    }

    /// Writes the orphans that follow the canonical tip, from the height
    /// `start_height` on.
    fn process_orphans(&mut self, start_height: u64)
        requires
            old(self).wf(),
        ensures
            final(self).wf(),
            final(self)@ == old(self)@.process_orphans(start_height),
    {
        let max = match self.max_orphan_height {
            Some(max) => max,
            None => {
                return ;
            },
        };
        let ghost goal = self@.drain(start_height, max, false, Seq::empty());
        let mut h = start_height;
        let mut done = false;
        let mut working: OrderedSet = OrderedMap::new();
        loop
            invariant_except_break
                self@.drain(h, max, done, working@.order) == goal,
            invariant
                self.wf(),
                working.wf(),
            ensures
                self@ == goal,
            decreases max - h, (if done { 0int } else { 1int }),
        {
            if h > max {
                break ;
            }
            let step = match self.heights_mapping.level(h) {
                Some(entries) => self.drain_level(&entries, done, &mut working),
                None => DrainStep::Advance,
            };
            match step {
                DrainStep::Stop => {
                    break ;
                },
                DrainStep::Advance => {
                    if h < max {
                        h += 1;
                    } else {
                        break ;
                    }
                },
                DrainStep::AdvanceDone => {
                    if h < max {
                        h += 1;
                        done = true;
                    } else {
                        break ;
                    }
                },
                DrainStep::Repeat => {
                    if done {
                        break ;
                    }
                    done = true;
                },
            }
        }
    }

    /// The place in `entries` of the orphan with the greatest inverse
    /// height; of several such, the last.
    fn deepest(entries: &Vec<(H256, u64)>) -> (place: usize)
        requires
            entries@.len() > 0,
        ensures
            place == deepest(entries@, entries@.len() as int),
            place < entries@.len(),
    {
        let mut place: usize = 0;
        let mut i: usize = 1;
        while i < entries.len()
            invariant
                1 <= i <= entries@.len(),
                place < i,
                place == deepest(entries@, i as int),
            decreases entries@.len() - i,
        {
            if entries[i].1 >= entries[place].1 {
                place = i;
            }
            i += 1;
        }
        place
    }

    /// The head of the disconnected sub-tree above the orphan `start`.
    fn head_above(&self, start: &H256, limit: u64) -> (head: Option<H256>)
        requires
            self.wf(),
        ensures
            head == self@.head_above(*start, limit),
    {
        let mut current = *start;
        let mut below = limit;
        loop
            invariant
                self.wf(),
                self@.head_above(current, below) == self@.head_above(*start, limit),
            decreases below,
        {
            if self.disconnected_heads_mapping.contains_head(&current) {
                return Some(current);
            }
            let (parent, height) = match self.orphan_pool.get(&current) {
                Some(block) => (block.parent_hash(), block.height()),
                None => {
                    return None;
                },
            };
            if height >= below {
                return None;
            }
            match parent {
                Some(parent) => {
                    current = parent;
                    below = height;
                },
                None => {
                    return None;
                },
            }
        }
    }

    /// The first valid tip that is an orphan with the hash `hash`.
    fn matching_valid_tip(&self, hash: &H256) -> (found: Option<Arc<B>>)
        requires
            self.wf(),
        ensures
            match found {
                Some(block) => self@.matching_valid_tip(*hash, 0).is_some() && block
                    == self@.pool.map[self@.matching_valid_tip(*hash, 0).unwrap()],
                None => self@.matching_valid_tip(*hash, 0).is_none(),
            },
    {
        let n = self.valid_tips.len();
        let mut i: usize = 0;
        while i < n
            invariant
                self.wf(),
                n == self@.valid_tips.order.len(),
                i <= n,
                self@.matching_valid_tip(*hash, i as int) == self@.matching_valid_tip(*hash, 0),
            decreases n - i,
        {
            let tip = self.valid_tips.key_at(i);
            match self.orphan_pool.get(&tip) {
                Some(block) => {
                    if block.block_hash() == *hash {
                        return Some(share(block));
                    }
                },
                None => {},
            }
            i += 1;
        }
        None
    }

    /// Takes a new block that lies inside a valid chain out of the valid
    /// tips.
    fn settle_valid(&mut self, hash: &H256, standing: OrphanType)
        requires
            old(self).wf(),
        ensures
            final(self).wf(),
            final(self)@ == old(self)@.settle_valid(*hash, standing),
    {
        match standing {
            OrphanType::BelongsToValidChain => {
                self.mark(*hash, OrphanType::BelongsToValidChain);
            },
            _ => {},
        }
    }

    /// Takes in a block whose parent is a canonical block below the tip.
    fn append_fork(&mut self, block: Arc<B>)
        requires
            old(self).wf(),
        ensures
            final(self).wf(),
            final(self)@ == old(self)@.append_fork(block),
    {
        let hash = block.block_hash();
        self.write_orphan(share(&block), OrphanType::ValidChainTip, 0);
        let (tip, _, status) = self.attempt_attach_valid(block);
        match status {
            OrphanType::ValidChainTip => {},
            _ => {
                self.settle_valid(&hash, status);
                self.attempt_switch(tip);
            },
        }
    }

    /// Lets a block that stands as a tip in the sub-tree of `head` take in the
    /// sub-trees that follow it.
    fn settle_disconnected(&mut self, block: Arc<B>, head: H256, again: bool)
        requires
            old(self).wf(),
        ensures
            final(self).wf(),
            final(self)@ == old(self)@.settle_disconnected(block, head, again),
    {
        let hash = block.block_hash();
        let status = self.attempt_attach(&hash, OrphanType::DisconnectedTip);
        match status {
            OrphanType::DisconnectedTip => {
                if again {
                    self.disconnected_tips_mapping.insert(hash, head);
                }
                self.recurse_inverse(&block, 0, false);
            },
            _ => {
                self.validations_mapping.insert(hash, status);
                self.disconnected_heads_mapping.remove_tip(&head, &hash);
                self.disconnected_tips_mapping.remove(&hash);
            },
        }
    }

    /// Whether the disconnected tip `parent` has its sub-tree on record.
    fn tip_on_record(&self, parent: &H256) -> (complete: bool)
        requires
            self.wf(),
        ensures
            complete == self@.tip_on_record(*parent),
    {
        match self.disconnected_tips_mapping.get(parent) {
            Some(head) => self.disconnected_heads_mapping.contains_head(head)
                && self.disconnected_heads_heights.contains_key(head),
            None => false,
        }
    }

    /// Takes in a block whose parent is a disconnected tip.
    fn append_to_disconnected_tip(&mut self, block: Arc<B>, parent: &H256)
        requires
            old(self).wf(),
            old(self)@.tip_on_record(*parent),
        ensures
            final(self).wf(),
            final(self)@ == old(self)@.append_to_disconnected_tip(block, *parent),
    {
        let hash = block.block_hash();
        let height = block.height();
        let head = match self.disconnected_tips_mapping.get(parent) {
            Some(head) => *head,
            None => {
                return ;
            },
        };
        let largest = match self.disconnected_heads_heights.get(&head) {
            Some(entry) => entry.0,
            None => {
                return ;
            },
        };
        self.validations_mapping.insert(*parent, OrphanType::BelongsToDisconnected);
        self.disconnected_heads_mapping.remove_tip(&head, parent);
        self.disconnected_heads_mapping.add_tip(&head, hash);
        self.disconnected_tips_mapping.remove(parent);
        if height > largest {
            self.disconnected_heads_heights.insert(head, (height, hash));
        }
        self.write_orphan(share(&block), OrphanType::DisconnectedTip, 0);
        self.disconnected_tips_mapping.insert(hash, head);
        self.settle_disconnected(block, head, false);
    }

    /// Takes in a block whose parent is the tip of a valid chain.
    fn append_to_valid_tip(&mut self, block: Arc<B>, parent: &H256)
        requires
            old(self).wf(),
        ensures
            final(self).wf(),
            final(self)@ == old(self)@.append_to_valid_tip(block, *parent),
    {
        self.mark(*parent, OrphanType::BelongsToValidChain);
        self.write_orphan(share(&block), OrphanType::ValidChainTip, 0);
        let (tip, inverse, status) = self.attempt_attach_valid(share(&block));
        self.recurse_inverse(&block, inverse, inverse == 0);
        self.settle_valid(&block.block_hash(), status);
        self.attempt_switch(tip);
    }

    /// Takes in a block whose parent lies inside the disconnected sub-tree of
    /// `head`.
    fn append_to_disconnected(&mut self, block: Arc<B>, head: H256)
        requires
            old(self).wf(),
        ensures
            final(self).wf(),
            final(self)@ == old(self)@.append_to_disconnected(block, head),
    {
        let hash = block.block_hash();
        self.write_orphan(share(&block), OrphanType::DisconnectedTip, 0);
        self.disconnected_heads_mapping.add_tip(&head, hash);
        self.disconnected_tips_mapping.insert(hash, head);
        self.settle_disconnected(block, head, true);
    }

    /// Takes in a block whose parent lies inside a valid chain.
    fn append_to_valid(&mut self, block: Arc<B>)
        requires
            old(self).wf(),
        ensures
            final(self).wf(),
            final(self)@ == old(self)@.append_to_valid(block),
    {
        let hash = block.block_hash();
        self.valid_tips.insert(hash, ());
        let (tip, inverse, status) = self.attempt_attach_valid(share(&block));
        self.write_orphan(block, status, inverse);
        self.recurse_inverse(&tip, inverse, inverse == 0);
        self.settle_valid(&hash, status);
        self.attempt_switch(tip);
    }

    /// Takes in a block whose parent is unknown.
    fn append_disconnected(&mut self, block: Arc<B>, parent: &H256)
        requires
            old(self).wf(),
        ensures
            final(self).wf(),
            final(self)@ == old(self)@.append_disconnected(block, *parent),
    {
        let hash = block.block_hash();
        let height = block.height();
        let mut tips: Vec<H256> = Vec::new();
        tips.push(hash);
        assert(tips@ =~= seq![hash]);
        self.disconnected_heads_mapping.insert_head(hash, tips);
        self.disconnected_tips_mapping.insert(hash, hash);
        self.disconnected_heads_heights.insert(hash, (height, hash));
        self.heights_mapping.put(height, hash, 0);
        self.orphan_pool.insert(hash, share(&block));
        let status = self.attempt_attach(&hash, OrphanType::DisconnectedTip);
        let found = self.matching_valid_tip(parent);
        self.write_orphan(block, status, 0);
        match found {
            Some(tip) => {
                let _ = self.attempt_attach_valid(tip);
            },
            None => {},
        }
    }

    /// Whether the height of `block` lies outside the window around the
    /// canonical height.
    fn outside_window(&self, block: &Arc<B>) -> (outside: bool)
        ensures
            outside == self@.outside_window(*block),
    {
        let lowest = if self.height > MIN_HEIGHT {
            self.height - MIN_HEIGHT
        } else {
            1
        };
        let height = block.height();
        let above = height > MAX_HEIGHT && height - MAX_HEIGHT > self.height;
        above || height < lowest
    }

    /// Takes in a block.
    ///
    /// Fails, and changes nothing, where `append_error` names an error for
    /// the block. Otherwise the state afterwards is the one that
    /// `append_block` of the state describes: the block is written where
    /// it extends the canonical tip, and the orphans that follow it are
    /// drained; else it joins the orphan pool as a fork of the canonical
    /// chain, as a descendant of an orphan, or as the seed of a
    /// disconnected sub-tree, and the canonical chain switches to a valid
    /// chain that has become taller.
    pub fn append_block(&mut self, block: Arc<B>) -> (result: Result<(), ChainErr>)
        requires
            old(self).wf(),
        ensures
            final(self).wf(),
            match result {
                Ok(_) => old(self)@.append_error(block).is_none() && final(self)@
                    == old(self)@.append_block(block),
                Err(e) => old(self)@.append_error(block) == Some(e) && final(self)@ == old(self)@,
            },
    {
        if self.outside_window(&block) {
            return Err(ChainErr::BadHeight);
        }
        let hash = block.block_hash();
        let height = block.height();
        if self.orphan_pool.contains_key(&hash) || self.db.contains(&StoreKey::Block(hash)) {
            return Err(ChainErr::AlreadyInChain);
        }
        let parent = match block.parent_hash() {
            Some(parent) => parent,
            None => {
                return Err(ChainErr::NoParentHash);
            },
        };
        if parent == self.canonical_tip.block_hash() {
            if !self.extends_tip(&block) {
                return Err(ChainErr::BadHeight);
            }
            self.write_block(block);
            if height < u64::MAX {
                self.process_orphans(height + 1);
            }
            return Ok(());
        }
        if self.orphan_pool.len() >= MAX_ORPHANS {
            return Err(ChainErr::TooManyOrphans);
        }
        if self.db.contains(&StoreKey::Block(parent)) {
            let below = match self.load(&parent) {
                Some(below) => below.height(),
                None => {
                    return Err(ChainErr::InvalidParent);
                },
            };
            if below == u64::MAX || height != below + 1 {
                return Err(ChainErr::BadHeight);
            }
            self.append_fork(block);
            return Ok(());
        }
        let below = match self.orphan_pool.get(&parent) {
            Some(orphan) => orphan.height(),
            None => {
                self.append_disconnected(block, &parent);
                return Ok(());
            },
        };
        if below == u64::MAX || height != below + 1 {
            return Err(ChainErr::BadHeight);
        }
        let standing = match self.validations_mapping.get(&parent) {
            Some(standing) => *standing,
            None => {
                return Err(ChainErr::InvalidParent);
            },
        };
        match standing {
            OrphanType::DisconnectedTip => {
                if !self.tip_on_record(&parent) {
                    return Err(ChainErr::InvalidParent);
                }
                self.append_to_disconnected_tip(block, &parent);
            },
            OrphanType::ValidChainTip => {
                self.append_to_valid_tip(block, &parent);
            },
            OrphanType::BelongsToDisconnected => {
                let head = match self.head_above(&parent, height) {
                    Some(head) => head,
                    None => {
                        return Err(ChainErr::InvalidParent);
                    },
                };
                self.append_to_disconnected(block, head);
            },
            OrphanType::BelongsToValidChain => {
                self.append_to_valid(block);
            },
        }
        Ok(())
    }

    /// The block with the given hash, where it is canonical. Orphans are
    /// not handed out.
    pub fn query(&self, hash: &H256) -> (block: Option<Arc<B>>)
        requires
            self.wf(),
        ensures
            block == self@.stored(*hash),
    {
        self.load(hash)
    }

    /// The block of the canonical chain at the given height: the one that
    /// the walk from the canonical tip down through the store comes to.
    pub fn query_by_height(&self, height: u64) -> (block: Option<Arc<B>>)
        requires
            self.wf(),
        ensures
            block == self@.ancestor_at(self@.tip, height),
    {
        let mut current = share(&self.canonical_tip);
        loop
            invariant
                self.wf(),
                self@.ancestor_at(current, height) == self@.ancestor_at(self@.tip, height),
            decreases current.spec_height(),
        {
            let here = current.height();
            if here == height {
                return Some(current);
            }
            if here < height {
                return None;
            }
            let parent = match current.parent_hash() {
                Some(parent) => parent,
                None => {
                    return None;
                },
            };
            let below = match self.load(&parent) {
                Some(below) => below,
                None => {
                    return None;
                },
            };
            if below.height() >= here {
                return None;
            }
            current = below;
        }
    }

    /// The height that the store has on record for the canonical block
    /// with the given hash.
    pub fn block_height(&self, hash: &H256) -> (height: Option<u64>)
        requires
            self.wf(),
        ensures
            height == self@.block_height(*hash),
    {
        if !self.db.contains(&StoreKey::Block(*hash)) {
            return None;
        }
        match self.db.get(&StoreKey::BlockHeight(*hash)) {
            Some(bytes) => decode_be_u64(bytes.as_slice()),
            None => None,
        }
    }

    /// The height of the canonical chain.
    pub fn height(&self) -> (height: u64)
        ensures
            height == self@.height,
    {
        self.height
    }

    /// The tip of the canonical chain.
    pub fn canonical_tip(&self) -> (tip: Arc<B>)
        ensures
            tip == self@.tip,
    {
        share(&self.canonical_tip)
    }

    /// The genesis block.
    pub fn genesis() -> (first: Arc<B>)
        ensures
            first == B::spec_genesis(),
    {
        B::genesis()
    }

    /// The store of the chain.
    pub fn store(&self) -> (store: &Store)
        ensures
            store@ == self@.store,
    {
        &self.db
    }

    /// The greatest height at which the drain looks for orphans.
    pub fn max_orphan_height(&self) -> (max: Option<u64>)
        ensures
            max == self@.max_orphan_height,
    {
        self.max_orphan_height
    }

    /// The number of orphans.
    pub fn orphan_count(&self) -> (count: usize)
        ensures
            count == self@.pool.len(),
    {
        self.orphan_pool.len()
    }

    /// The orphan with the given hash.
    pub fn orphan(&self, hash: &H256) -> (block: Option<Arc<B>>)
        requires
            self.wf(),
        ensures
            block == self@.pool.get(*hash),
    {
        match self.orphan_pool.get(hash) {
            Some(block) => Some(share(block)),
            None => None,
        }
    }

    /// The standing on record for the given hash.
    pub fn orphan_type(&self, hash: &H256) -> (standing: Option<OrphanType>)
        requires
            self.wf(),
        ensures
            standing == self@.validations.get(*hash),
    {
        match self.validations_mapping.get(hash) {
            Some(standing) => Some(*standing),
            None => None,
        }
    }

    /// The inverse height on record for the orphan `hash` of the height
    /// `height`.
    pub fn inverse_height(&self, height: u64, hash: &H256) -> (inverse: Option<u64>)
        requires
            self.wf(),
        ensures
            inverse == crate::heights::inverse_at(self@.heights, height, *hash),
    {
        self.heights_mapping.inverse(height, hash)
    }

    /// The head of the sub-tree of the disconnected tip `tip`.
    pub fn disconnected_head(&self, tip: &H256) -> (head: Option<H256>)
        requires
            self.wf(),
        ensures
            head == self@.tips.get(*tip),
    {
        match self.disconnected_tips_mapping.get(tip) {
            Some(head) => Some(*head),
            None => None,
        }
    }

    /// The tips of the disconnected sub-tree with the head `head`.
    pub fn disconnected_tips(&self, head: &H256) -> (tips: Option<Vec<H256>>)
        requires
            self.wf(),
        ensures
            match tips {
                Some(t) => self@.heads.get(*head) == Some(t@),
                None => self@.heads.get(*head).is_none(),
            },
    {
        match self.disconnected_heads_mapping.tips(head) {
            Some(tips) => Some(tips),
            None => None,
        }
    }

    /// The height and the hash of the tallest tip of the disconnected
    /// sub-tree with the head `head`.
    pub fn largest_tip(&self, head: &H256) -> (largest: Option<(u64, H256)>)
        requires
            self.wf(),
        ensures
            largest == self@.heads_heights.get(*head),
    {
        match self.disconnected_heads_heights.get(head) {
            Some(entry) => Some(*entry),
            None => None,
        }
    }

    /// Whether `hash` is on record as the tip of a valid chain.
    pub fn is_valid_tip(&self, hash: &H256) -> (present: bool)
        ensures
            present == self@.valid_tips.contains(*hash),
    {
        self.valid_tips.contains_key(hash)
    }

    /// The tips of the valid chains.
    pub fn valid_tips(&self) -> (tips: Vec<H256>)
        requires
            self.wf(),
        ensures
            tips@ == self@.valid_tips.order,
    {
        let n = self.valid_tips.len();
        let mut tips: Vec<H256> = Vec::with_capacity(n);
        let mut i: usize = 0;
        while i < n
            invariant
                self.wf(),
                n == self@.valid_tips.order.len(),
                i <= n,
                tips@ == self@.valid_tips.order.take(i as int),
            decreases n - i,
        {
            tips.push(self.valid_tips.key_at(i));
            assert(tips@ =~= self@.valid_tips.order.take(i + 1));
            i += 1;
        }
        assert(self@.valid_tips.order.take(n as int) =~= self@.valid_tips.order);
        tips
    }
}

} // verus!
