//! The greatest orphan height: what holds of it after every call.
use crate::block::Block;
use crate::chain::frames::same_levels;
use crate::chain::ledger::block_type_sound;
use crate::chain::state::{next_level_down, raised, ChainState, DrainStep};
use crate::hash::H256;
use crate::heights::{level_or_empty, level_seq, levels_put, levels_remove, HeightIndex};
use crate::ordered_map::Entries;
use crate::orphan_type::OrphanType;
use crate::store::StoreKey;
use std::sync::Arc;
use vstd::prelude::*;

verus! {

/// The number of orphans recorded at the height `height`.
pub open spec fn level_len(heights: Map<u64, Entries<u64>>, height: u64) -> nat {
    level_or_empty(heights, height).order.len()
}

/// `max` is the greatest height at which an orphan is recorded; it is
/// `None` if and only if no orphan is recorded at any height.
pub open spec fn tops(heights: Map<u64, Entries<u64>>, max: Option<u64>) -> bool {
    match max {
        Some(m) => level_len(heights, m) > 0 && forall|h: u64|
            level_len(heights, h) > 0 ==> h <= m,
        None => forall|h: u64| level_len(heights, h) == 0,
    }
}

/// Every level is well formed, and no orphan is recorded at height 0.
pub open spec fn levels_sound(heights: Map<u64, Entries<u64>>) -> bool {
    &&& HeightIndex::levels_wf(heights)
    &&& level_len(heights, 0) == 0
}

/// Recording an orphan at a height keeps the levels well formed, leaves an
/// orphan at that height, and changes the length of no other level.
pub proof fn lemma_put_level(heights: Map<u64, Entries<u64>>, height: u64, hash: H256, inverse: u64)
    requires
        HeightIndex::levels_wf(heights),
    ensures
        HeightIndex::levels_wf(levels_put(heights, height, hash, inverse)),
        level_len(levels_put(heights, height, hash, inverse), height) > 0,
        forall|h: u64|
            h != height ==> level_len(levels_put(heights, height, hash, inverse), h) == level_len(
                heights,
                h,
            ),
        level_len(levels_put(heights, height, hash, inverse), height) >= level_len(heights, height),
{
    let level = level_or_empty(heights, height);
    let after = levels_put(heights, height, hash, inverse);
    assert(level.wf()) by {
        if heights.contains_key(height) {
        } else {
            assert(Entries::<u64>::empty().order.no_duplicates());
            assert forall|k: H256| !(#[trigger] Entries::<u64>::empty().order.contains(k)) by {}
        }
    }
    level.lemma_insert_wf(hash, inverse);
    assert(after[height] == level.insert(hash, inverse));
    if level.map.contains_key(hash) {
        assert(level.order.contains(hash));
    }
    assert forall|h: u64| #[trigger] after.contains_key(h) implies after[h].wf() by {
        if h != height {
            assert(heights.contains_key(h));
        }
    }
}

/// Taking an orphan out at a height keeps the levels well formed, makes that
/// level no longer, and changes the length of no other level.
pub proof fn lemma_remove_level(heights: Map<u64, Entries<u64>>, height: u64, hash: H256)
    requires
        HeightIndex::levels_wf(heights),
    ensures
        HeightIndex::levels_wf(levels_remove(heights, height, hash)),
        forall|h: u64|
            h != height ==> level_len(levels_remove(heights, height, hash), h) == level_len(
                heights,
                h,
            ),
        level_len(levels_remove(heights, height, hash), height) <= level_len(heights, height),
{
    let after = levels_remove(heights, height, hash);
    if heights.contains_key(height) {
        let level = heights[height];
        level.lemma_remove_wf(hash);
        if level.map.contains_key(hash) {
            assert(level.order.contains(hash));
            let at = level.order.index_of(hash);
            assert(0 <= at < level.order.len());
        }
        assert forall|h: u64| #[trigger] after.contains_key(h) implies after[h].wf() by {
            if h != height {
                assert(heights.contains_key(h));
            }
        }
    }
}

/// Where no orphan is recorded above `from` or at height 0, `next_level_down`
/// finds the greatest height at which one is recorded.
pub proof fn lemma_next_level_down(heights: Map<u64, Entries<u64>>, from: u64)
    requires
        level_len(heights, 0) == 0,
        forall|h: u64| h > from ==> level_len(heights, h) == 0,
    ensures
        tops(heights, next_level_down(heights, from)),
    decreases from,
{
    if from == 0 {
        assert forall|h: u64| level_len(heights, h) == 0 by {
            if h > 0 {
            }
        }
    } else if heights.contains_key(from) && heights[from].len() > 0 {
    } else {
        assert(level_len(heights, from) == 0);
        assert forall|h: u64| h > (from - 1) as u64 implies level_len(heights, h) == 0 by {
            if h != from {
                assert(h > from);
            }
        }
        lemma_next_level_down(heights, (from - 1) as u64);
    }
}

/// Levels that hold the same orphans are well formed together and have the same
/// lengths.
pub proof fn lemma_same_levels(a: Map<u64, Entries<u64>>, b: Map<u64, Entries<u64>>)
    requires
        same_levels(a, b),
        HeightIndex::levels_wf(a),
    ensures
        HeightIndex::levels_wf(b),
        forall|h: u64| level_len(a, h) == level_len(b, h),
{
    assert forall|h: u64| #[trigger] b.contains_key(h) implies b[h].wf() by {
        assert(a.contains_key(h));
        assert(a[h].wf());
        assert forall|k: H256| b[h].map.contains_key(k) <==> #[trigger] b[h].order.contains(k) by {
            assert(a[h].map.contains_key(k) <==> a[h].order.contains(k));
        }
    }
    assert forall|h: u64| level_len(a, h) == level_len(b, h) by {
        if a.contains_key(h) {
            assert(b.contains_key(h));
        } else {
            assert(!b.contains_key(h));
        }
    }
}

/// Whether the orphan `hash` is recorded at the height `height`.
pub open spec fn recorded(heights: Map<u64, Entries<u64>>, height: u64, hash: H256) -> bool {
    level_or_empty(heights, height).map.contains_key(hash)
}

/// Every orphan is recorded at its own height, and whatever is recorded at
/// a height is an orphan of that height: so no orphan is recorded at a
/// height other than its own.
pub open spec fn homed<B: Block>(pool: Entries<Arc<B>>, heights: Map<u64, Entries<u64>>) -> bool {
    &&& forall|x: H256| #[trigger]
        pool.contains(x) ==> recorded(heights, pool.map[x].spec_height(), x)
    &&& forall|h: u64, x: H256| #[trigger]
        recorded(heights, h, x) ==> pool.contains(x) && pool.map[x].spec_height() == h
}

/// Recording an orphan at a height records that orphan there and changes
/// nothing else of what is recorded.
pub proof fn lemma_put_recorded(
    heights: Map<u64, Entries<u64>>,
    height: u64,
    hash: H256,
    inverse: u64,
)
    ensures
        forall|h: u64, x: H256| #[trigger]
            recorded(levels_put(heights, height, hash, inverse), h, x) <==> (recorded(
                heights,
                h,
                x,
            ) || (h == height && x == hash)),
{
    let after = levels_put(heights, height, hash, inverse);
    assert forall|h: u64, x: H256| #[trigger] recorded(after, h, x) <==> (recorded(heights, h, x)
        || (h == height && x == hash)) by {
        if h == height {
            assert(after[h] == level_or_empty(heights, h).insert(hash, inverse));
        }
    }
}

/// Taking an orphan out at a height takes that orphan out there and
/// changes nothing else of what is recorded.
pub proof fn lemma_remove_recorded(heights: Map<u64, Entries<u64>>, height: u64, hash: H256)
    ensures
        forall|h: u64, x: H256| #[trigger]
            recorded(levels_remove(heights, height, hash), h, x) <==> (recorded(heights, h, x) && !(
            h == height && x == hash)),
{
    let after = levels_remove(heights, height, hash);
    assert forall|h: u64, x: H256| #[trigger] recorded(after, h, x) <==> (recorded(heights, h, x)
        && !(h == height && x == hash)) by {
        if h == height && heights.contains_key(height) {
            assert(after[h] == heights[h].remove(hash));
        }
    }
}

impl<B: Block> ChainState<B> {
    /// What holds of the levels: each is well formed, none is recorded at
    /// height 0, the greatest orphan height is the greatest height at
    /// which an orphan is recorded, and the orphans recorded at a height
    /// are the orphans of that height.
    pub open spec fn levels_ok(self) -> bool {
        &&& levels_sound(self.heights)
        &&& tops(self.heights, self.max_orphan_height)
        &&& homed(self.pool, self.heights)
    }

    /// A step that leaves the orphans of each height and the greatest orphan
    /// height as they are keeps the levels sound.
    pub proof fn lemma_base_keeps_levels(self, other: Self)
        requires
            self.levels_ok(),
            self.same_base(other),
        ensures
            other.levels_ok(),
    {
        lemma_same_levels(self.heights, other.heights);
        assert forall|x: H256| #[trigger] other.pool.contains(x) implies recorded(
            other.heights,
            other.pool.map[x].spec_height(),
            x,
        ) by {
            assert(recorded(self.heights, self.pool.map[x].spec_height(), x));
        }
        assert forall|h: u64, x: H256| #[trigger] recorded(other.heights, h, x)
            implies other.pool.contains(x) && other.pool.map[x].spec_height() == h by {
            assert(recorded(self.heights, h, x));
        }
    }

    /// Recording an orphan of a height above 0 and raising the greatest
    /// orphan height to its height keeps the levels sound.
    pub proof fn lemma_record_levels(heights: Map<u64, Entries<u64>>, max: Option<u64>, height: u64)
        requires
            levels_sound(heights),
            level_len(heights, height) > 0,
            match max {
                Some(m) => level_len(heights, m) > 0 || m == height,
                None => true,
            },
            forall|h: u64|
                level_len(heights, h) > 0 ==> h == height || (max.is_some() && h <= max.unwrap()),
        ensures
            tops(heights, raised(max, height)),
    {
    }

    /// Putting a block of a height above 0 into the pool keeps the levels
    /// sound.
    pub proof fn lemma_with_orphan_levels(self, orphan: Arc<B>, standing: OrphanType, inverse: u64)
        requires
            self.levels_ok(),
            orphan.spec_height() > 0,
            self.pool.contains(orphan.spec_hash()) ==> self.pool.map[orphan.spec_hash()] == orphan,
        ensures
            self.with_orphan(orphan, standing, inverse).levels_ok(),
    {
        let after = self.with_orphan(orphan, standing, inverse);
        let height = orphan.spec_height();
        let hash = orphan.spec_hash();
        lemma_put_recorded(self.heights, height, hash, inverse);
        assert(homed(after.pool, after.heights)) by {
            if crate::heights::inverse_at(self.heights, height, hash).is_some() {
                assert(recorded(self.heights, height, hash));
            }
            assert forall|x: H256| #[trigger] after.pool.contains(x) implies recorded(
                after.heights,
                after.pool.map[x].spec_height(),
                x,
            ) by {
                if x != hash {
                    assert(self.pool.contains(x));
                    assert(recorded(self.heights, self.pool.map[x].spec_height(), x));
                }
            }
            assert forall|h: u64, x: H256| #[trigger] recorded(after.heights, h, x)
                implies after.pool.contains(x) && after.pool.map[x].spec_height() == h by {
                if recorded(self.heights, h, x) {
                }
            }
        }
        if crate::heights::inverse_at(self.heights, height, hash).is_some() {
            assert(self.heights[height].wf());
            assert(self.heights[height].order.contains(hash));
            assert(level_len(self.heights, height) > 0);
        } else {
            lemma_put_level(self.heights, height, hash, inverse);
        }
        assert forall|h: u64| level_len(after.heights, h) > 0 implies h == height || (
        self.max_orphan_height.is_some() && h <= self.max_orphan_height.unwrap()) by {
            if h != height {
                assert(level_len(self.heights, h) > 0);
            }
        }
        Self::lemma_record_levels(after.heights, self.max_orphan_height, height);
    }

    /// Moving a canonical block of a height above 0 to the pool keeps the
    /// levels sound.
    pub proof fn lemma_unwind_block_levels(self, block: Arc<B>, inverse: u64)
        requires
            self.levels_ok(),
            block.spec_height() > 0,
            !self.pool.contains(block.spec_hash()),
        ensures
            self.unwind_block(block, inverse).levels_ok(),
    {
        let after = self.unwind_block(block, inverse);
        lemma_put_recorded(self.heights, block.spec_height(), block.spec_hash(), inverse);
        assert(homed(after.pool, after.heights)) by {
            assert forall|x: H256| #[trigger] after.pool.contains(x) implies recorded(
                after.heights,
                after.pool.map[x].spec_height(),
                x,
            ) by {
                if x != block.spec_hash() {
                    assert(self.pool.contains(x));
                    assert(recorded(self.heights, self.pool.map[x].spec_height(), x));
                }
            }
            assert forall|h: u64, x: H256| #[trigger] recorded(after.heights, h, x)
                implies after.pool.contains(x) && after.pool.map[x].spec_height() == h by {
                if recorded(self.heights, h, x) {
                }
            }
        }
        lemma_put_level(self.heights, block.spec_height(), block.spec_hash(), inverse);
        assert forall|h: u64| level_len(after.heights, h) > 0 implies h == block.spec_height() || (
        self.max_orphan_height.is_some() && h <= self.max_orphan_height.unwrap()) by {
            if h != block.spec_height() {
                assert(level_len(self.heights, h) > 0);
            }
        }
        Self::lemma_record_levels(after.heights, self.max_orphan_height, block.spec_height());
    }

    /// Moving canonical blocks to the pool keeps the levels sound.
    pub proof fn lemma_unwind_levels(self, path: Seq<Arc<B>>, from: int)
        requires
            self.levels_ok(),
            0 <= from <= path.len(),
            forall|i: int| 0 <= i < path.len() ==> (#[trigger] path[i]).spec_height() > 0,
            crate::chain::ledger::path_is_new(self.pool, path, from),
        ensures
            self.unwind(path, from).levels_ok(),
        decreases path.len() - from,
    {
        if 0 <= from < path.len() && from <= u64::MAX {
            self.lemma_unwind_block_levels(path[from], from as u64);
            self.unwind_block(path[from], from as u64).lemma_unwind_levels(path, from + 1);
        }
    }

    /// Rewinding keeps the levels sound.
    pub proof fn lemma_rewind_levels(self, target: H256)
        requires
            self.ledger_ok(),
            self.levels_ok(),
            self.can_rewind(target),
        ensures
            self.rewind(target).levels_ok(),
    {
        if self.tip.spec_hash() != target {
            let path = self.descent(self.tip, target, Seq::empty()).unwrap();
            assert(self.is_stored(target));
            if self.height == 0 {
                assert(false);
            }
            self.lemma_descent(self.tip, target, Seq::empty());
            assert forall|i: int| 0 <= i < path.len() implies (#[trigger] path[i]).spec_height()
                > 0 by {
                assert(self.stored(path[i].spec_hash()) == Some(path[i]));
                assert(self.is_stored(path[i].spec_hash()));
            }
            self.lemma_descent_is_new(target);
            self.lemma_unwind_levels(path, 0);
        }
    }

    /// Writing a block that is no orphan, or the orphan under its hash,
    /// keeps the levels sound.
    pub proof fn lemma_write_block_levels(self, block: Arc<B>)
        requires
            self.levels_ok(),
            self.pool.contains(block.spec_hash()) ==> self.pool.map[block.spec_hash()] == block,
        ensures
            self.write_block(block).levels_ok(),
    {
        let hash = block.spec_hash();
        let height = (self.height + 1) as u64;
        let heights = levels_remove(self.heights, block.spec_height(), hash);
        let written = self.written(block);
        lemma_remove_level(self.heights, block.spec_height(), hash);
        if self.max_orphan_height == Some(block.spec_height()) {
            assert forall|h: u64| h > block.spec_height() implies level_len(heights, h) == 0 by {
                assert(level_len(self.heights, h) == 0);
            }
            lemma_next_level_down(heights, block.spec_height());
        } else {
            match self.max_orphan_height {
                Some(m) => {
                    assert forall|h: u64| level_len(heights, h) > 0 implies h <= m by {
                        assert(level_len(self.heights, h) > 0);
                    }
                },
                None => {
                    assert forall|h: u64| level_len(heights, h) == 0 by {
                        assert(level_len(self.heights, h) == 0);
                    }
                },
            }
        }
        lemma_remove_recorded(self.heights, block.spec_height(), hash);
        assert(homed(written.pool, written.heights)) by {
            assert forall|x: H256| #[trigger] written.pool.contains(x) implies recorded(
                written.heights,
                written.pool.map[x].spec_height(),
                x,
            ) by {
                assert(self.pool.contains(x));
                assert(recorded(self.heights, self.pool.map[x].spec_height(), x));
            }
            assert forall|h: u64, x: H256| #[trigger] recorded(written.heights, h, x)
                implies written.pool.contains(x) && written.pool.map[x].spec_height() == h by {
                assert(recorded(self.heights, h, x));
            }
        }
        assert(written.levels_ok());
        if self.heads.contains(hash) {
            written.lemma_promote_tips_base(self.heads.map[hash], 0, Some(hash), false);
            written.lemma_base_keeps_levels(self.write_block(block));
        }
    }

    /// Writing a branch of orphans keeps the levels sound.
    pub proof fn lemma_replay_levels(self, branch: Seq<Arc<B>>, count: int)
        requires
            block_type_sound::<B>(),
            self.ledger_ok(),
            self.levels_ok(),
            self.branch_in_pool(branch, count),
        ensures
            self.replay(branch, count).levels_ok(),
        decreases count,
    {
        if 0 < count <= branch.len() && self.extends_tip(branch[count - 1]) {
            let block = branch[count - 1];
            assert(self.pool.contains(block.spec_hash()));
            self.lemma_write_block_levels(block);
            self.lemma_write_block_ledger(block);
            let written = self.write_block(block);
            assert(written.branch_in_pool(branch, count - 1)) by {
                assert forall|i: int| 0 <= i < count - 1 implies written.pool.contains(
                    (#[trigger] branch[i]).spec_hash(),
                ) && written.pool.map[branch[i].spec_hash()] == branch[i] by {
                    assert(branch[i].spec_hash() != branch[count - 1].spec_hash());
                    assert(self.pool.contains(branch[i].spec_hash()));
                }
            }
            written.lemma_replay_levels(branch, count - 1);
        }
    }

    /// Offering the canonical chain a branch keeps the levels sound.
    pub proof fn lemma_attempt_switch_levels(self, candidate: Arc<B>)
        requires
            block_type_sound::<B>(),
            self.ledger_ok(),
            self.levels_ok(),
            self.pool.contains(candidate.spec_hash()),
            self.pool.map[candidate.spec_hash()] == candidate,
        ensures
            self.attempt_switch(candidate).levels_ok(),
    {
        if self.switches_to(candidate) {
            let (branch, horizon) = self.branch(candidate, Seq::empty()).unwrap();
            self.lemma_branch(candidate, Seq::empty());
            self.lemma_rewind_levels(horizon);
            self.lemma_rewind_ledger(horizon);
            let rewound = self.rewind(horizon);
            assert(rewound.branch_in_pool(branch, branch.len() as int)) by {
                assert forall|i: int| 0 <= i < branch.len() implies self.pool.contains(
                    (#[trigger] branch[i]).spec_hash(),
                ) && self.pool.map[branch[i].spec_hash()] == branch[i] by {}
                assert forall|i: int, j: int| 0 <= i < j < branch.len() implies (
                #[trigger] branch[i]).spec_hash() != (#[trigger] branch[j]).spec_hash() by {
                    assert(branch[i].spec_height() != branch[j].spec_height());
                    assert(self.pool.map[branch[i].spec_hash()] == branch[i]);
                    assert(self.pool.map[branch[j].spec_hash()] == branch[j]);
                }
            }
            rewound.lemma_replay_levels(branch, branch.len() as int);
        }
    }

    /// Writing an orphan where it extends the tip keeps the levels sound.
    pub proof fn lemma_write_orphan_block_levels(self, hash: H256)
        requires
            block_type_sound::<B>(),
            self.ledger_ok(),
            self.levels_ok(),
        ensures
            self.write_orphan_block(hash).levels_ok(),
    {
        if self.orphan_extends_tip(hash) {
            assert(self.pool.map[hash].spec_hash() == hash);
            self.lemma_write_block_levels(self.pool.map[hash]);
        }
    }

    /// The drain at one height keeps the levels sound.
    pub proof fn lemma_drain_level_levels(
        self,
        entries: Seq<(H256, u64)>,
        done: bool,
        working: Seq<H256>,
    )
        requires
            block_type_sound::<B>(),
            self.ledger_ok(),
            self.levels_ok(),
        ensures
            self.drain_level(entries, done, working).0.levels_ok(),
    {
        if entries.len() == 1 {
            self.lemma_write_orphan_block_levels(entries[0].0);
        } else if entries.len() == 0 {
        } else {
            let buf = self.followers(entries, entries.len() as int);
            let (linked, set) = self.relink(entries, 0, working);
            self.lemma_relink_base(entries, 0, working);
            self.lemma_base_keeps_levels(linked);
            self.lemma_base_keeps_ledger(linked);
            if buf.len() == 0 {
            } else {
                let winner = if done {
                    None
                } else {
                    Some(buf[crate::chain::state::deepest(buf, buf.len() as int)].0)
                };
                let written = match winner {
                    Some(hash) => linked.write_orphan_block(hash),
                    None => linked,
                };
                match winner {
                    Some(hash) => {
                        linked.lemma_write_orphan_block_levels(hash);
                    },
                    None => {},
                }
                written.lemma_keep_tips_base(buf, 0, winner, set);
                written.lemma_base_keeps_levels(written.keep_tips(buf, 0, winner, set).0);
            }
        }
    }

    /// The drain keeps the levels sound.
    pub proof fn lemma_drain_levels(self, height: u64, max: u64, done: bool, working: Seq<H256>)
        requires
            block_type_sound::<B>(),
            self.ledger_ok(),
            self.levels_ok(),
        ensures
            self.drain(height, max, done, working).levels_ok(),
        decreases max - height, (if done { 0int } else { 1int }),
    {
        if height <= max {
            let (next, set, step) = if self.heights.contains_key(height) {
                self.drain_level(level_seq(self.heights[height]), done, working)
            } else {
                (self, working, DrainStep::Advance)
            };
            if self.heights.contains_key(height) {
                self.lemma_drain_level_levels(level_seq(self.heights[height]), done, working);
                self.lemma_drain_level_ledger(level_seq(self.heights[height]), done, working);
            }
            match step {
                DrainStep::Stop => {},
                DrainStep::Advance => {
                    if height < max {
                        next.lemma_drain_levels((height + 1) as u64, max, done, set);
                    }
                },
                DrainStep::AdvanceDone => {
                    if height < max {
                        next.lemma_drain_levels((height + 1) as u64, max, true, set);
                    }
                },
                DrainStep::Repeat => {
                    if !done {
                        next.lemma_drain_levels(height, max, true, set);
                    }
                },
            }
        }
    }

    /// Taking in a block whose parent is an orphan keeps the levels sound.
    pub proof fn lemma_append_to_orphan_levels(
        self,
        block: Arc<B>,
        parent: H256,
        standing: OrphanType,
    )
        requires
            block_type_sound::<B>(),
            self.ledger_ok(),
            self.levels_ok(),
            !self.knows(block.spec_hash()),
            block.spec_height() > 0,
            crate::chain::ledger::apart(block),
        ensures
            self.append_to_orphan(block, parent, standing).levels_ok(),
    {
        let hash = block.spec_hash();
        match standing {
            OrphanType::DisconnectedTip => {
                let head = self.tips.map[parent];
                let largest = self.heads_heights.map[head].0;
                let replaced = ChainState {
                    validations: self.validations.insert(parent, OrphanType::BelongsToDisconnected),
                    heads: crate::tip_sets::sets_add_tip(
                        crate::tip_sets::sets_remove_tip(self.heads, head, parent),
                        head,
                        hash,
                    ),
                    tips: self.tips.remove(parent),
                    heads_heights: if block.spec_height() > largest {
                        self.heads_heights.insert(head, (block.spec_height(), hash))
                    } else {
                        self.heads_heights
                    },
                    ..self
                };
                self.lemma_base_keeps_levels(replaced);
                replaced.lemma_with_orphan_levels(block, OrphanType::DisconnectedTip, 0);
                let written = replaced.with_orphan(block, OrphanType::DisconnectedTip, 0);
                let tipped = ChainState { tips: written.tips.insert(hash, head), ..written };
                written.lemma_base_keeps_levels(tipped);
                tipped.lemma_settle_disconnected_base(block, head, false);
                tipped.lemma_base_keeps_levels(tipped.settle_disconnected(block, head, false));
            },
            OrphanType::ValidChainTip => {
                let marked = self.mark(parent, OrphanType::BelongsToValidChain);
                self.lemma_base_keeps_levels(marked);
                self.lemma_base_keeps_ledger(marked);
                marked.lemma_with_orphan_levels(block, OrphanType::ValidChainTip, 0);
                marked.lemma_with_orphan_ledger(block, OrphanType::ValidChainTip, 0);
                let written = marked.with_orphan(block, OrphanType::ValidChainTip, 0);
                let tip = written.attach_valid_tip(block);
                let inverse = written.attach_valid_inverse(block);
                let attached = written.attempt_attach_valid(block);
                written.lemma_attempt_attach_valid_base(block);
                written.lemma_base_keeps_levels(attached);
                written.lemma_base_keeps_ledger(attached);
                let lifted = attached.recurse_inverse(block, inverse, inverse == 0);
                attached.lemma_recurse_inverse_base(block, inverse, inverse == 0);
                attached.lemma_base_keeps_levels(lifted);
                attached.lemma_base_keeps_ledger(lifted);
                let tipped = lifted.settle_valid(
                    block.spec_hash(),
                    written.attach_valid_standing(block),
                );
                lifted.lemma_settle_valid_base(
                    block.spec_hash(),
                    written.attach_valid_standing(block),
                );
                lifted.lemma_base_keeps_levels(tipped);
                lifted.lemma_base_keeps_ledger(tipped);
                tipped.lemma_attempt_switch_levels(tip);
            },
            OrphanType::BelongsToDisconnected => {
                let head = self.head_above(parent, block.spec_height()).unwrap();
                self.lemma_with_orphan_levels(block, OrphanType::DisconnectedTip, 0);
                let written = self.with_orphan(block, OrphanType::DisconnectedTip, 0);
                let tipped = ChainState {
                    heads: crate::tip_sets::sets_add_tip(written.heads, head, hash),
                    tips: written.tips.insert(hash, head),
                    ..written
                };
                written.lemma_base_keeps_levels(tipped);
                tipped.lemma_settle_disconnected_base(block, head, true);
                tipped.lemma_base_keeps_levels(tipped.settle_disconnected(block, head, true));
            },
            OrphanType::BelongsToValidChain => {
                let tipped = ChainState { valid_tips: self.valid_tips.insert(hash, ()), ..self };
                self.lemma_base_keeps_levels(tipped);
                self.lemma_base_keeps_ledger(tipped);
                let tip = tipped.attach_valid_tip(block);
                let inverse = tipped.attach_valid_inverse(block);
                let standing = tipped.attach_valid_standing(block);
                let attached = tipped.attempt_attach_valid(block);
                tipped.lemma_attempt_attach_valid_base(block);
                tipped.lemma_base_keeps_levels(attached);
                tipped.lemma_base_keeps_ledger(attached);
                attached.lemma_with_orphan_levels(block, standing, inverse);
                attached.lemma_with_orphan_ledger(block, standing, inverse);
                let written = attached.with_orphan(block, standing, inverse);
                let lifted = written.recurse_inverse(tip, inverse, inverse == 0);
                written.lemma_recurse_inverse_base(tip, inverse, inverse == 0);
                written.lemma_base_keeps_levels(lifted);
                written.lemma_base_keeps_ledger(lifted);
                let settled = lifted.settle_valid(hash, standing);
                lifted.lemma_settle_valid_base(hash, standing);
                lifted.lemma_base_keeps_levels(settled);
                lifted.lemma_base_keeps_ledger(settled);
                settled.lemma_attempt_switch_levels(tip);
            },
        }
    }

    /// Taking in a block whose parent is unknown keeps the levels sound.
    pub proof fn lemma_append_disconnected_levels(self, block: Arc<B>, parent: H256)
        requires
            self.levels_ok(),
            block.spec_height() > 0,
            !self.pool.contains(block.spec_hash()),
        ensures
            self.append_disconnected(block, parent).levels_ok(),
    {
        let hash = block.spec_hash();
        let height = block.spec_height();
        let seeded = ChainState {
            heads: self.heads.insert(hash, seq![hash]),
            tips: self.tips.insert(hash, hash),
            heads_heights: self.heads_heights.insert(hash, (height, hash)),
            heights: levels_put(self.heights, height, hash, 0),
            pool: self.pool.insert(hash, block),
            ..self
        };
        lemma_put_level(self.heights, height, hash, 0);
        let standing = seeded.attach_standing(hash, OrphanType::DisconnectedTip);
        let attached = seeded.attempt_attach(hash);
        seeded.lemma_attempt_attach_base(hash);
        lemma_same_levels(seeded.heights, attached.heights);
        let written = attached.with_orphan(block, standing, 0);
        assert(homed(written.pool, written.heights)) by {
            lemma_put_recorded(self.heights, height, hash, 0);
            lemma_put_recorded(attached.heights, height, hash, 0);
            assert forall|h: u64, x: H256|
                recorded(attached.heights, h, x) == recorded(seeded.heights, h, x) by {
                assert(attached.heights.contains_key(h) <==> seeded.heights.contains_key(h));
            }
            assert(recorded(seeded.heights, height, hash));
            assert forall|x: H256| #[trigger] written.pool.contains(x) implies recorded(
                written.heights,
                written.pool.map[x].spec_height(),
                x,
            ) by {
                if x != hash {
                    assert(self.pool.contains(x));
                    assert(recorded(self.heights, self.pool.map[x].spec_height(), x));
                    assert(recorded(seeded.heights, self.pool.map[x].spec_height(), x));
                    assert(recorded(attached.heights, self.pool.map[x].spec_height(), x));
                } else {
                    assert(recorded(attached.heights, height, hash));
                }
            }
            assert forall|h: u64, x: H256| #[trigger] recorded(written.heights, h, x)
                implies written.pool.contains(x) && written.pool.map[x].spec_height() == h by {
                if recorded(attached.heights, h, x) {
                    assert(recorded(seeded.heights, h, x));
                    if recorded(self.heights, h, x) {
                    }
                }
            }
        }
        assert(written.levels_ok()) by {
            if crate::heights::inverse_at(attached.heights, height, hash).is_some() {
            } else {
                lemma_put_level(attached.heights, height, hash, 0);
            }
            assert forall|h: u64| level_len(written.heights, h) > 0 implies h == height || (
            self.max_orphan_height.is_some() && h <= self.max_orphan_height.unwrap()) by {
                if h != height {
                    assert(level_len(attached.heights, h) > 0);
                    assert(level_len(seeded.heights, h) > 0);
                    assert(level_len(self.heights, h) > 0);
                }
            }
            match self.max_orphan_height {
                Some(m) => {
                    if m != height {
                        assert(level_len(self.heights, m) > 0);
                        assert(level_len(seeded.heights, m) > 0);
                        assert(level_len(attached.heights, m) > 0);
                    }
                },
                None => {},
            }
            Self::lemma_record_levels(written.heights, self.max_orphan_height, height);
        }
        match attached.matching_valid_tip(parent, 0) {
            Some(tip) => {
                written.lemma_attempt_attach_valid_base(attached.pool.map[tip]);
                written.lemma_base_keeps_levels(
                    written.attempt_attach_valid(attached.pool.map[tip]),
                );
            },
            None => {},
        }
    }

    /// Taking in a block keeps the levels sound.
    pub proof fn lemma_append_block_levels(self, block: Arc<B>)
        requires
            block_type_sound::<B>(),
            self.ledger_ok(),
            self.levels_ok(),
            self.append_error(block).is_none(),
            crate::chain::ledger::apart(block),
        ensures
            self.append_block(block).levels_ok(),
    {
        let parent = block.spec_parent_hash().unwrap();
        assert(!self.knows(block.spec_hash()));
        assert(block.spec_height() > 0);
        if parent == self.tip.spec_hash() {
            self.lemma_write_block_levels(block);
            self.lemma_write_block_ledger(block);
            let written = self.write_block(block);
            if block.spec_height() < u64::MAX {
                match written.max_orphan_height {
                    Some(max) => {
                        written.lemma_drain_levels(
                            (block.spec_height() + 1) as u64,
                            max,
                            false,
                            Seq::empty(),
                        );
                    },
                    None => {},
                }
            }
        } else if self.store.contains_key(StoreKey::Block(parent)) {
            self.lemma_with_orphan_levels(block, OrphanType::ValidChainTip, 0);
            self.lemma_with_orphan_ledger(block, OrphanType::ValidChainTip, 0);
            let written = self.with_orphan(block, OrphanType::ValidChainTip, 0);
            let attached = written.attempt_attach_valid(block);
            written.lemma_attempt_attach_valid_base(block);
            written.lemma_base_keeps_levels(attached);
            written.lemma_base_keeps_ledger(attached);
            let standing = written.attach_valid_standing(block);
            let settled = attached.settle_valid(block.spec_hash(), standing);
            attached.lemma_settle_valid_base(block.spec_hash(), standing);
            attached.lemma_base_keeps_levels(settled);
            attached.lemma_base_keeps_ledger(settled);
            if standing != OrphanType::ValidChainTip {
                settled.lemma_attempt_switch_levels(written.attach_valid_tip(block));
            }
        } else if self.pool.contains(parent) {
            self.lemma_append_to_orphan_levels(block, parent, self.validations.map[parent]);
        } else {
            self.lemma_append_disconnected_levels(block, parent);
        }
    }
}

} // verus!
