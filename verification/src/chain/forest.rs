//! The disconnected sub-trees: what holds of their two maps after every
//! call.
use crate::block::Block;
use crate::chain::ledger::block_type_sound;
use crate::chain::state::ChainState;
use crate::orphan_type::OrphanType;
use crate::store::StoreKey;
use crate::hash::H256;
use crate::ordered_map::Entries;
use crate::tip_sets::{
    lemma_with_tip, lemma_without_tip, sets_add_tip, sets_remove_tip, with_tip, without_tip,
};
use std::sync::Arc;
use vstd::prelude::*;

verus! {

/// Whether the walk from the orphan `from` through the parents in the pool
/// gets to `to` within `steps` steps.
pub open spec fn reaches<B: Block>(pool: Entries<Arc<B>>, from: H256, to: H256, steps: nat) -> bool
    decreases steps,
{
    pool.contains(from) && (from == to || (steps > 0 && match pool.map[from].spec_parent_hash() {
        Some(parent) => reaches(pool, parent, to, (steps - 1) as nat),
        None => false,
    }))
}

/// What holds of the disconnected sub-trees.
///
/// Every head is an orphan, and no head has a tip twice. Every
/// disconnected tip is an orphan; its head is a head, has it among its
/// tips, and is reached from it through the parents in the pool; a tip
/// that is a head is its own head. And every tip of a head has that head
/// as its head: the two maps are inverses of each other.
pub open spec fn forest<B: Block>(
    pool: Entries<Arc<B>>,
    heads: Entries<Seq<H256>>,
    tips: Entries<H256>,
) -> bool {
    &&& forall|h: H256| #[trigger]
        heads.map.contains_key(h) ==> heads.map[h].no_duplicates() && pool.contains(h)
    &&& forall|t: H256| #[trigger]
        tips.map.contains_key(t) ==> {
            &&& pool.contains(t)
            &&& heads.map.contains_key(tips.map[t])
            &&& heads.map[tips.map[t]].contains(t)
            &&& exists|n: nat| reaches(pool, t, tips.map[t], n)
            &&& (heads.map.contains_key(t) ==> tips.map[t] == t)
        }
    &&& forall|h: H256, t: H256|
        heads.map.contains_key(h) && #[trigger] heads.map[h].contains(t)
            ==> tips.map.contains_key(t) && tips.map[t] == h
}

/// A walk stays a walk when an orphan joins the pool under a new hash.
pub proof fn lemma_reaches_insert<B: Block>(
    pool: Entries<Arc<B>>,
    key: H256,
    block: Arc<B>,
    from: H256,
    to: H256,
    steps: nat,
)
    requires
        reaches(pool, from, to, steps),
        !pool.contains(key) || pool.map[key] == block,
    ensures
        reaches(pool.insert(key, block), from, to, steps),
    decreases steps,
{
    if from != to {
        let parent = pool.map[from].spec_parent_hash().unwrap();
        lemma_reaches_insert(pool, key, block, parent, to, (steps - 1) as nat);
    }
}

/// A walk stays a walk when an orphan whose parent is no orphan leaves the
/// pool, unless the walk ends at it.
pub proof fn lemma_reaches_remove<B: Block>(
    pool: Entries<Arc<B>>,
    key: H256,
    from: H256,
    to: H256,
    steps: nat,
)
    requires
        reaches(pool, from, to, steps),
        to != key,
        pool.contains(key) ==> match pool.map[key].spec_parent_hash() {
            Some(parent) => !pool.contains(parent),
            None => true,
        },
    ensures
        reaches(pool.remove(key), from, to, steps),
    decreases steps,
{
    if from != to {
        let parent = pool.map[from].spec_parent_hash().unwrap();
        assert(reaches(pool, parent, to, (steps - 1) as nat));
        assert(from != key);
        lemma_reaches_remove(pool, key, parent, to, (steps - 1) as nat);
    }
}

/// Two walks, one behind the other, make one walk.
pub proof fn lemma_reaches_concat<B: Block>(
    pool: Entries<Arc<B>>,
    a: H256,
    b: H256,
    c: H256,
    n: nat,
    m: nat,
)
    requires
        reaches(pool, a, b, n),
        reaches(pool, b, c, m),
    ensures
        reaches(pool, a, c, n + m),
    decreases n,
{
    if a == b {
        lemma_reaches_longer(pool, b, c, m, n + m);
    } else {
        let parent = pool.map[a].spec_parent_hash().unwrap();
        lemma_reaches_concat(pool, parent, b, c, (n - 1) as nat, m);
        if a != c {
            assert(reaches(pool, parent, c, ((n + m) - 1) as nat));
        }
    }
}

/// A walk of some length is a walk of any greater length.
pub proof fn lemma_reaches_longer<B: Block>(
    pool: Entries<Arc<B>>,
    a: H256,
    b: H256,
    n: nat,
    m: nat,
)
    requires
        reaches(pool, a, b, n),
        n <= m,
    ensures
        reaches(pool, a, b, m),
    decreases n,
{
    if a != b {
        let parent = pool.map[a].spec_parent_hash().unwrap();
        lemma_reaches_longer(pool, parent, b, (n - 1) as nat, (m - 1) as nat);
    }
}

/// An orphan that joins the pool under a new hash leaves the disconnected
/// sub-trees sound.
pub proof fn lemma_forest_insert<B: Block>(
    pool: Entries<Arc<B>>,
    heads: Entries<Seq<H256>>,
    tips: Entries<H256>,
    key: H256,
    block: Arc<B>,
)
    requires
        forest(pool, heads, tips),
        !pool.contains(key) || pool.map[key] == block,
    ensures
        forest(pool.insert(key, block), heads, tips),
{
    let after = pool.insert(key, block);
    assert forall|t: H256| #[trigger] tips.map.contains_key(t) implies exists|n: nat|
        reaches(after, t, tips.map[t], n) by {
        let n = choose|n: nat| reaches(pool, t, tips.map[t], n);
        lemma_reaches_insert(pool, key, block, t, tips.map[t], n);
    }
}

/// A new orphan that is the head and only tip of its own sub-tree leaves
/// the disconnected sub-trees sound.
pub proof fn lemma_forest_seed<B: Block>(
    pool: Entries<Arc<B>>,
    heads: Entries<Seq<H256>>,
    tips: Entries<H256>,
    key: H256,
    block: Arc<B>,
)
    requires
        forest(pool, heads, tips),
        !pool.contains(key),
    ensures
        forest(pool.insert(key, block), heads.insert(key, seq![key]), tips.insert(key, key)),
{
    let pool2 = pool.insert(key, block);
    let heads2 = heads.insert(key, seq![key]);
    let tips2 = tips.insert(key, key);
    lemma_forest_insert(pool, heads, tips, key, block);
    assert(!heads.map.contains_key(key));
    assert(!tips.map.contains_key(key));
    assert forall|t: H256| #[trigger] tips2.map.contains_key(t) implies {
        &&& pool2.contains(t)
        &&& heads2.map.contains_key(tips2.map[t])
        &&& heads2.map[tips2.map[t]].contains(t)
        &&& exists|n: nat| reaches(pool2, t, tips2.map[t], n)
        &&& (heads2.map.contains_key(t) ==> tips2.map[t] == t)
    } by {
        if t == key {
            assert(seq![key][0] == key);
            assert(reaches(pool2, key, key, 0));
        } else {
            assert(tips.map.contains_key(t));
            assert(tips.map[t] != key);
            let n = choose|n: nat| reaches(pool2, t, tips.map[t], n);
            assert(reaches(pool2, t, tips2.map[t], n));
        }
    }
    assert forall|h: H256, t: H256|
        heads2.map.contains_key(h) && #[trigger] heads2.map[h].contains(
            t,
        ) implies tips2.map.contains_key(t) && tips2.map[t] == h by {
        if h == key {
            let i = choose|i: int| 0 <= i < seq![key].len() && seq![key][i] == t;
            assert(t == key);
        } else {
            assert(heads.map.contains_key(h) && heads.map[h].contains(t));
            assert(tips.map.contains_key(t));
        }
    }
    assert forall|h: H256| #[trigger] heads2.map.contains_key(h)
        implies heads2.map[h].no_duplicates()
        && pool2.contains(h) by {
        if h != key {
            assert(heads.map.contains_key(h));
        }
    }
}

/// A new orphan that takes the place of its parent among the tips of a
/// head leaves the disconnected sub-trees sound.
pub proof fn lemma_forest_replace_tip<B: Block>(
    pool: Entries<Arc<B>>,
    heads: Entries<Seq<H256>>,
    tips: Entries<H256>,
    key: H256,
    block: Arc<B>,
    parent: H256,
)
    requires
        forest(pool, heads, tips),
        !pool.contains(key),
        block.spec_parent_hash() == Some(parent),
        tips.map.contains_key(parent),
    ensures
        forest(
            pool.insert(key, block),
            sets_add_tip(sets_remove_tip(heads, tips.map[parent], parent), tips.map[parent], key),
            tips.remove(parent).insert(key, tips.map[parent]),
        ),
{
    let head = tips.map[parent];
    let pool2 = pool.insert(key, block);
    let removed = sets_remove_tip(heads, head, parent);
    let heads2 = sets_add_tip(removed, head, key);
    let tips2 = tips.remove(parent).insert(key, head);
    lemma_forest_insert(pool, heads, tips, key, block);
    assert(heads.map.contains_key(head));
    let list0 = heads.map[head];
    let list1 = without_tip(list0, parent);
    let list2 = with_tip(list1, key);
    lemma_without_tip(list0, parent);
    lemma_with_tip(list1, key);
    assert(removed.map[head] == list1);
    assert(heads2.map[head] == list2);
    assert(!tips.map.contains_key(key));
    assert(!heads.map.contains_key(key));
    assert(key != parent);
    assert(key != head);
    assert forall|h: H256| heads2.map.contains_key(h) <==> heads.map.contains_key(h) by {}
    assert forall|h: H256| h != head && heads.map.contains_key(h) implies heads2.map[h]
        == heads.map[h] by {}
    assert forall|t: H256| #[trigger] tips2.map.contains_key(t) implies {
        &&& pool2.contains(t)
        &&& heads2.map.contains_key(tips2.map[t])
        &&& heads2.map[tips2.map[t]].contains(t)
        &&& exists|n: nat| reaches(pool2, t, tips2.map[t], n)
        &&& (heads2.map.contains_key(t) ==> tips2.map[t] == t)
    } by {
        if t == key {
            let n = choose|n: nat| reaches(pool2, parent, head, n);
            assert(reaches(pool2, parent, head, n));
            assert(pool2.map[key] == block);
            assert(reaches(pool2, key, head, n + 1));
        } else {
            assert(tips.map.contains_key(t));
            assert(t != parent);
            let n = choose|n: nat| reaches(pool2, t, tips.map[t], n);
            assert(reaches(pool2, t, tips2.map[t], n));
            if tips.map[t] == head {
                assert(list0.contains(t));
                assert(list1.contains(t));
                assert(list2.contains(t));
            }
        }
    }
    assert forall|h: H256, t: H256|
        heads2.map.contains_key(h) && #[trigger] heads2.map[h].contains(
            t,
        ) implies tips2.map.contains_key(t) && tips2.map[t] == h by {
        if h == head {
            assert(list2.contains(t));
            if t != key {
                assert(list1.contains(t));
                assert(list0.contains(t) && t != parent);
                assert(heads.map[head].contains(t));
            }
        } else {
            assert(heads.map.contains_key(h) && heads.map[h].contains(t));
            assert(tips.map.contains_key(t) && tips.map[t] == h);
            assert(t != parent);
        }
    }
    assert forall|h: H256| #[trigger] heads2.map.contains_key(h)
        implies heads2.map[h].no_duplicates()
        && pool2.contains(h) by {
        assert(heads.map.contains_key(h));
    }
}

/// A new orphan that becomes a further tip of a head that is reached from
/// its parent leaves the disconnected sub-trees sound.
pub proof fn lemma_forest_add_tip<B: Block>(
    pool: Entries<Arc<B>>,
    heads: Entries<Seq<H256>>,
    tips: Entries<H256>,
    key: H256,
    block: Arc<B>,
    parent: H256,
    head: H256,
    steps: nat,
)
    requires
        forest(pool, heads, tips),
        !pool.contains(key),
        block.spec_parent_hash() == Some(parent),
        heads.map.contains_key(head),
        reaches(pool, parent, head, steps),
    ensures
        forest(pool.insert(key, block), sets_add_tip(heads, head, key), tips.insert(key, head)),
{
    let pool2 = pool.insert(key, block);
    let heads2 = sets_add_tip(heads, head, key);
    let tips2 = tips.insert(key, head);
    lemma_forest_insert(pool, heads, tips, key, block);
    let list0 = heads.map[head];
    let list2 = with_tip(list0, key);
    lemma_with_tip(list0, key);
    assert(heads2.map[head] == list2);
    assert(!tips.map.contains_key(key));
    assert(!heads.map.contains_key(key));
    assert(key != head);
    assert forall|h: H256| heads2.map.contains_key(h) <==> heads.map.contains_key(h) by {}
    assert forall|h: H256| h != head && heads.map.contains_key(h) implies heads2.map[h]
        == heads.map[h] by {}
    assert forall|t: H256| #[trigger] tips2.map.contains_key(t) implies {
        &&& pool2.contains(t)
        &&& heads2.map.contains_key(tips2.map[t])
        &&& heads2.map[tips2.map[t]].contains(t)
        &&& exists|n: nat| reaches(pool2, t, tips2.map[t], n)
        &&& (heads2.map.contains_key(t) ==> tips2.map[t] == t)
    } by {
        if t == key {
            lemma_reaches_insert(pool, key, block, parent, head, steps);
            assert(pool2.map[key] == block);
            assert(reaches(pool2, key, head, steps + 1));
        } else {
            assert(tips.map.contains_key(t));
            let n = choose|n: nat| reaches(pool2, t, tips.map[t], n);
            assert(reaches(pool2, t, tips2.map[t], n));
            if tips.map[t] == head {
                assert(list0.contains(t));
                assert(list2.contains(t));
            }
        }
    }
    assert forall|h: H256, t: H256|
        heads2.map.contains_key(h) && #[trigger] heads2.map[h].contains(
            t,
        ) implies tips2.map.contains_key(t) && tips2.map[t] == h by {
        if h == head {
            assert(list2.contains(t));
            if t != key {
                assert(list0.contains(t));
                assert(heads.map[head].contains(t));
            }
        } else {
            assert(heads.map.contains_key(h) && heads.map[h].contains(t));
            assert(tips.map.contains_key(t) && tips.map[t] == h);
        }
    }
    assert forall|h: H256| #[trigger] heads2.map.contains_key(h)
        implies heads2.map[h].no_duplicates()
        && pool2.contains(h) by {
        assert(heads.map.contains_key(h));
    }
}

/// A disconnected tip that leaves the tips of its head and the map of
/// tips leaves the disconnected sub-trees sound.
pub proof fn lemma_forest_drop_tip<B: Block>(
    pool: Entries<Arc<B>>,
    heads: Entries<Seq<H256>>,
    tips: Entries<H256>,
    tip: H256,
)
    requires
        forest(pool, heads, tips),
        tips.map.contains_key(tip),
    ensures
        forest(pool, sets_remove_tip(heads, tips.map[tip], tip), tips.remove(tip)),
{
    let head = tips.map[tip];
    let heads2 = sets_remove_tip(heads, head, tip);
    let tips2 = tips.remove(tip);
    let list0 = heads.map[head];
    lemma_without_tip(list0, tip);
    assert(heads2.map[head] == without_tip(list0, tip));
    assert forall|h: H256| heads2.map.contains_key(h) <==> heads.map.contains_key(h) by {}
    assert forall|h: H256| h != head && heads.map.contains_key(h) implies heads2.map[h]
        == heads.map[h] by {}
    assert forall|t: H256| #[trigger] tips2.map.contains_key(t) implies {
        &&& pool.contains(t)
        &&& heads2.map.contains_key(tips2.map[t])
        &&& heads2.map[tips2.map[t]].contains(t)
        &&& exists|n: nat| reaches(pool, t, tips2.map[t], n)
        &&& (heads2.map.contains_key(t) ==> tips2.map[t] == t)
    } by {
        assert(tips.map.contains_key(t) && t != tip);
        if tips.map[t] == head {
            assert(list0.contains(t));
        }
    }
    assert forall|h: H256, t: H256|
        heads2.map.contains_key(h) && #[trigger] heads2.map[h].contains(
            t,
        ) implies tips2.map.contains_key(t) && tips2.map[t] == h by {
        if h == head {
            assert(list0.contains(t) && t != tip);
        }
        assert(heads.map.contains_key(h) && heads.map[h].contains(t));
    }
    assert forall|h: H256| #[trigger] heads2.map.contains_key(h)
        implies heads2.map[h].no_duplicates()
        && pool.contains(h) by {
        assert(heads.map.contains_key(h));
    }
}

impl<B: Block> ChainState<B> {
    /// What holds of the disconnected sub-trees of the state.
    pub open spec fn forest_ok(self) -> bool {
        forest(self.pool, self.heads, self.tips)
    }

    /// A step that leaves the pool and the disconnected sub-trees as they
    /// are keeps them sound.
    pub proof fn lemma_same_forest(self, other: Self)
        requires
            self.forest_ok(),
            self.same_forest(other),
        ensures
            other.forest_ok(),
    {
    }

    /// Whether `key` is one of `tips[from..]`, is not `skip`, and is an
    /// orphan: `promote_tips` takes it out of the disconnected tips.
    pub open spec fn promoted(
        self,
        tips: Seq<H256>,
        from: int,
        skip: Option<H256>,
        key: H256,
    ) -> bool {
        &&& exists|i: int| from <= i < tips.len() && 0 <= i && #[trigger] tips[i] == key
        &&& skip != Some(key)
        &&& self.pool.contains(key)
    }

    /// What `promote_tips` does to the pool and the disconnected
    /// sub-trees: the promoted tips leave the map of tips, and nothing
    /// else of them changes.
    pub proof fn lemma_promote_tips_effect(
        self,
        tips: Seq<H256>,
        from: int,
        skip: Option<H256>,
        stop_at_valid: bool,
    )
        requires
            0 <= from,
        ensures
            ({
                let after = self.promote_tips(tips, from, skip, stop_at_valid);
                &&& after.pool == self.pool
                &&& after.heads == self.heads
                &&& after.heads_heights == self.heads_heights
                &&& forall|k: H256|
                    #![trigger after.tips.map.contains_key(k)]
                    after.tips.map.contains_key(k) <==> (self.tips.map.contains_key(k)
                        && !self.promoted(tips, from, skip, k))
                &&& forall|k: H256|
                    #![trigger after.tips.map[k]]
                    after.tips.map.contains_key(k) ==> after.tips.map[k] == self.tips.map[k]
            }),
        decreases tips.len() - from,
    {
        let after = self.promote_tips(tips, from, skip, stop_at_valid);
        if from < tips.len() {
            let tip = tips[from];
            let next = if skip == Some(tip) {
                self
            } else {
                self.promote_tip(tip, stop_at_valid)
            };
            if skip != Some(tip) && self.pool.contains(tip) {
                let block = self.pool.map[tip];
                let first = ChainState {
                    validations: self.validations.insert(
                        tip,
                        crate::orphan_type::OrphanType::ValidChainTip,
                    ),
                    tips: self.tips.remove(tip),
                    valid_tips: self.valid_tips.insert(tip, ()),
                    ..self
                };
                first.lemma_mark_ancestors_base(
                    block.spec_parent_hash(),
                    block.spec_height(),
                    stop_at_valid,
                );
            }
            next.lemma_promote_tips_effect(tips, from + 1, skip, stop_at_valid);
            assert(next.pool == self.pool);
            assert forall|k: H256|
                self.promoted(tips, from, skip, k) <==> ((k == tip && skip != Some(k)
                    && self.pool.contains(k)) || next.promoted(tips, from + 1, skip, k)) by {
                if self.promoted(tips, from, skip, k) {
                    let i = choose|i: int| from <= i < tips.len() && 0 <= i
                        && #[trigger] tips[i] == k;
                    if i != from {
                        assert(from + 1 <= i < tips.len() && tips[i] == k);
                    }
                }
                if next.promoted(tips, from + 1, skip, k) {
                    let i = choose|i: int|
                        from + 1 <= i < tips.len() && 0 <= i && #[trigger] tips[i] == k;
                    assert(from <= i < tips.len() && tips[i] == k);
                }
                if k == tip {
                    assert(tips[from] == k);
                }
            }
            assert forall|k: H256|
                #![trigger after.tips.map.contains_key(k)]
                after.tips.map.contains_key(k) <==> (self.tips.map.contains_key(k)
                    && !self.promoted(tips, from, skip, k)) by {
                assert(next.tips.map.contains_key(k) <==> (self.tips.map.contains_key(k) && !(k
                    == tip && skip != Some(k) && self.pool.contains(k))));
            }
            assert forall|k: H256|
                #![trigger after.tips.map[k]]
                after.tips.map.contains_key(k) implies after.tips.map[k] == self.tips.map[k] by {
                assert(next.tips.map.contains_key(k));
                assert(next.tips.map[k] == self.tips.map[k]);
            }
        } else {
            assert forall|k: H256| !self.promoted(tips, from, skip, k) by {}
        }
    }

    /// Turning a disconnected sub-tree into a valid one keeps the
    /// disconnected sub-trees sound.
    pub proof fn lemma_make_valid_tips_forest(self, head: H256)
        requires
            self.forest_ok(),
        ensures
            self.make_valid_tips(head).forest_ok(),
            self.make_valid_tips(head).pool == self.pool,
            forall|h: H256|
                self.make_valid_tips(head).heads.map.contains_key(h) <==> (
                self.heads.map.contains_key(h) && h != head),
    {
        if self.heads.contains(head) {
            let list = self.heads.map[head];
            let cut = ChainState {
                heads: self.heads.remove(head),
                heads_heights: self.heads_heights.remove(head),
                ..self
            };
            cut.lemma_promote_tips_effect(list, 0, None, true);
            let after = self.make_valid_tips(head);
            assert forall|t: H256| #[trigger] after.tips.map.contains_key(t) implies {
                &&& after.pool.contains(t)
                &&& after.heads.map.contains_key(after.tips.map[t])
                &&& after.heads.map[after.tips.map[t]].contains(t)
                &&& exists|n: nat| reaches(after.pool, t, after.tips.map[t], n)
                &&& (after.heads.map.contains_key(t) ==> after.tips.map[t] == t)
            } by {
                assert(self.tips.map.contains_key(t));
                assert(after.tips.map[t] == self.tips.map[t]);
                let k = self.tips.map[t];
                if k == head {
                    assert(self.heads.map[head].contains(t));
                    let i = choose|i: int| 0 <= i < list.len() && list[i] == t;
                    assert(cut.promoted(list, 0, None, t));
                }
            }
            assert forall|h: H256, t: H256|
                after.heads.map.contains_key(h) && #[trigger] after.heads.map[h].contains(
                    t,
                ) implies after.tips.map.contains_key(t) && after.tips.map[t] == h by {
                assert(self.heads.map.contains_key(h) && self.heads.map[h].contains(t));
                if cut.promoted(list, 0, None, t) {
                    let i = choose|i: int| 0 <= i < list.len() && 0 <= i && #[trigger] list[i] == t;
                    assert(self.heads.map[head].contains(t));
                }
            }
        }
    }

    /// Writing a block whose parent is no orphan keeps the disconnected
    /// sub-trees sound.
    pub proof fn lemma_write_block_forest(self, block: Arc<B>)
        requires
            self.forest_ok(),
            block.spec_parent_hash().is_some(),
            !self.pool.contains(block.spec_parent_hash().unwrap()),
            self.pool.contains(block.spec_hash()) ==> self.pool.map[block.spec_hash()] == block,
        ensures
            self.write_block(block).forest_ok(),
    {
        let hash = block.spec_hash();
        let height = (self.height + 1) as u64;
        let heights = crate::heights::levels_remove(self.heights, block.spec_height(), hash);
        let written = self.written(block);
        let after = self.write_block(block);
        let list = if self.heads.contains(hash) {
            self.heads.map[hash]
        } else {
            Seq::empty()
        };
        if self.heads.contains(hash) {
            written.lemma_promote_tips_effect(list, 0, Some(hash), false);
        }
        assert(after.pool == written.pool);
        assert(after.heads == written.heads);
        assert forall|t: H256| #[trigger] after.tips.map.contains_key(t) implies {
            &&& t != hash
            &&& self.tips.map.contains_key(t)
            &&& after.tips.map[t] == self.tips.map[t]
            &&& self.tips.map[t] != hash
        } by {
            assert(written.tips.map.contains_key(t));
            assert(self.tips.map.contains_key(t));
            let k = self.tips.map[t];
            if k == hash {
                assert(self.heads.map.contains_key(hash));
                assert(self.heads.map[hash].contains(t));
                let i = choose|i: int| 0 <= i < list.len() && list[i] == t;
                assert(written.pool.contains(t));
                assert(written.promoted(list, 0, Some(hash), t));
            }
        }
        assert forall|t: H256| #[trigger] after.tips.map.contains_key(t) implies {
            &&& after.pool.contains(t)
            &&& after.heads.map.contains_key(after.tips.map[t])
            &&& after.heads.map[after.tips.map[t]].contains(t)
            &&& exists|n: nat| reaches(after.pool, t, after.tips.map[t], n)
            &&& (after.heads.map.contains_key(t) ==> after.tips.map[t] == t)
        } by {
            let k = self.tips.map[t];
            assert(self.tips.map.contains_key(t));
            let n = choose|n: nat| reaches(self.pool, t, k, n);
            lemma_reaches_remove(self.pool, hash, t, k, n);
        }
        assert forall|h: H256, t: H256|
            after.heads.map.contains_key(h) && #[trigger] after.heads.map[h].contains(
                t,
            ) implies after.tips.map.contains_key(t) && after.tips.map[t] == h by {
            assert(self.heads.map.contains_key(h) && self.heads.map[h].contains(t));
            assert(self.tips.map.contains_key(t) && self.tips.map[t] == h);
            if t == hash {
                assert(self.heads.map.contains_key(hash) ==> self.tips.map[hash] == hash);
                assert(self.pool.contains(hash));
                let n = choose|n: nat| reaches(self.pool, hash, h, n);
                assert(reaches(self.pool, hash, h, n));
                assert(h != hash);
                assert(self.pool.map[hash] == block);
                let parent = block.spec_parent_hash().unwrap();
                assert(reaches(self.pool, parent, h, (n - 1) as nat));
                assert(false);
            }
            assert(written.tips.map.contains_key(t));
            if self.heads.contains(hash) {
                if written.promoted(list, 0, Some(hash), t) {
                    let i = choose|i: int| 0 <= i < list.len() && 0 <= i && #[trigger] list[i] == t;
                    assert(self.heads.map[hash].contains(t));
                }
            }
        }
        assert forall|h: H256| #[trigger] after.heads.map.contains_key(h)
            implies after.heads.map[h].no_duplicates()
            && after.pool.contains(h) by {
            assert(self.heads.map.contains_key(h));
        }
    }

    /// Whether `key` is one of `tips[from..]` and is an orphan:
    /// `merge_tips` makes it a tip of the head that takes the tips in.
    pub open spec fn merged(self, tips: Seq<H256>, from: int, key: H256) -> bool {
        &&& exists|i: int| from <= i < tips.len() && 0 <= i && #[trigger] tips[i] == key
        &&& self.pool.contains(key)
    }

    /// What `merge_tips` does to the pool and the disconnected sub-trees:
    /// the merged tips become tips of `head`, and nothing else of them
    /// changes.
    pub proof fn lemma_merge_tips_effect(self, head: H256, tips: Seq<H256>, from: int)
        requires
            0 <= from,
            self.heads.map.contains_key(head),
            self.heads.map[head].no_duplicates(),
        ensures
            ({
                let after = self.merge_tips(head, tips, from);
                &&& after.pool == self.pool
                &&& forall|h: H256|
                    #![trigger after.heads.map.contains_key(h)]
                    after.heads.map.contains_key(h) <==> self.heads.map.contains_key(h)
                &&& forall|h: H256|
                    #![trigger after.heads.map[h]]
                    h != head ==> after.heads.map[h] == self.heads.map[h]
                &&& after.heads.map[head].no_duplicates()
                &&& forall|k: H256|
                    #![trigger after.heads.map[head].contains(k)]
                    after.heads.map[head].contains(k) <==> (self.heads.map[head].contains(k)
                        || self.merged(tips, from, k))
                &&& forall|k: H256|
                    #![trigger after.tips.map.contains_key(k)]
                    after.tips.map.contains_key(k) <==> (self.tips.map.contains_key(k)
                        || self.merged(tips, from, k))
                &&& forall|k: H256|
                    #![trigger after.tips.map[k]]
                    after.tips.map.contains_key(k) ==> after.tips.map[k] == (if self.merged(
                        tips,
                        from,
                        k,
                    ) {
                        head
                    } else {
                        self.tips.map[k]
                    })
            }),
        decreases tips.len() - from,
    {
        let after = self.merge_tips(head, tips, from);
        if from < tips.len() {
            let tip = tips[from];
            let next = self.merge_tip(head, tip);
            lemma_with_tip(self.heads.map[head], tip);
            assert(next.pool == self.pool);
            assert(next.heads.map.contains_key(head));
            next.lemma_merge_tips_effect(head, tips, from + 1);
            assert forall|k: H256|
                self.merged(tips, from, k) <==> ((k == tip && self.pool.contains(k))
                    || next.merged(tips, from + 1, k)) by {
                if self.merged(tips, from, k) {
                    let i = choose|i: int| from <= i < tips.len() && 0 <= i
                        && #[trigger] tips[i] == k;
                    if i != from {
                        assert(from + 1 <= i < tips.len() && tips[i] == k);
                    }
                }
                if next.merged(tips, from + 1, k) {
                    let i = choose|i: int|
                        from + 1 <= i < tips.len() && 0 <= i && #[trigger] tips[i] == k;
                    assert(from <= i < tips.len() && tips[i] == k);
                }
                if k == tip {
                    assert(tips[from] == k);
                }
            }
            assert forall|h: H256|
                #![trigger after.heads.map.contains_key(h)]
                after.heads.map.contains_key(h) <==> self.heads.map.contains_key(h) by {
                assert(next.heads.map.contains_key(h) <==> self.heads.map.contains_key(h));
            }
            assert forall|h: H256| #![trigger after.heads.map[h]] h != head
                implies after.heads.map[h]
                == self.heads.map[h] by {
                assert(next.heads.map[h] == self.heads.map[h]);
            }
            assert forall|k: H256|
                #![trigger after.heads.map[head].contains(k)]
                after.heads.map[head].contains(k) <==> (self.heads.map[head].contains(k)
                    || self.merged(tips, from, k)) by {
                assert(next.heads.map[head].contains(k) <==> (self.heads.map[head].contains(k) || (
                k == tip && self.pool.contains(k))));
            }
            assert forall|k: H256|
                #![trigger after.tips.map.contains_key(k)]
                after.tips.map.contains_key(k) <==> (self.tips.map.contains_key(k) || self.merged(
                    tips,
                    from,
                    k,
                )) by {
                assert(next.tips.map.contains_key(k) <==> (self.tips.map.contains_key(k) || (k
                    == tip && self.pool.contains(k))));
            }
            assert forall|k: H256|
                #![trigger after.tips.map[k]]
                after.tips.map.contains_key(k) implies after.tips.map[k] == (if self.merged(
                tips,
                from,
                k,
            ) {
                head
            } else {
                self.tips.map[k]
            }) by {
                if !next.merged(tips, from + 1, k) {
                    assert(next.tips.map.contains_key(k));
                    assert(after.tips.map[k] == next.tips.map[k]);
                }
            }
        } else {
            assert forall|k: H256| !self.merged(tips, from, k) by {}
        }
    }

    /// Fusing the sub-tree of a head that follows a block into the
    /// sub-tree that the block belongs to keeps the disconnected sub-trees
    /// sound.
    pub proof fn lemma_attach_head_forest(
        self,
        our_head: H256,
        head: H256,
        tip: H256,
        steps: nat,
    )
        requires
            self.forest_ok(),
            self.heads.map.contains_key(our_head),
            reaches(self.pool, tip, our_head, steps),
            self.follows(head, tip),
            head != our_head,
        ensures
            self.attach_head(our_head, head).forest_ok(),
            self.attach_head(our_head, head).pool == self.pool,
            self.attach_head(our_head, head).heads.map.contains_key(our_head),
            forall|t: H256|
                #![trigger self.attach_head(our_head, head).tips.map.contains_key(t)]
                self.tips.map.contains_key(t) && self.tips.map[t] == our_head && t != our_head
                    ==> self.attach_head(our_head, head).tips.map.contains_key(t)
                    && self.attach_head(our_head, head).tips.map[t] == our_head,
    {
        if self.heads.contains(head) {
            let list = self.heads.map[head];
            let heads1 = self.heads.remove(head);
            assert(heads1.contains(our_head));
            let heads2 = sets_remove_tip(heads1, our_head, our_head);
            let cleared = ChainState {
                heads: heads2,
                heads_heights: self.heads_heights.remove(head),
                tips: self.tips.remove(our_head),
                ..self
            };
            lemma_without_tip(self.heads.map[our_head], our_head);
            assert(heads2.map[our_head] == without_tip(self.heads.map[our_head], our_head));
            cleared.lemma_merge_tips_effect(our_head, list, 0);
            let merged = cleared.merge_tips(our_head, list, 0);
            merged.lemma_recurse_tips_base(list, 0);
            let after = self.attach_head(our_head, head);
            assert(after == merged.recurse_tips(list, 0));
            assert(after.pool == self.pool);
            assert(after.heads == merged.heads);
            assert(after.tips == merged.tips);
            assert forall|k: H256| cleared.merged(list, 0, k) <==> list.contains(k) by {
                if list.contains(k) {
                    let i = choose|i: int| 0 <= i < list.len() && list[i] == k;
                    assert(self.heads.map[head].contains(k));
                    assert(self.tips.map.contains_key(k));
                }
                if cleared.merged(list, 0, k) {
                    let i = choose|i: int| 0 <= i < list.len() && 0 <= i && #[trigger] list[i] == k;
                }
            }
            assert forall|h: H256| #[trigger] after.heads.map.contains_key(h)
                implies after.heads.map[h].no_duplicates()
                && after.pool.contains(h) by {
                assert(self.heads.map.contains_key(h));
                if h != our_head {
                    assert(merged.heads.map[h] == cleared.heads.map[h]);
                }
            }
            assert forall|t: H256|
                #![trigger after.tips.map.contains_key(t)]
                self.tips.map.contains_key(t) && self.tips.map[t] == our_head && t
                    != our_head implies after.tips.map.contains_key(t) && after.tips.map[t]
                == our_head by {
                assert(cleared.tips.map.contains_key(t));
                if list.contains(t) {
                    assert(self.heads.map[head].contains(t));
                    assert(false);
                }
            }
            assert forall|t: H256| #[trigger] after.tips.map.contains_key(t) implies {
                &&& after.pool.contains(t)
                &&& after.heads.map.contains_key(after.tips.map[t])
                &&& after.heads.map[after.tips.map[t]].contains(t)
                &&& exists|n: nat| reaches(after.pool, t, after.tips.map[t], n)
                &&& (after.heads.map.contains_key(t) ==> after.tips.map[t] == t)
            } by {
                if list.contains(t) {
                    assert(self.heads.map[head].contains(t));
                    assert(self.tips.map.contains_key(t) && self.tips.map[t] == head);
                    assert(after.tips.map[t] == our_head);
                    assert(after.heads.map[our_head].contains(t));
                    let k = choose|k: nat| reaches(self.pool, t, head, k);
                    assert(reaches(self.pool, head, our_head, steps + 1));
                    lemma_reaches_concat(self.pool, t, head, our_head, k, steps + 1);
                    assert(reaches(after.pool, t, our_head, k + (steps + 1)));
                    if after.heads.map.contains_key(t) {
                        assert(self.heads.map.contains_key(t));
                        assert(false);
                    }
                } else {
                    assert(cleared.tips.map.contains_key(t));
                    assert(t != our_head);
                    assert(self.tips.map.contains_key(t));
                    assert(after.tips.map[t] == self.tips.map[t]);
                    let k = self.tips.map[t];
                    assert(self.heads.map[k].contains(t));
                    assert(k != head);
                    if k == our_head {
                        assert(heads2.map[our_head].contains(t));
                        assert(after.heads.map[our_head].contains(t));
                    } else {
                        assert(merged.heads.map[k] == cleared.heads.map[k]);
                    }
                }
            }
            assert forall|h: H256, t: H256|
                after.heads.map.contains_key(h) && #[trigger] after.heads.map[h].contains(
                    t,
                ) implies after.tips.map.contains_key(t) && after.tips.map[t] == h by {
                assert(self.heads.map.contains_key(h) && h != head);
                if h == our_head {
                    if list.contains(t) {
                    } else {
                        assert(heads2.map[our_head].contains(t));
                        assert(self.heads.map[our_head].contains(t) && t != our_head);
                        assert(self.tips.map.contains_key(t) && self.tips.map[t] == our_head);
                        assert(cleared.tips.map.contains_key(t));
                    }
                } else {
                    assert(merged.heads.map[h] == cleared.heads.map[h]);
                    assert(self.heads.map[h].contains(t));
                    assert(self.tips.map.contains_key(t) && self.tips.map[t] == h);
                    if t == our_head {
                        assert(false);
                    }
                    if list.contains(t) {
                        assert(self.heads.map[head].contains(t));
                        assert(false);
                    }
                    assert(cleared.tips.map.contains_key(t));
                }
            }
        }
    }

    /// Fusing several sub-trees whose heads follow a block keeps the
    /// disconnected sub-trees sound.
    pub proof fn lemma_attach_heads_forest(
        self,
        our_head: H256,
        heads: Seq<H256>,
        from: int,
        tip: H256,
        steps: nat,
    )
        requires
            0 <= from,
            self.forest_ok(),
            self.heads.map.contains_key(our_head),
            reaches(self.pool, tip, our_head, steps),
            forall|i: int|
                0 <= i < heads.len() ==> self.follows(#[trigger] heads[i], tip) && heads[i]
                    != our_head,
        ensures
            self.attach_heads(our_head, heads, from).forest_ok(),
            self.attach_heads(our_head, heads, from).pool == self.pool,
            self.attach_heads(our_head, heads, from).heads.map.contains_key(our_head),
            forall|t: H256|
                #![trigger self.attach_heads(our_head, heads, from).tips.map.contains_key(t)]
                self.tips.map.contains_key(t) && self.tips.map[t] == our_head && t != our_head
                    ==> self.attach_heads(our_head, heads, from).tips.map.contains_key(t)
                    && self.attach_heads(our_head, heads, from).tips.map[t] == our_head,
        decreases heads.len() - from,
    {
        if from < heads.len() {
            self.lemma_attach_head_forest(our_head, heads[from], tip, steps);
            let next = self.attach_head(our_head, heads[from]);
            let after = self.attach_heads(our_head, heads, from);
            assert forall|t: H256|
                #![trigger after.tips.map.contains_key(t)]
                self.tips.map.contains_key(t) && self.tips.map[t] == our_head && t
                    != our_head implies next.tips.map.contains_key(t) && next.tips.map[t]
                == our_head by {}
            assert forall|i: int| 0 <= i < heads.len() implies next.follows(
                #[trigger] heads[i],
                tip,
            ) && heads[i] != our_head by {
                assert(self.follows(heads[i], tip));
            }
            next.lemma_attach_heads_forest(our_head, heads, from + 1, tip, steps);
        }
    }

    /// The heads that `attachable` lists follow the tip and are not the
    /// head of the tip.
    pub proof fn lemma_attachable(self, tip: H256, our_head: H256, upto: int)
        ensures
            forall|i: int|
                0 <= i < self.attachable(tip, our_head, upto).len() ==> self.follows(
                    #[trigger] self.attachable(tip, our_head, upto)[i],
                    tip,
                ) && self.attachable(tip, our_head, upto)[i] != our_head,
        decreases upto,
    {
        if 0 < upto <= self.heads.order.len() {
            self.lemma_attachable(tip, our_head, upto - 1);
            let before = self.attachable(tip, our_head, upto - 1);
            let head = self.heads.order[upto - 1];
            let list = self.attachable(tip, our_head, upto);
            assert forall|i: int| 0 <= i < list.len() implies self.follows(#[trigger] list[i], tip)
                && list[i] != our_head by {
                if i < before.len() {
                    assert(list[i] == before[i]);
                } else {
                    assert(list[i] == head);
                }
            }
        }
    }

    /// Attaching the sub-trees that follow a disconnected tip keeps the
    /// disconnected sub-trees sound.
    pub proof fn lemma_attempt_attach_forest(self, tip: H256)
        requires
            self.forest_ok(),
        ensures
            self.attempt_attach(tip).forest_ok(),
            self.attempt_attach(tip).pool == self.pool,
            self.tips.map.contains_key(tip) && self.tips.map[tip] != tip
                ==> self.attempt_attach(tip).tips.map.contains_key(tip) && self.attempt_attach(
                tip,
            ).tips.map[tip] == self.tips.map[tip],
    {
        match self.tips.get(tip) {
            Some(our_head) => {
                assert(self.tips.map.contains_key(tip));
                let n = choose|n: nat| reaches(self.pool, tip, our_head, n);
                self.lemma_attachable(tip, our_head, self.heads.order.len() as int);
                self.lemma_attach_heads_forest(our_head, self.attached_heads(tip), 0, tip, n);
            },
            None => {},
        }
    }

    /// What follows once a block stands as a tip in the sub-tree of a head
    /// keeps the disconnected sub-trees sound.
    pub proof fn lemma_settle_disconnected_forest(self, block: Arc<B>, head: H256, again: bool)
        requires
            self.forest_ok(),
            self.tips.map.contains_key(block.spec_hash()),
            self.tips.map[block.spec_hash()] == head,
            head != block.spec_hash(),
        ensures
            self.settle_disconnected(block, head, again).forest_ok(),
            self.settle_disconnected(block, head, again).pool == self.pool,
    {
        let hash = block.spec_hash();
        let standing = self.attach_standing(hash, crate::orphan_type::OrphanType::DisconnectedTip);
        let attached = self.attempt_attach(hash);
        self.lemma_attempt_attach_forest(hash);
        assert(attached.tips.map.contains_key(hash) && attached.tips.map[hash] == head);
        if standing == crate::orphan_type::OrphanType::DisconnectedTip {
            let tipped = if again {
                ChainState { tips: attached.tips.insert(hash, head), ..attached }
            } else {
                attached
            };
            assert(attached.tips.insert(hash, head).map =~= attached.tips.map);
            assert(tipped.tips == attached.tips);
            tipped.lemma_recurse_inverse_base(block, 0, false);
            tipped.lemma_same_forest(tipped.recurse_inverse(block, 0, false));
        } else {
            lemma_forest_drop_tip(attached.pool, attached.heads, attached.tips, hash);
        }
    }

    /// The head that `head_above` finds is a head, and it is reached from
    /// where the search began.
    pub proof fn lemma_head_above(self, current: H256, below: u64)
        requires
            self.forest_ok(),
            self.head_above(current, below).is_some(),
        ensures
            self.heads.map.contains_key(self.head_above(current, below).unwrap()),
            exists|n: nat| reaches(self.pool, current, self.head_above(current, below).unwrap(), n),
        decreases below,
    {
        let head = self.head_above(current, below).unwrap();
        if self.heads.contains(current) {
            assert(reaches(self.pool, current, head, 0));
        } else {
            let parent = self.pool.map[current].spec_parent_hash().unwrap();
            self.lemma_head_above(parent, self.pool.map[current].spec_height());
            let n = choose|n: nat| reaches(self.pool, parent, head, n);
            assert(reaches(self.pool, current, head, n + 1));
        }
    }

    /// Moving canonical blocks to the pool keeps the disconnected
    /// sub-trees sound.
    pub proof fn lemma_unwind_forest(self, path: Seq<Arc<B>>, from: int)
        requires
            crate::chain::ledger::path_is_new(self.pool, path, from),
            self.forest_ok(),
            0 <= from,
        ensures
            self.unwind(path, from).forest_ok(),
        decreases path.len() - from,
    {
        if from < path.len() && from <= u64::MAX {
            let block = path[from];
            let next = self.unwind_block(block, from as u64);
            lemma_forest_insert(self.pool, self.heads, self.tips, block.spec_hash(), block);
            next.lemma_unwind_forest(path, from + 1);
        }
    }

    /// Rewinding keeps the disconnected sub-trees sound.
    pub proof fn lemma_rewind_forest(self, target: H256)
        requires
            crate::chain::ledger::block_type_sound::<B>(),
            self.ledger_ok(),
            self.forest_ok(),
            self.can_rewind(target),
        ensures
            self.rewind(target).forest_ok(),
    {
        if self.tip.spec_hash() != target {
            let path = self.descent(self.tip, target, Seq::empty()).unwrap();
            self.lemma_descent_is_new(target);
            self.lemma_unwind_forest(path, 0);
        }
    }

    /// Writing a block that extends the tip keeps the disconnected
    /// sub-trees sound.
    pub proof fn lemma_write_tip_forest(self, block: Arc<B>)
        requires
            crate::chain::ledger::block_type_sound::<B>(),
            self.ledger_ok(),
            self.forest_ok(),
            self.extends_tip(block),
            self.pool.contains(block.spec_hash()) ==> self.pool.map[block.spec_hash()] == block,
        ensures
            self.write_block(block).forest_ok(),
    {
        self.lemma_tip_is_no_orphan();
        self.lemma_write_block_forest(block);
    }

    /// Writing a branch of orphans keeps the disconnected sub-trees sound.
    pub proof fn lemma_replay_forest(self, branch: Seq<Arc<B>>, count: int)
        requires
            crate::chain::ledger::block_type_sound::<B>(),
            self.ledger_ok(),
            self.forest_ok(),
            self.branch_in_pool(branch, count),
        ensures
            self.replay(branch, count).forest_ok(),
        decreases count,
    {
        if 0 < count <= branch.len() && self.extends_tip(branch[count - 1]) {
            let block = branch[count - 1];
            assert(self.pool.contains(block.spec_hash()));
            self.lemma_write_block_ledger(block);
            self.lemma_write_tip_forest(block);
            let written = self.write_block(block);
            assert(written.branch_in_pool(branch, count - 1)) by {
                assert forall|i: int| 0 <= i < count - 1 implies written.pool.contains(
                    (#[trigger] branch[i]).spec_hash(),
                ) && written.pool.map[branch[i].spec_hash()] == branch[i] by {
                    assert(branch[i].spec_hash() != branch[count - 1].spec_hash());
                    assert(self.pool.contains(branch[i].spec_hash()));
                }
            }
            written.lemma_replay_forest(branch, count - 1);
        }
    }

    /// Offering the canonical chain a branch keeps the disconnected
    /// sub-trees sound.
    pub proof fn lemma_attempt_switch_forest(self, candidate: Arc<B>)
        requires
            crate::chain::ledger::block_type_sound::<B>(),
            self.ledger_ok(),
            self.forest_ok(),
            self.pool.contains(candidate.spec_hash()),
            self.pool.map[candidate.spec_hash()] == candidate,
        ensures
            self.attempt_switch(candidate).forest_ok(),
    {
        if self.switches_to(candidate) {
            let (branch, horizon) = self.branch(candidate, Seq::empty()).unwrap();
            self.lemma_branch(candidate, Seq::empty());
            self.lemma_rewind_ledger(horizon);
            self.lemma_rewind_forest(horizon);
            let rewound = self.rewind(horizon);
            assert(rewound.branch_in_pool(branch, branch.len() as int)) by {
                assert forall|i: int| 0 <= i < branch.len() implies self.pool.contains(
                    (#[trigger] branch[i]).spec_hash(),
                ) && self.pool.map[branch[i].spec_hash()] == branch[i] by {}
                assert forall|i: int, j: int| 0 <= i < j < branch.len() implies (
                #[trigger] branch[i]).spec_hash() != (#[trigger] branch[j]).spec_hash() by {
                    assert(branch[i].spec_height() != branch[j].spec_height());
                    assert(self.pool.map[branch[i].spec_hash()] == branch[i]);
                    assert(self.pool.map[branch[j].spec_hash()] == branch[j]);
                }
            }
            rewound.lemma_replay_forest(branch, branch.len() as int);
        }
    }

    /// Writing an orphan where it extends the tip keeps the disconnected
    /// sub-trees sound.
    pub proof fn lemma_write_orphan_block_forest(self, hash: H256)
        requires
            crate::chain::ledger::block_type_sound::<B>(),
            self.ledger_ok(),
            self.forest_ok(),
        ensures
            self.write_orphan_block(hash).forest_ok(),
    {
        if self.orphan_extends_tip(hash) {
            self.lemma_write_tip_forest(self.pool.map[hash]);
        }
    }

    /// Keeping the orphans that extend the canonical tip and are not written
    /// keeps the disconnected sub-trees sound.
    pub proof fn lemma_keep_tips_forest(
        self,
        entries: Seq<(H256, u64)>,
        from: int,
        written: Option<H256>,
        working: Seq<H256>,
    )
        requires
            self.forest_ok(),
        ensures
            self.keep_tips(entries, from, written, working).0.forest_ok(),
        decreases entries.len() - from,
    {
        if 0 <= from < entries.len() {
            let hash = entries[from].0;
            if written == Some(hash) {
                self.lemma_keep_tips_forest(entries, from + 1, written, working);
            } else {
                self.lemma_make_valid_tips_forest(hash);
                self.keep_tip(hash).lemma_keep_tips_forest(
                    entries,
                    from + 1,
                    written,
                    crate::tip_sets::with_tip(working, hash),
                );
            }
        }
    }

    /// The drain at one height keeps the disconnected sub-trees sound.
    pub proof fn lemma_drain_level_forest(
        self,
        entries: Seq<(H256, u64)>,
        done: bool,
        working: Seq<H256>,
    )
        requires
            crate::chain::ledger::block_type_sound::<B>(),
            self.ledger_ok(),
            self.forest_ok(),
        ensures
            self.drain_level(entries, done, working).0.forest_ok(),
    {
        if entries.len() == 1 {
            self.lemma_write_orphan_block_forest(entries[0].0);
        } else if entries.len() == 0 {
        } else {
            let buf = self.followers(entries, entries.len() as int);
            let (linked, set) = self.relink(entries, 0, working);
            self.lemma_relink_base(entries, 0, working);
            self.lemma_base_keeps_ledger(linked);
            self.lemma_same_forest(linked);
            if buf.len() == 0 {
            } else {
                let winner = if done {
                    None
                } else {
                    Some(buf[crate::chain::state::deepest(buf, buf.len() as int)].0)
                };
                let written = match winner {
                    Some(hash) => linked.write_orphan_block(hash),
                    None => linked,
                };
                match winner {
                    Some(hash) => {
                        linked.lemma_write_orphan_block_forest(hash);
                    },
                    None => {},
                }
                written.lemma_keep_tips_forest(buf, 0, winner, set);
            }
        }
    }

    /// The drain keeps the disconnected sub-trees sound.
    pub proof fn lemma_drain_forest(self, height: u64, max: u64, done: bool, working: Seq<H256>)
        requires
            crate::chain::ledger::block_type_sound::<B>(),
            self.ledger_ok(),
            self.forest_ok(),
        ensures
            self.drain(height, max, done, working).forest_ok(),
        decreases max - height, (if done { 0int } else { 1int }),
    {
        if height <= max {
            let (next, set, step) = if self.heights.contains_key(height) {
                self.drain_level(crate::heights::level_seq(self.heights[height]), done, working)
            } else {
                (self, working, crate::chain::state::DrainStep::Advance)
            };
            if self.heights.contains_key(height) {
                self.lemma_drain_level_forest(
                    crate::heights::level_seq(self.heights[height]),
                    done,
                    working,
                );
                self.lemma_drain_level_ledger(
                    crate::heights::level_seq(self.heights[height]),
                    done,
                    working,
                );
            }
            match step {
                crate::chain::state::DrainStep::Stop => {},
                crate::chain::state::DrainStep::Advance => {
                    if height < max {
                        next.lemma_drain_forest((height + 1) as u64, max, done, set);
                    }
                },
                crate::chain::state::DrainStep::AdvanceDone => {
                    if height < max {
                        next.lemma_drain_forest((height + 1) as u64, max, true, set);
                    }
                },
                crate::chain::state::DrainStep::Repeat => {
                    if !done {
                        next.lemma_drain_forest(height, max, true, set);
                    }
                },
            }
        }
    }

    /// Putting a block into the pool keeps the disconnected sub-trees
    /// sound.
    pub proof fn lemma_with_orphan_forest(self, orphan: Arc<B>, standing: OrphanType, inverse: u64)
        requires
            block_type_sound::<B>(),
            self.ledger_ok(),
            self.forest_ok(),
            self.pool.contains(orphan.spec_hash()) ==> self.pool.map[orphan.spec_hash()] == orphan,
        ensures
            self.with_orphan(orphan, standing, inverse).forest_ok(),
    {
        lemma_forest_insert(self.pool, self.heads, self.tips, orphan.spec_hash(), orphan);
    }

    /// Taking in a fork of the canonical chain keeps the disconnected
    /// sub-trees sound.
    pub proof fn lemma_append_fork_forest(self, block: Arc<B>)
        requires
            block_type_sound::<B>(),
            self.ledger_ok(),
            self.forest_ok(),
            !self.knows(block.spec_hash()),
            block.spec_height() >= 1,
            crate::chain::ledger::apart(block),
        ensures
            self.append_fork(block).forest_ok(),
    {
        let written = self.with_orphan(block, OrphanType::ValidChainTip, 0);
        self.lemma_with_orphan_ledger(block, OrphanType::ValidChainTip, 0);
        self.lemma_with_orphan_forest(block, OrphanType::ValidChainTip, 0);
        let attached = written.attempt_attach_valid(block);
        written.lemma_attempt_attach_valid_base(block);
        written.lemma_base_keeps_ledger(attached);
        written.lemma_attempt_attach_valid_forest(block);
        written.lemma_attach_valid_tip(block);
        let standing = written.attach_valid_standing(block);
        let settled = attached.settle_valid(block.spec_hash(), standing);
        attached.lemma_settle_valid_base(block.spec_hash(), standing);
        attached.lemma_base_keeps_ledger(settled);
        attached.lemma_same_forest(settled);
        if standing != OrphanType::ValidChainTip {
            settled.lemma_attempt_switch_forest(written.attach_valid_tip(block));
        }
    }

    /// Offering a valid tip to the disconnected sub-trees keeps the
    /// disconnected sub-trees sound.
    pub proof fn lemma_attempt_attach_valid_forest(self, tip: Arc<B>)
        requires
            self.forest_ok(),
        ensures
            self.attempt_attach_valid(tip).forest_ok(),
    {
        match self.attached_head(tip.spec_hash()) {
            Some(head) => {
                self.lemma_make_valid_tips_forest(head);
                let promoted = self.make_valid_tips(head);
                promoted.lemma_recurse_inverse_base(self.attach_valid_tip(tip), 0, true);
                promoted.lemma_same_forest(
                    promoted.recurse_inverse(self.attach_valid_tip(tip), 0, true),
                );
            },
            None => {
                self.lemma_recurse_inverse_base(tip, 0, true);
                self.lemma_same_forest(self.recurse_inverse(tip, 0, true));
            },
        }
    }

    /// Taking in a block whose parent is an orphan keeps the disconnected
    /// sub-trees sound.
    pub proof fn lemma_append_to_orphan_forest(
        self,
        block: Arc<B>,
        parent: H256,
        standing: OrphanType,
    )
        requires
            block_type_sound::<B>(),
            self.ledger_ok(),
            self.forest_ok(),
            !self.knows(block.spec_hash()),
            block.spec_height() >= 1,
            block.spec_parent_hash() == Some(parent),
            self.pool.contains(parent),
            standing == OrphanType::DisconnectedTip ==> self.tip_on_record(parent),
            standing == OrphanType::BelongsToDisconnected ==> self.head_above(
                parent,
                block.spec_height(),
            ).is_some(),
            crate::chain::ledger::apart(block),
        ensures
            self.append_to_orphan(block, parent, standing).forest_ok(),
    {
        let hash = block.spec_hash();
        match standing {
            OrphanType::DisconnectedTip => {
                let head = self.tips.map[parent];
                let largest = self.heads_heights.map[head].0;
                let replaced = ChainState {
                    validations: self.validations.insert(parent, OrphanType::BelongsToDisconnected),
                    heads: sets_add_tip(sets_remove_tip(self.heads, head, parent), head, hash),
                    tips: self.tips.remove(parent),
                    heads_heights: if block.spec_height() > largest {
                        self.heads_heights.insert(head, (block.spec_height(), hash))
                    } else {
                        self.heads_heights
                    },
                    ..self
                };
                let written = replaced.with_orphan(block, OrphanType::DisconnectedTip, 0);
                let tipped = ChainState { tips: written.tips.insert(hash, head), ..written };
                lemma_forest_replace_tip(self.pool, self.heads, self.tips, hash, block, parent);
                assert(tipped.pool == self.pool.insert(hash, block));
                assert(tipped.forest_ok());
                assert(head != hash) by {
                    assert(self.heads.map.contains_key(head));
                    assert(self.pool.contains(head));
                }
                tipped.lemma_settle_disconnected_forest(block, head, false);
            },
            OrphanType::ValidChainTip => {
                let marked = self.mark(parent, OrphanType::BelongsToValidChain);
                self.lemma_base_keeps_ledger(marked);
                self.lemma_same_forest(marked);
                marked.lemma_with_orphan_ledger(block, OrphanType::ValidChainTip, 0);
                marked.lemma_with_orphan_forest(block, OrphanType::ValidChainTip, 0);
                let written = marked.with_orphan(block, OrphanType::ValidChainTip, 0);
                let tip = written.attach_valid_tip(block);
                let inverse = written.attach_valid_inverse(block);
                written.lemma_attach_valid_tip(block);
                let attached = written.attempt_attach_valid(block);
                written.lemma_attempt_attach_valid_base(block);
                written.lemma_base_keeps_ledger(attached);
                written.lemma_attempt_attach_valid_forest(block);
                let lifted = attached.recurse_inverse(block, inverse, inverse == 0);
                attached.lemma_recurse_inverse_base(block, inverse, inverse == 0);
                attached.lemma_base_keeps_ledger(lifted);
                attached.lemma_same_forest(lifted);
                let tipped = lifted.settle_valid(
                    block.spec_hash(),
                    written.attach_valid_standing(block),
                );
                lifted.lemma_settle_valid_base(
                    block.spec_hash(),
                    written.attach_valid_standing(block),
                );
                lifted.lemma_base_keeps_ledger(tipped);
                lifted.lemma_same_forest(tipped);
                tipped.lemma_attempt_switch_forest(tip);
            },
            OrphanType::BelongsToDisconnected => {
                let head = self.head_above(parent, block.spec_height()).unwrap();
                self.lemma_head_above(parent, block.spec_height());
                let n = choose|n: nat| reaches(self.pool, parent, head, n);
                let written = self.with_orphan(block, OrphanType::DisconnectedTip, 0);
                let tipped = ChainState {
                    heads: sets_add_tip(written.heads, head, hash),
                    tips: written.tips.insert(hash, head),
                    ..written
                };
                lemma_forest_add_tip(self.pool, self.heads, self.tips, hash, block, parent, head, n);
                assert(tipped.forest_ok());
                assert(head != hash) by {
                    assert(self.pool.contains(head));
                }
                tipped.lemma_settle_disconnected_forest(block, head, true);
            },
            OrphanType::BelongsToValidChain => {
                let tipped = ChainState { valid_tips: self.valid_tips.insert(hash, ()), ..self };
                self.lemma_base_keeps_ledger(tipped);
                self.lemma_same_forest(tipped);
                let tip = tipped.attach_valid_tip(block);
                let inverse = tipped.attach_valid_inverse(block);
                let standing = tipped.attach_valid_standing(block);
                tipped.lemma_attach_valid_tip(block);
                let attached = tipped.attempt_attach_valid(block);
                tipped.lemma_attempt_attach_valid_base(block);
                tipped.lemma_base_keeps_ledger(attached);
                tipped.lemma_attempt_attach_valid_forest(block);
                attached.lemma_with_orphan_ledger(block, standing, inverse);
                attached.lemma_with_orphan_forest(block, standing, inverse);
                let written = attached.with_orphan(block, standing, inverse);
                let lifted = written.recurse_inverse(tip, inverse, inverse == 0);
                written.lemma_recurse_inverse_base(tip, inverse, inverse == 0);
                written.lemma_base_keeps_ledger(lifted);
                written.lemma_same_forest(lifted);
                assert(lifted.pool.contains(tip.spec_hash()) && lifted.pool.map[tip.spec_hash()]
                    == tip) by {
                    if tip != block {
                        assert(self.pool.contains(tip.spec_hash()));
                        assert(tip.spec_hash() != hash);
                    }
                }
                let settled = lifted.settle_valid(hash, standing);
                lifted.lemma_settle_valid_base(hash, standing);
                lifted.lemma_base_keeps_ledger(settled);
                lifted.lemma_same_forest(settled);
                settled.lemma_attempt_switch_forest(tip);
            },
        }
    }

    /// Taking in a block whose parent is unknown keeps the disconnected
    /// sub-trees sound.
    pub proof fn lemma_append_disconnected_forest(self, block: Arc<B>, parent: H256)
        requires
            block_type_sound::<B>(),
            self.ledger_ok(),
            self.forest_ok(),
            !self.knows(block.spec_hash()),
            block.spec_height() >= 1,
            crate::chain::ledger::apart(block),
        ensures
            self.append_disconnected(block, parent).forest_ok(),
    {
        let hash = block.spec_hash();
        let seeded = ChainState {
            heads: self.heads.insert(hash, seq![hash]),
            tips: self.tips.insert(hash, hash),
            heads_heights: self.heads_heights.insert(hash, (block.spec_height(), hash)),
            heights: crate::heights::levels_put(self.heights, block.spec_height(), hash, 0),
            pool: self.pool.insert(hash, block),
            ..self
        };
        lemma_forest_seed(self.pool, self.heads, self.tips, hash, block);
        let standing = seeded.attach_standing(hash, OrphanType::DisconnectedTip);
        let attached = seeded.attempt_attach(hash);
        seeded.lemma_attempt_attach_forest(hash);
        let written = attached.with_orphan(block, standing, 0);
        assert(attached.pool.contains(hash) && attached.pool.map[hash] == block);
        lemma_forest_insert(attached.pool, attached.heads, attached.tips, hash, block);
        match attached.matching_valid_tip(parent, 0) {
            Some(tip) => {
                written.lemma_attempt_attach_valid_forest(attached.pool.map[tip]);
            },
            None => {},
        }
    }

    /// Taking in a block keeps the disconnected sub-trees sound.
    pub proof fn lemma_append_block_forest(self, block: Arc<B>)
        requires
            block_type_sound::<B>(),
            self.ledger_ok(),
            self.forest_ok(),
            self.append_error(block).is_none(),
            crate::chain::ledger::apart(block),
        ensures
            self.append_block(block).forest_ok(),
    {
        let parent = block.spec_parent_hash().unwrap();
        assert(!self.knows(block.spec_hash()));
        assert(block.spec_height() >= 1);
        if parent == self.tip.spec_hash() {
            self.lemma_write_block_ledger(block);
            self.lemma_write_tip_forest(block);
            let written = self.write_block(block);
            if block.spec_height() < u64::MAX {
                match written.max_orphan_height {
                    Some(max) => {
                        written.lemma_drain_forest(
                            (block.spec_height() + 1) as u64,
                            max,
                            false,
                            Seq::empty(),
                        );
                    },
                    None => {},
                }
            }
        } else if self.store.contains_key(StoreKey::Block(parent)) {
            self.lemma_append_fork_forest(block);
        } else if self.pool.contains(parent) {
            self.lemma_append_to_orphan_forest(block, parent, self.validations.map[parent]);
        } else {
            self.lemma_append_disconnected_forest(block, parent);
        }
    }
}

} // verus!
