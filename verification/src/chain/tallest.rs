//! The tallest tip on record for each disconnected sub-tree: what holds of
//! it after every call, as long as the blocks that come in agree with each
//! other.
use crate::block::Block;
use crate::chain::forest::{forest, reaches};
use crate::chain::links::{lemma_reaches_height, links};
use crate::chain::state::ChainState;
use crate::hash::H256;
use crate::ordered_map::Entries;
use crate::store::StoreKey;
use crate::tip_sets::{
    lemma_with_tip, lemma_without_tip, sets_add_tip, sets_remove_tip, with_tip, without_tip,
};
use std::sync::Arc;
use vstd::prelude::*;

verus! {

/// What is on record for the head `head` is right but for one thing: the
/// tallest tip on record is an orphan of the height on record, which is
/// not below the height of the head; and the tip is a tip of the head, or
/// it is `pending`.
pub open spec fn tallest_at<B: Block>(
    pool: Entries<Arc<B>>,
    heads: Entries<Seq<H256>>,
    record: Entries<(u64, H256)>,
    head: H256,
    pending: Option<H256>,
) -> bool {
    let height = record.map[head].0;
    let tip = record.map[head].1;
    &&& record.map.contains_key(head)
    &&& pool.contains(tip)
    &&& pool.map[tip].spec_height() == height
    &&& heads.map[head].contains(tip) || pending == Some(tip)
    &&& pool.contains(head)
    &&& height >= pool.map[head].spec_height()
}

/// What holds of the record of tallest tips: it has an entry for each
/// head and for nothing else, and the entry of each head is right; for the
/// head `open`, if there is one, the tip on record may be `pending`.
pub open spec fn tallest<B: Block>(
    pool: Entries<Arc<B>>,
    heads: Entries<Seq<H256>>,
    record: Entries<(u64, H256)>,
    open: Option<H256>,
    pending: Option<H256>,
) -> bool {
    &&& heads.wf()
    &&& record.wf()
    &&& forall|h: H256| record.map.contains_key(h) ==> heads.map.contains_key(h)
    &&& forall|h: H256| #[trigger]
        heads.map.contains_key(h) ==> tallest_at(
            pool,
            heads,
            record,
            h,
            if open == Some(h) {
                pending
            } else {
                None
            },
        )
}

/// An orphan that joins the pool under a new hash leaves the record of
/// tallest tips sound.
pub proof fn lemma_tallest_insert<B: Block>(
    pool: Entries<Arc<B>>,
    heads: Entries<Seq<H256>>,
    record: Entries<(u64, H256)>,
    open: Option<H256>,
    pending: Option<H256>,
    key: H256,
    block: Arc<B>,
)
    requires
        tallest(pool, heads, record, open, pending),
        !pool.contains(key) || pool.map[key] == block,
    ensures
        tallest(pool.insert(key, block), heads, record, open, pending),
{
    let pool2 = pool.insert(key, block);
    assert forall|h: H256| #[trigger] heads.map.contains_key(h) implies tallest_at(
        pool2,
        heads,
        record,
        h,
        if open == Some(h) {
            pending
        } else {
            None
        },
    ) by {
        assert(tallest_at(
            pool,
            heads,
            record,
            h,
            if open == Some(h) {
                pending
            } else {
                None
            },
        ));
    }
}

/// A new orphan that is the head and only tip of its own sub-tree leaves
/// the record of tallest tips sound.
pub proof fn lemma_tallest_seed<B: Block>(
    pool: Entries<Arc<B>>,
    heads: Entries<Seq<H256>>,
    record: Entries<(u64, H256)>,
    key: H256,
    block: Arc<B>,
)
    requires
        tallest(pool, heads, record, None, None),
        !pool.contains(key),
    ensures
        tallest(
            pool.insert(key, block),
            heads.insert(key, seq![key]),
            record.insert(key, (block.spec_height(), key)),
            None,
            None,
        ),
{
    let pool2 = pool.insert(key, block);
    let heads2 = heads.insert(key, seq![key]);
    let record2 = record.insert(key, (block.spec_height(), key));
    heads.lemma_insert_wf(key, seq![key]);
    record.lemma_insert_wf(key, (block.spec_height(), key));
    lemma_tallest_insert(pool, heads, record, None, None, key, block);
    assert forall|h: H256| #[trigger] heads2.map.contains_key(h) implies tallest_at(
        pool2,
        heads2,
        record2,
        h,
        None,
    ) by {
        if h == key {
            assert(seq![key][0] == key);
        } else {
            assert(heads.map.contains_key(h));
            assert(tallest_at(pool2, heads, record, h, None));
        }
    }
}

/// A new orphan that takes the place of its parent among the tips of a
/// head, and is one higher than it, leaves the record of tallest tips
/// sound.
pub proof fn lemma_tallest_replace_tip<B: Block>(
    pool: Entries<Arc<B>>,
    heads: Entries<Seq<H256>>,
    record: Entries<(u64, H256)>,
    key: H256,
    block: Arc<B>,
    parent: H256,
    head: H256,
)
    requires
        tallest(pool, heads, record, None, None),
        !pool.contains(key),
        pool.contains(parent),
        heads.map.contains_key(head),
        heads.map[head].no_duplicates(),
        block.spec_height() == pool.map[parent].spec_height() + 1,
    ensures
        tallest(
            pool.insert(key, block),
            sets_add_tip(sets_remove_tip(heads, head, parent), head, key),
            if block.spec_height() > record.map[head].0 {
                record.insert(head, (block.spec_height(), key))
            } else {
                record
            },
            None,
            None,
        ),
{
    let pool2 = pool.insert(key, block);
    let removed = sets_remove_tip(heads, head, parent);
    let heads2 = sets_add_tip(removed, head, key);
    let record2 = if block.spec_height() > record.map[head].0 {
        record.insert(head, (block.spec_height(), key))
    } else {
        record
    };
    let list0 = heads.map[head];
    let list1 = without_tip(list0, parent);
    let list2 = with_tip(list1, key);
    lemma_without_tip(list0, parent);
    lemma_with_tip(list1, key);
    lemma_tallest_insert(pool, heads, record, None, None, key, block);
    heads.lemma_insert_wf(head, list1);
    removed.lemma_insert_wf(head, list2);
    record.lemma_insert_wf(head, (block.spec_height(), key));
    assert(removed == heads.insert(head, list1));
    assert(heads2 == removed.insert(head, list2));
    assert(tallest_at(pool, heads, record, head, None));
    assert forall|h: H256| #[trigger] heads2.map.contains_key(h) implies tallest_at(
        pool2,
        heads2,
        record2,
        h,
        None,
    ) by {
        assert(heads.map.contains_key(h));
        assert(tallest_at(pool2, heads, record, h, None));
        if h == head {
            let tip = record.map[head].1;
            if block.spec_height() > record.map[head].0 {
                assert(list2.contains(key));
            } else {
                assert(tip != parent);
                assert(list0.contains(tip));
                assert(list1.contains(tip));
                assert(list2.contains(tip));
            }
        }
    }
}

/// A new orphan that becomes a further tip of a head leaves the record of
/// tallest tips sound.
pub proof fn lemma_tallest_add_tip<B: Block>(
    pool: Entries<Arc<B>>,
    heads: Entries<Seq<H256>>,
    record: Entries<(u64, H256)>,
    key: H256,
    block: Arc<B>,
    head: H256,
)
    requires
        tallest(pool, heads, record, None, None),
        !pool.contains(key),
        heads.map.contains_key(head),
    ensures
        tallest(pool.insert(key, block), sets_add_tip(heads, head, key), record, None, None),
{
    let pool2 = pool.insert(key, block);
    let heads2 = sets_add_tip(heads, head, key);
    let list0 = heads.map[head];
    let list2 = with_tip(list0, key);
    lemma_tallest_insert(pool, heads, record, None, None, key, block);
    heads.lemma_insert_wf(head, list2);
    assert forall|t: H256| list0.contains(t) implies list2.contains(t) by {
        let j = choose|j: int| 0 <= j < list0.len() && list0[j] == t;
        assert(list2[j] == t);
    }
    assert forall|h: H256| #[trigger] heads2.map.contains_key(h) implies tallest_at(
        pool2,
        heads2,
        record,
        h,
        None,
    ) by {
        assert(heads.map.contains_key(h));
        assert(tallest_at(pool2, heads, record, h, None));
        if h == head {
            let tip = record.map[head].1;
            assert(list0.contains(tip));
        }
    }
}

/// A tip that leaves the tips of a head leaves the record of tallest tips
/// sound, where it was the pending tip of that head.
pub proof fn lemma_tallest_drop_tip<B: Block>(
    pool: Entries<Arc<B>>,
    heads: Entries<Seq<H256>>,
    record: Entries<(u64, H256)>,
    head: H256,
    tip: H256,
)
    requires
        tallest(pool, heads, record, None, None),
        heads.map.contains_key(head) ==> heads.map[head].no_duplicates() && record.map[head].1
            != tip,
    ensures
        tallest(pool, sets_remove_tip(heads, head, tip), record, None, None),
{
    let heads2 = sets_remove_tip(heads, head, tip);
    if heads.map.contains_key(head) {
        let list0 = heads.map[head];
        let list1 = without_tip(list0, tip);
        lemma_without_tip(list0, tip);
        heads.lemma_insert_wf(head, list1);
        assert forall|h: H256| #[trigger] heads2.map.contains_key(h) implies tallest_at(
            pool,
            heads2,
            record,
            h,
            None,
        ) by {
            assert(heads.map.contains_key(h));
            assert(tallest_at(pool, heads, record, h, None));
        }
    }
}

impl<B: Block> ChainState<B> {
    /// What holds of the record of tallest tips of the state.
    pub open spec fn tallest_ok(self) -> bool {
        tallest(self.pool, self.heads, self.heads_heights, None, None)
    }

    /// A step that leaves the pool and the disconnected sub-trees as they are
    /// keeps the record of tallest tips sound.
    pub proof fn lemma_same_tallest(self, other: Self)
        requires
            self.tallest_ok(),
            self.same_forest(other),
        ensures
            other.tallest_ok(),
    {
    }

    /// Turning a disconnected sub-tree into a valid one keeps the record
    /// of tallest tips sound.
    pub proof fn lemma_make_valid_tips_tallest(self, head: H256)
        requires
            self.tallest_ok(),
        ensures
            self.make_valid_tips(head).tallest_ok(),
    {
        if self.heads.contains(head) {
            let cut = ChainState {
                heads: self.heads.remove(head),
                heads_heights: self.heads_heights.remove(head),
                ..self
            };
            self.heads.lemma_remove_wf(head);
            self.heads_heights.lemma_remove_wf(head);
            cut.lemma_promote_tips_effect(self.heads.map[head], 0, None, true);
            let after = self.make_valid_tips(head);
            assert forall|h: H256| #[trigger] after.heads.map.contains_key(h) implies tallest_at(
                after.pool,
                after.heads,
                after.heads_heights,
                h,
                None,
            ) by {
                assert(self.heads.map.contains_key(h));
                assert(tallest_at(self.pool, self.heads, self.heads_heights, h, None));
            }
        }
    }

    /// Writing a block whose parent is no orphan keeps the record of
    /// tallest tips sound.
    pub proof fn lemma_write_block_tallest(self, block: Arc<B>)
        requires
            self.forest_ok(),
            self.tallest_ok(),
            block.spec_parent_hash().is_some(),
            !self.pool.contains(block.spec_parent_hash().unwrap()),
            self.pool.contains(block.spec_hash()) ==> self.pool.map[block.spec_hash()] == block,
        ensures
            self.write_block(block).tallest_ok(),
    {
        let hash = block.spec_hash();
        let height = (self.height + 1) as u64;
        let heights = crate::heights::levels_remove(self.heights, block.spec_height(), hash);
        let written = self.written(block);
        let after = self.write_block(block);
        if self.heads.contains(hash) {
            written.lemma_promote_tips_effect(self.heads.map[hash], 0, Some(hash), false);
        }
        self.heads.lemma_remove_wf(hash);
        self.heads_heights.lemma_remove_wf(hash);
        assert forall|h: H256| #[trigger] after.heads.map.contains_key(h) implies tallest_at(
            after.pool,
            after.heads,
            after.heads_heights,
            h,
            None,
        ) by {
            assert(self.heads.map.contains_key(h) && h != hash);
            assert(tallest_at(self.pool, self.heads, self.heads_heights, h, None));
            let tip = self.heads_heights.map[h].1;
            if tip == hash {
                assert(self.heads.map[h].contains(hash));
                assert(self.tips.map.contains_key(hash) && self.tips.map[hash] == h);
                let n = choose|n: nat| reaches(self.pool, hash, h, n);
                assert(reaches(self.pool, hash, h, n));
                let parent = block.spec_parent_hash().unwrap();
                assert(reaches(self.pool, parent, h, (n - 1) as nat));
                assert(false);
            }
        }
    }

    /// What `merge_tips` does to the record of tallest tips: the entry of
    /// `head` is as it was, or it names a merged tip with its height; its
    /// height is at least what it was and at least that of every merged
    /// tip; and no other entry changes.
    pub proof fn lemma_merge_tips_record(self, head: H256, tips: Seq<H256>, from: int)
        requires
            0 <= from,
            self.heads_heights.map.contains_key(head),
            self.heads.map.contains_key(head),
            self.heads.wf(),
            self.heads_heights.wf(),
            forall|x: H256| #[trigger] self.pool.contains(x) ==> self.pool.map[x].spec_hash() == x,
        ensures
            ({
                let after = self.merge_tips(head, tips, from);
                &&& after.heads.wf()
                &&& after.heads_heights.wf()
                &&& forall|h: H256|
                    #![trigger after.heads_heights.map.contains_key(h)]
                    after.heads_heights.map.contains_key(h)
                        <==> self.heads_heights.map.contains_key(
                        h,
                    )
                &&& forall|h: H256|
                    #![trigger after.heads_heights.map[h]]
                    h != head ==> after.heads_heights.map[h] == self.heads_heights.map[h]
                &&& after.heads_heights.map[head].0 >= self.heads_heights.map[head].0
                &&& forall|t: H256|
                    self.merged(tips, from, t) ==> after.heads_heights.map[head].0
                        >= self.pool.map[t].spec_height()
                &&& (after.heads_heights.map[head] == self.heads_heights.map[head] || (self.merged(
                    tips,
                    from,
                    after.heads_heights.map[head].1,
                ) && self.pool.map[after.heads_heights.map[head].1].spec_height()
                    == after.heads_heights.map[head].0))
            }),
        decreases tips.len() - from,
    {
        let after = self.merge_tips(head, tips, from);
        if from < tips.len() {
            let tip = tips[from];
            let next = self.merge_tip(head, tip);
            self.heads.lemma_insert_wf(head, with_tip(self.heads.map[head], tip));
            if self.pool.contains(tip) {
                self.heads_heights.lemma_insert_wf(
                    head,
                    (self.pool.map[tip].spec_height(), self.pool.map[tip].spec_hash()),
                );
            }
            assert(next.pool == self.pool);
            next.lemma_merge_tips_record(head, tips, from + 1);
            assert forall|k: H256|
                self.merged(tips, from, k) <==> ((k == tip && self.pool.contains(k))
                    || next.merged(tips, from + 1, k)) by {
                if self.merged(tips, from, k) {
                    let i = choose|i: int| from <= i < tips.len() && 0 <= i
                        && #[trigger] tips[i] == k;
                    if i != from {
                        assert(from + 1 <= i < tips.len() && tips[i] == k);
                    }
                }
                if next.merged(tips, from + 1, k) {
                    let i = choose|i: int|
                        from + 1 <= i < tips.len() && 0 <= i && #[trigger] tips[i] == k;
                    assert(from <= i < tips.len() && tips[i] == k);
                }
                if k == tip {
                    assert(tips[from] == k);
                }
            }
            assert forall|h: H256|
                #![trigger after.heads_heights.map.contains_key(h)]
                after.heads_heights.map.contains_key(h) <==> self.heads_heights.map.contains_key(
                    h,
                ) by {
                assert(next.heads_heights.map.contains_key(h)
                    <==> self.heads_heights.map.contains_key(h));
            }
            assert forall|h: H256|
                #![trigger after.heads_heights.map[h]]
                h != head implies after.heads_heights.map[h] == self.heads_heights.map[h] by {
                assert(next.heads_heights.map[h] == self.heads_heights.map[h]);
            }
            assert forall|t: H256| self.merged(tips, from, t)
                implies after.heads_heights.map[head].0
                >= self.pool.map[t].spec_height() by {
                if next.merged(tips, from + 1, t) {
                } else {
                    assert(t == tip);
                }
            }
        } else {
            assert forall|k: H256| !self.merged(tips, from, k) by {}
        }
    }

    /// Fusing the sub-tree of a head that follows a block into the
    /// sub-tree that the block belongs to keeps the record of tallest tips
    /// sound, but that the block itself may stay on record as the tallest
    /// tip of its head. Where the sub-tree was fused, the height on record
    /// for that head lies above the block.
    pub proof fn lemma_attach_head_tallest(
        self,
        our_head: H256,
        head: H256,
        tip: H256,
        steps: nat,
    )
        requires
            self.ledger_ok(),
            self.forest_ok(),
            self.links_ok(),
            tallest(self.pool, self.heads, self.heads_heights, Some(our_head), Some(tip)),
            self.heads.map.contains_key(our_head),
            reaches(self.pool, tip, our_head, steps),
            self.follows(head, tip),
            head != our_head,
        ensures
            ({
                let after = self.attach_head(our_head, head);
                &&& tallest(after.pool, after.heads, after.heads_heights, Some(our_head), Some(tip))
                &&& after.heads_heights.map[our_head].0 >= self.heads_heights.map[our_head].0
                &&& self.heads.map.contains_key(head) ==> after.heads_heights.map[our_head].0
                    > self.pool.map[tip].spec_height()
            }),
    {
        if self.heads.contains(head) {
            let list = self.heads.map[head];
            let heads1 = self.heads.remove(head);
            let heads2 = sets_remove_tip(heads1, our_head, our_head);
            let cleared = ChainState {
                heads: heads2,
                heads_heights: self.heads_heights.remove(head),
                tips: self.tips.remove(our_head),
                ..self
            };
            let list_our = self.heads.map[our_head];
            lemma_without_tip(list_our, our_head);
            self.heads.lemma_remove_wf(head);
            self.heads_heights.lemma_remove_wf(head);
            heads1.lemma_insert_wf(our_head, without_tip(list_our, our_head));
            assert(heads2 == heads1.insert(our_head, without_tip(list_our, our_head)));
            assert(tallest_at(
                self.pool,
                self.heads,
                self.heads_heights,
                our_head,
                Some(tip),
            ));
            assert(tallest_at(self.pool, self.heads, self.heads_heights, head, None));
            cleared.lemma_merge_tips_effect(our_head, list, 0);
            cleared.lemma_merge_tips_record(our_head, list, 0);
            let merged = cleared.merge_tips(our_head, list, 0);
            merged.lemma_recurse_tips_base(list, 0);
            let after = self.attach_head(our_head, head);
            assert(after == merged.recurse_tips(list, 0));
            assert(after.pool == self.pool);
            assert(after.heads == merged.heads);
            assert(after.heads_heights == merged.heads_heights);

            // the tallest tip of the attached head is merged and lies above the block
            let star = self.heads_heights.map[head].1;
            assert(list.contains(star));
            assert(cleared.merged(list, 0, star)) by {
                let i = choose|i: int| 0 <= i < list.len() && list[i] == star;
                assert(list[i] == star);
            }
            assert(self.pool.map[head].spec_height() == self.pool.map[tip].spec_height() + 1)
                by {
                assert(crate::chain::links::link_fits(
                    self.pool,
                    self.store,
                    self.pool.map[head],
                ));
            }
            lemma_reaches_height(self.pool, self.store, tip, our_head, steps);
            let lh = after.heads_heights.map[our_head].0;
            let lt = after.heads_heights.map[our_head].1;
            assert(lh >= self.pool.map[star].spec_height());
            assert(lh > self.pool.map[tip].spec_height());

            assert forall|h: H256| after.heads_heights.map.contains_key(h)
                implies after.heads.map.contains_key(
                h,
            ) by {
                assert(cleared.heads_heights.map.contains_key(h));
                assert(self.heads_heights.map.contains_key(h) && h != head);
                assert(self.heads.map.contains_key(h));
            }
            assert forall|h: H256| #[trigger] after.heads.map.contains_key(h) implies tallest_at(
                after.pool,
                after.heads,
                after.heads_heights,
                h,
                if Some(our_head) == Some(h) {
                    Some(tip)
                } else {
                    None
                },
            ) by {
                assert(self.heads.map.contains_key(h) && h != head);
                if h == our_head {
                    if after.heads_heights.map[our_head] == cleared.heads_heights.map[our_head] {
                        let old = self.heads_heights.map[our_head].1;
                        assert(lt == old);
                        assert(self.pool.map[old].spec_height() == lh);
                        assert(old != tip);
                        assert(old != our_head);
                        assert(list_our.contains(old));
                        assert(without_tip(list_our, our_head).contains(old));
                        assert(cleared.heads.map[our_head].contains(old));
                        assert(after.heads.map[our_head].contains(old));
                    } else {
                        assert(cleared.merged(list, 0, lt));
                        assert(after.heads.map[our_head].contains(lt));
                    }
                } else {
                    assert(tallest_at(self.pool, self.heads, self.heads_heights, h, None));
                    assert(after.heads.map[h] == cleared.heads.map[h]);
                    assert(after.heads_heights.map[h] == cleared.heads_heights.map[h]);
                }
            }
        }
    }

    /// Fusing several sub-trees whose heads follow a block keeps the
    /// record of tallest tips sound, but that the block itself may stay
    /// on record as the tallest tip of its head. Where a sub-tree was
    /// fused, the height on record for that head lies above the block.
    pub proof fn lemma_attach_heads_tallest(
        self,
        our_head: H256,
        heads: Seq<H256>,
        from: int,
        tip: H256,
        steps: nat,
    )
        requires
            0 <= from,
            self.ledger_ok(),
            self.forest_ok(),
            self.links_ok(),
            tallest(self.pool, self.heads, self.heads_heights, Some(our_head), Some(tip)),
            self.heads.map.contains_key(our_head),
            reaches(self.pool, tip, our_head, steps),
            forall|i: int|
                0 <= i < heads.len() ==> self.follows(#[trigger] heads[i], tip) && heads[i]
                    != our_head,
        ensures
            ({
                let after = self.attach_heads(our_head, heads, from);
                &&& tallest(after.pool, after.heads, after.heads_heights, Some(our_head), Some(tip))
                &&& after.heads_heights.map[our_head].0 >= self.heads_heights.map[our_head].0
                &&& (from < heads.len() && self.heads.map.contains_key(heads[from]))
                    ==> after.heads_heights.map[our_head].0 > self.pool.map[tip].spec_height()
            }),
        decreases heads.len() - from,
    {
        if from < heads.len() {
            self.lemma_attach_head_tallest(our_head, heads[from], tip, steps);
            self.lemma_attach_head_forest(our_head, heads[from], tip, steps);
            let next = self.attach_head(our_head, heads[from]);
            self.lemma_attach_head_base(our_head, heads[from]);
            self.lemma_base_keeps_ledger(next);
            self.lemma_base_keeps_links(next);
            assert forall|i: int| 0 <= i < heads.len() implies next.follows(
                #[trigger] heads[i],
                tip,
            ) && heads[i] != our_head by {
                assert(self.follows(heads[i], tip));
            }
            next.lemma_attach_heads_tallest(our_head, heads, from + 1, tip, steps);
        }
    }

    /// The heads that `attachable` lists are heads.
    pub proof fn lemma_attachable_heads(self, tip: H256, our_head: H256, upto: int)
        requires
            self.heads.wf(),
        ensures
            forall|i: int|
                0 <= i < self.attachable(tip, our_head, upto).len() ==> self.heads.map.contains_key(
                    #[trigger] self.attachable(tip, our_head, upto)[i],
                ),
        decreases upto,
    {
        if 0 < upto <= self.heads.order.len() {
            self.lemma_attachable_heads(tip, our_head, upto - 1);
            let before = self.attachable(tip, our_head, upto - 1);
            let head = self.heads.order[upto - 1];
            let list = self.attachable(tip, our_head, upto);
            assert(self.heads.order.contains(head));
            assert forall|i: int| 0 <= i < list.len() implies self.heads.map.contains_key(
                #[trigger] list[i],
            ) by {
                if i < before.len() {
                    assert(list[i] == before[i]);
                } else {
                    assert(list[i] == head);
                }
            }
        }
    }

    /// Attaching the sub-trees that follow a disconnected tip keeps the
    /// record of tallest tips sound, but that the tip itself may stay on
    /// record as the tallest tip of its head. Where a sub-tree was
    /// attached, the height on record for that head lies above the tip.
    pub proof fn lemma_attempt_attach_tallest(self, tip: H256)
        requires
            self.ledger_ok(),
            self.forest_ok(),
            self.links_ok(),
            self.tallest_ok(),
            self.tips.map.contains_key(tip),
        ensures
            ({
                let after = self.attempt_attach(tip);
                let our_head = self.tips.map[tip];
                &&& tallest(after.pool, after.heads, after.heads_heights, Some(our_head), Some(tip))
                &&& after.heads.map.contains_key(our_head)
                &&& self.attached_heads(tip).len() > 0 ==> after.heads_heights.map[our_head].0
                    > self.pool.map[tip].spec_height()
                &&& self.attached_heads(tip).len() == 0 ==> after == self
            }),
    {
        let our_head = self.tips.map[tip];
        let n = choose|n: nat| reaches(self.pool, tip, our_head, n);
        let list = self.attached_heads(tip);
        self.lemma_attachable(tip, our_head, self.heads.order.len() as int);
        self.lemma_attachable_heads(tip, our_head, self.heads.order.len() as int);
        assert forall|h: H256| #[trigger] self.heads.map.contains_key(h) implies tallest_at(
            self.pool,
            self.heads,
            self.heads_heights,
            h,
            if Some(our_head) == Some(h) {
                Some(tip)
            } else {
                None
            },
        ) by {
            assert(tallest_at(self.pool, self.heads, self.heads_heights, h, None));
        }
        self.lemma_attach_heads_tallest(our_head, list, 0, tip, n);
        self.lemma_attach_heads_forest(our_head, list, 0, tip, n);
        if list.len() > 0 {
            assert(self.heads.map.contains_key(list[0]));
        }
    }

    /// The record of tallest tips is sound throughout where it is sound
    /// but for a pending tip, and the tip on record is not the pending
    /// one.
    pub proof fn lemma_tallest_settled(self, our_head: H256, tip: H256)
        requires
            tallest(self.pool, self.heads, self.heads_heights, Some(our_head), Some(tip)),
            self.heads.map.contains_key(our_head) ==> self.heads_heights.map[our_head].1 != tip,
        ensures
            self.tallest_ok(),
    {
        assert forall|h: H256| #[trigger] self.heads.map.contains_key(h) implies tallest_at(
            self.pool,
            self.heads,
            self.heads_heights,
            h,
            None,
        ) by {
            assert(tallest_at(
                self.pool,
                self.heads,
                self.heads_heights,
                h,
                if Some(our_head) == Some(h) {
                    Some(tip)
                } else {
                    None
                },
            ));
        }
    }

    /// What follows once a block stands as a tip in the sub-tree of a head
    /// keeps the record of tallest tips sound.
    pub proof fn lemma_settle_disconnected_tallest(self, block: Arc<B>, head: H256, again: bool)
        requires
            self.ledger_ok(),
            self.forest_ok(),
            self.links_ok(),
            self.tallest_ok(),
            self.tips.map.contains_key(block.spec_hash()),
            self.tips.map[block.spec_hash()] == head,
            head != block.spec_hash(),
            self.pool.map[block.spec_hash()] == block,
        ensures
            self.settle_disconnected(block, head, again).tallest_ok(),
    {
        let hash = block.spec_hash();
        let standing = self.attach_standing(hash, crate::orphan_type::OrphanType::DisconnectedTip);
        let attached = self.attempt_attach(hash);
        self.lemma_attempt_attach_tallest(hash);
        self.lemma_attempt_attach_forest(hash);
        if standing == crate::orphan_type::OrphanType::DisconnectedTip {
            assert(attached == self);
            let tipped = if again {
                ChainState { tips: attached.tips.insert(hash, head), ..attached }
            } else {
                attached
            };
            tipped.lemma_recurse_inverse_base(block, 0, false);
            let after = tipped.recurse_inverse(block, 0, false);
            assert(after.pool == self.pool && after.heads == self.heads && after.heads_heights
                == self.heads_heights);
        } else {
            assert(tallest_at(
                attached.pool,
                attached.heads,
                attached.heads_heights,
                head,
                Some(hash),
            ));
            assert(attached.heads_heights.map[head].1 != hash);
            attached.lemma_tallest_settled(head, hash);
            lemma_tallest_drop_tip(
                attached.pool,
                attached.heads,
                attached.heads_heights,
                head,
                hash,
            );
        }
    }

    /// Offering a valid tip to the disconnected sub-trees keeps the record
    /// of tallest tips sound.
    pub proof fn lemma_attempt_attach_valid_tallest(self, tip: Arc<B>)
        requires
            self.tallest_ok(),
        ensures
            self.attempt_attach_valid(tip).tallest_ok(),
    {
        match self.attached_head(tip.spec_hash()) {
            Some(head) => {
                self.lemma_make_valid_tips_tallest(head);
                let promoted = self.make_valid_tips(head);
                promoted.lemma_recurse_inverse_base(self.attach_valid_tip(tip), 0, true);
                promoted.lemma_same_tallest(
                    promoted.recurse_inverse(self.attach_valid_tip(tip), 0, true),
                );
            },
            None => {
                self.lemma_recurse_inverse_base(tip, 0, true);
                self.lemma_same_tallest(self.recurse_inverse(tip, 0, true));
            },
        }
    }
}

} // verus!
