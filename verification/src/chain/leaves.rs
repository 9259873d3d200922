//! The disconnected tips as the leaves of their sub-trees: what holds of
//! them after every call, as long as the blocks that come in agree with
//! each other.
use crate::block::Block;
use crate::chain::forest::reaches;
use crate::chain::ledger::block_type_sound;
use crate::chain::links::{lemma_reaches_height, link_fits};
use crate::chain::state::{deepest, ChainState, DrainStep};
use crate::heights::level_seq;
use crate::tip_sets::{sets_add_tip, sets_remove_tip};
use crate::hash::H256;
use crate::ordered_map::Entries;
use crate::orphan_type::OrphanType;
use crate::store::StoreKey;
use std::sync::Arc;
use vstd::prelude::*;

verus! {

/// Whether the hash `hash` is the hash of an orphan, of a stored block or
/// of genesis.
pub open spec fn known<B: Block>(
    pool: Entries<Arc<B>>,
    store: Map<StoreKey, Seq<u8>>,
    hash: H256,
) -> bool {
    pool.contains(hash) || store.contains_key(StoreKey::Block(hash)) || hash
        == B::spec_genesis().spec_hash()
}

/// Whether `hash` has the standing of a disconnected tip.
pub open spec fn is_tip(validations: Entries<OrphanType>, hash: H256) -> bool {
    validations.map.contains_key(hash) && validations.map[hash] == OrphanType::DisconnectedTip
}

/// What holds of the disconnected tips.
///
/// An orphan whose parent is not known is a head. The parent of an orphan,
/// where it is an orphan too, has a standing, and not that of a
/// disconnected tip: such a tip is a leaf. And every orphan with the
/// standing of a disconnected tip has a head. The hash `exempt`, if there
/// is one, is passed over as a parent and as a tip.
pub open spec fn leaves<B: Block>(
    pool: Entries<Arc<B>>,
    store: Map<StoreKey, Seq<u8>>,
    validations: Entries<OrphanType>,
    heads: Entries<Seq<H256>>,
    tips: Entries<H256>,
    exempt: Option<H256>,
) -> bool {
    &&& forall|c: H256| #[trigger]
        pool.contains(c) ==> leaf_at(pool, store, validations, heads, exempt, c)
    &&& forall|x: H256|
        #[trigger] pool.contains(x) && exempt != Some(x) && is_tip(validations, x)
            ==> tips.map.contains_key(x)
}

/// What holds of the orphan `child` and its parent: the parent is known,
/// or the orphan is a head; and the parent, where it is an orphan, has a
/// standing, and not that of a disconnected tip. A parent `exempt` is
/// passed over.
pub open spec fn leaf_at<B: Block>(
    pool: Entries<Arc<B>>,
    store: Map<StoreKey, Seq<u8>>,
    validations: Entries<OrphanType>,
    heads: Entries<Seq<H256>>,
    exempt: Option<H256>,
    child: H256,
) -> bool {
    match pool.map[child].spec_parent_hash() {
        Some(parent) => {
            &&& known(pool, store, parent) || exempt == Some(parent) || heads.map.contains_key(
                child,
            )
            &&& pool.contains(parent) && exempt != Some(parent)
                ==> validations.map.contains_key(parent) && !is_tip(validations, parent)
        },
        None => true,
    }
}

/// The last step of a walk that does not end where it begins comes from a
/// child of its end.
pub proof fn lemma_reaches_child<B: Block>(pool: Entries<Arc<B>>, from: H256, to: H256, steps: nat)
    requires
        reaches(pool, from, to, steps),
        from != to,
    ensures
        exists|c: H256| #[trigger]
            pool.contains(c) && pool.map[c].spec_parent_hash() == Some(to) && pool.contains(to),
    decreases steps,
{
    let parent = pool.map[from].spec_parent_hash().unwrap();
    assert(reaches(pool, parent, to, (steps - 1) as nat));
    if parent == to {
        assert(pool.contains(from) && pool.map[from].spec_parent_hash() == Some(to));
    } else {
        lemma_reaches_child(pool, parent, to, (steps - 1) as nat);
    }
}

impl<B: Block> ChainState<B> {
    /// What holds of the disconnected tips of the state.
    pub open spec fn leaves_ok(self, exempt: Option<H256>) -> bool {
        leaves(self.pool, self.store, self.validations, self.heads, self.tips, exempt)
    }

    /// What holds of the orphan `child` of the state and its parent.
    pub open spec fn leaf_ok(self, exempt: Option<H256>, child: H256) -> bool {
        leaf_at(self.pool, self.store, self.validations, self.heads, exempt, child)
    }

    /// From `self` to `after` the pool, the store and the heads stay as
    /// they are, no standing is lost, nothing becomes a disconnected tip,
    /// and whatever leaves the map of tips is no disconnected tip
    /// afterwards.
    pub open spec fn fades(self, after: Self) -> bool {
        &&& after.pool == self.pool
        &&& after.store == self.store
        &&& after.heads == self.heads
        &&& forall|x: H256|
            self.validations.map.contains_key(x) ==> #[trigger] after.validations.map.contains_key(
                x,
            )
        &&& forall|x: H256| #[trigger] is_tip(after.validations, x) ==> is_tip(self.validations, x)
        &&& forall|x: H256|
            self.tips.map.contains_key(x) && !(#[trigger] after.tips.map.contains_key(x))
                ==> !is_tip(after.validations, x)
    }

    /// A step that makes nothing a disconnected tip keeps the disconnected tips
    /// sound.
    pub proof fn lemma_fades_keep_leaves(self, after: Self, exempt: Option<H256>)
        requires
            self.leaves_ok(exempt),
            self.fades(after),
        ensures
            after.leaves_ok(exempt),
    {
        assert forall|c: H256|
            #[trigger] after.pool.contains(c) implies after.leaf_ok(exempt, c) by {
            assert(self.pool.contains(c));
            match self.pool.map[c].spec_parent_hash() {
                Some(parent) => {
                    if is_tip(after.validations, parent) {
                        assert(is_tip(self.validations, parent));
                    }
                },
                None => {},
            }
        }
        assert forall|x: H256|
            #[trigger] after.pool.contains(x) && exempt != Some(x) && is_tip(
                after.validations,
                x,
            ) implies after.tips.map.contains_key(x) by {
            assert(is_tip(self.validations, x));
            assert(self.pool.contains(x));
            assert(self.tips.map.contains_key(x));
        }
    }

    /// Two steps that make nothing a disconnected tip, one behind the other,
    /// make one such step.
    pub proof fn lemma_fades_then(self, mid: Self, after: Self)
        requires
            self.fades(mid),
            mid.fades(after),
        ensures
            self.fades(after),
    {
        assert forall|x: H256|
            self.validations.map.contains_key(x)
                implies #[trigger] after.validations.map.contains_key(
            x,
        ) by {
            assert(mid.validations.map.contains_key(x));
        }
        assert forall|x: H256| #[trigger] is_tip(after.validations, x) implies is_tip(
            self.validations,
            x,
        ) by {
            assert(is_tip(mid.validations, x));
        }
        assert forall|x: H256|
            self.tips.map.contains_key(x) && !(#[trigger] after.tips.map.contains_key(
                x,
            )) implies !is_tip(after.validations, x) by {
            if mid.tips.map.contains_key(x) {
            } else {
                assert(!is_tip(mid.validations, x));
                if is_tip(after.validations, x) {
                    assert(is_tip(mid.validations, x));
                }
            }
        }
    }

    /// Marking the ancestors of an orphan as members of a valid chain makes
    /// nothing a disconnected tip, and takes out of the map of tips only what
    /// is no disconnected tip afterwards.
    pub proof fn lemma_mark_ancestors_fades(
        self,
        parent: Option<H256>,
        below: u64,
        stop_at_valid: bool,
    )
        ensures
            self.fades(self.mark_ancestors(parent, below, stop_at_valid)),
            self.mark_ancestors(parent, below, stop_at_valid).tips == self.tips,
        decreases below,
    {
        if self.steps_to(parent, below) {
            let p = parent.unwrap();
            let block = self.pool.map[p];
            if stop_at_valid && self.validations.get(p) == Some(OrphanType::BelongsToValidChain) {
            } else {
                let next = self.mark(p, OrphanType::BelongsToValidChain);
                next.lemma_mark_ancestors_fades(
                    block.spec_parent_hash(),
                    block.spec_height(),
                    stop_at_valid,
                );
                assert(self.fades(next));
                self.lemma_fades_then(next, self.mark_ancestors(parent, below, stop_at_valid));
            }
        }
    }

    /// Raising the inverse heights of the ancestors of an orphan makes nothing
    /// a disconnected tip, and takes out of the map of tips only what is no
    /// disconnected tip afterwards.
    pub proof fn lemma_lift_ancestors_fades(
        self,
        parent: Option<H256>,
        below: u64,
        inverse: u64,
        make_valid: bool,
    )
        ensures
            self.fades(self.lift_ancestors(parent, below, inverse, make_valid)),
            self.lift_ancestors(parent, below, inverse, make_valid).tips == self.tips,
        decreases below,
    {
        if self.steps_to(parent, below) && inverse < u64::MAX {
            let p = parent.unwrap();
            let block = self.pool.map[p];
            let lifted = self.lift(block.spec_height(), p, (inverse + 1) as u64);
            let marked = if make_valid {
                lifted.mark(p, OrphanType::BelongsToValidChain)
            } else {
                lifted
            };
            marked.lemma_lift_ancestors_fades(
                block.spec_parent_hash(),
                block.spec_height(),
                (inverse + 1) as u64,
                make_valid,
            );
            assert(self.fades(marked));
            self.lemma_fades_then(
                marked,
                self.lift_ancestors(parent, below, inverse, make_valid),
            );
        }
    }

    /// Raising the inverse heights from an orphan makes nothing a disconnected
    /// tip, and takes out of the map of tips only what is no disconnected tip
    /// afterwards.
    pub proof fn lemma_recurse_inverse_fades(self, orphan: Arc<B>, start: u64, make_valid: bool)
        ensures
            self.fades(self.recurse_inverse(orphan, start, make_valid)),
            self.recurse_inverse(orphan, start, make_valid).tips == self.tips,
    {
        let first = if make_valid {
            self.mark(orphan.spec_hash(), OrphanType::ValidChainTip)
        } else {
            self
        };
        assert(self.fades(first));
        first.lemma_lift_ancestors_fades(
            orphan.spec_parent_hash(),
            orphan.spec_height(),
            start,
            make_valid,
        );
        self.lemma_fades_then(first, self.recurse_inverse(orphan, start, make_valid));
    }

    /// Promoting tips makes nothing a disconnected tip, and takes out of the
    /// map of tips only what is no disconnected tip afterwards.
    pub proof fn lemma_promote_tips_fades(
        self,
        tips: Seq<H256>,
        from: int,
        skip: Option<H256>,
        stop_at_valid: bool,
    )
        requires
            0 <= from,
        ensures
            self.fades(self.promote_tips(tips, from, skip, stop_at_valid)),
        decreases tips.len() - from,
    {
        if from < tips.len() {
            let tip = tips[from];
            let next = if skip == Some(tip) {
                self
            } else {
                self.promote_tip(tip, stop_at_valid)
            };
            if skip != Some(tip) && self.pool.contains(tip) {
                let block = self.pool.map[tip];
                let first = ChainState {
                    validations: self.validations.insert(tip, OrphanType::ValidChainTip),
                    tips: self.tips.remove(tip),
                    valid_tips: self.valid_tips.insert(tip, ()),
                    ..self
                };
                first.lemma_mark_ancestors_fades(
                    block.spec_parent_hash(),
                    block.spec_height(),
                    stop_at_valid,
                );
                assert(self.fades(next)) by {
                    assert forall|x: H256| #[trigger] is_tip(next.validations, x) implies is_tip(
                        self.validations,
                        x,
                    ) by {
                        assert(is_tip(first.validations, x));
                    }
                    assert forall|x: H256|
                        self.tips.map.contains_key(x) && !(#[trigger] next.tips.map.contains_key(
                            x,
                        )) implies !is_tip(next.validations, x) by {
                        assert(x == tip);
                        if is_tip(next.validations, x) {
                            assert(is_tip(first.validations, x));
                        }
                    }
                    assert forall|x: H256|
                        self.validations.map.contains_key(
                            x,
                        ) implies #[trigger] next.validations.map.contains_key(x) by {
                        assert(first.validations.map.contains_key(x));
                    }
                }
            }
            next.lemma_promote_tips_fades(tips, from + 1, skip, stop_at_valid);
            self.lemma_fades_then(next, self.promote_tips(tips, from, skip, stop_at_valid));
        }
    }

    /// Letting orphans take the place of their parents among the valid tips
    /// makes nothing a disconnected tip, and takes out of the map of tips only
    /// what is no disconnected tip afterwards.
    pub proof fn lemma_relink_fades(self, entries: Seq<(H256, u64)>, from: int, working: Seq<H256>)
        requires
            0 <= from,
        ensures
            self.fades(self.relink(entries, from, working).0),
            self.relink(entries, from, working).0.tips == self.tips,
        decreases entries.len() - from,
    {
        if from < entries.len() {
            let (next, set) = self.relink_orphan(entries[from].0, working);
            assert(self.fades(next));
            next.lemma_relink_fades(entries, from + 1, set);
            self.lemma_fades_then(next, self.relink(entries, from, working).0);
        }
    }

    /// Whether the parent of the orphan `hash` is an orphan, a stored
    /// block or genesis.
    pub open spec fn rooted(self, hash: H256) -> bool {
        self.pool.contains(hash) ==> match self.pool.map[hash].spec_parent_hash() {
            Some(parent) => known(self.pool, self.store, parent),
            None => true,
        }
    }

    /// Keeping the orphans that extend the canonical tip and are not
    /// written keeps the disconnected tips sound, where the parent of each
    /// of them is known.
    pub proof fn lemma_keep_tips_leaves(
        self,
        entries: Seq<(H256, u64)>,
        from: int,
        written: Option<H256>,
        working: Seq<H256>,
    )
        requires
            self.leaves_ok(None),
            forall|i: int| 0 <= i < entries.len() ==> self.rooted((#[trigger] entries[i]).0),
        ensures
            self.keep_tips(entries, from, written, working).0.leaves_ok(None),
        decreases entries.len() - from,
    {
        if 0 <= from < entries.len() {
            let hash = entries[from].0;
            if written == Some(hash) {
                self.lemma_keep_tips_leaves(entries, from + 1, written, working);
            } else {
                let next = self.keep_tip(hash);
                assert(self.rooted(entries[from].0));
                self.lemma_make_valid_tips_leaves(hash, None);
                self.lemma_make_valid_tips_base(hash);
                assert forall|i: int| 0 <= i < entries.len() implies next.rooted(
                    (#[trigger] entries[i]).0,
                ) by {
                    assert(self.rooted(entries[i].0));
                }
                next.lemma_keep_tips_leaves(
                    entries,
                    from + 1,
                    written,
                    crate::tip_sets::with_tip(working, hash),
                );
            }
        }
    }

    /// What holds with fewer exemptions holds with more.
    pub proof fn lemma_leaves_weaken(self, exempt: H256)
        requires
            self.leaves_ok(None),
        ensures
            self.leaves_ok(Some(exempt)),
    {
    }

    /// The exemption of an orphan ends once it has a standing, has a head
    /// where it stands as a disconnected tip, and does not stand as one
    /// where it has a child in the pool.
    pub proof fn lemma_leaves_settle(self, hash: H256)
        requires
            self.leaves_ok(Some(hash)),
            self.pool.contains(hash),
            self.validations.map.contains_key(hash),
            is_tip(self.validations, hash) ==> self.tips.map.contains_key(hash),
            forall|c: H256|
                #[trigger] self.pool.contains(c) && self.pool.map[c].spec_parent_hash() == Some(
                    hash,
                ) ==> !is_tip(self.validations, hash),
        ensures
            self.leaves_ok(None),
    {
    }

    /// Turning a disconnected sub-tree into a valid one keeps the
    /// disconnected tips sound, where the parent of its head is known.
    pub proof fn lemma_make_valid_tips_leaves(self, head: H256, exempt: Option<H256>)
        requires
            self.leaves_ok(exempt),
            self.pool.contains(head) ==> match self.pool.map[head].spec_parent_hash() {
                Some(parent) => known(self.pool, self.store, parent) || exempt == Some(parent),
                None => true,
            },
        ensures
            self.make_valid_tips(head).leaves_ok(exempt),
    {
        if self.heads.contains(head) {
            let cut = ChainState {
                heads: self.heads.remove(head),
                heads_heights: self.heads_heights.remove(head),
                ..self
            };
            assert(cut.leaves_ok(exempt)) by {
                assert forall|c: H256|
                    #[trigger] cut.pool.contains(c) implies cut.leaf_ok(exempt, c) by {
                    assert(self.pool.contains(c));
                }
            }
            cut.lemma_promote_tips_fades(self.heads.map[head], 0, None, true);
            cut.lemma_fades_keep_leaves(self.make_valid_tips(head), exempt);
        }
    }

    /// Offering a valid tip to the disconnected sub-trees keeps the
    /// disconnected tips sound.
    pub proof fn lemma_attempt_attach_valid_leaves(self, tip: Arc<B>, exempt: Option<H256>)
        requires
            self.leaves_ok(exempt),
            self.pool.contains(tip.spec_hash()) || exempt == Some(tip.spec_hash()),
        ensures
            self.attempt_attach_valid(tip).leaves_ok(exempt),
    {
        match self.attached_head(tip.spec_hash()) {
            Some(head) => {
                self.lemma_tallest_follower_follows(tip.spec_hash(), 0, None);
                assert(self.follows(head, tip.spec_hash()));
                self.lemma_make_valid_tips_leaves(head, exempt);
                let promoted = self.make_valid_tips(head);
                promoted.lemma_recurse_inverse_fades(self.attach_valid_tip(tip), 0, true);
                promoted.lemma_fades_keep_leaves(
                    promoted.recurse_inverse(self.attach_valid_tip(tip), 0, true),
                    exempt,
                );
            },
            None => {
                self.lemma_recurse_inverse_fades(tip, 0, true);
                self.lemma_fades_keep_leaves(self.recurse_inverse(tip, 0, true), exempt);
            },
        }
    }

    /// Offering a valid tip to the disconnected sub-trees loses no
    /// standing and makes nothing a disconnected tip.
    pub proof fn lemma_attempt_attach_valid_tipless(self, tip: Arc<B>)
        ensures
            forall|x: H256|
                self.validations.map.contains_key(x) ==> #[trigger] self.attempt_attach_valid(
                    tip,
                ).validations.map.contains_key(x),
            forall|x: H256| #[trigger]
                is_tip(self.attempt_attach_valid(tip).validations, x) ==> is_tip(
                    self.validations,
                    x,
                ),
    {
        match self.attached_head(tip.spec_hash()) {
            Some(head) => {
                let promoted = self.make_valid_tips(head);
                if self.heads.contains(head) {
                    let cut = ChainState {
                        heads: self.heads.remove(head),
                        heads_heights: self.heads_heights.remove(head),
                        ..self
                    };
                    cut.lemma_promote_tips_fades(self.heads.map[head], 0, None, true);
                }
                promoted.lemma_recurse_inverse_fades(self.attach_valid_tip(tip), 0, true);
                let after = promoted.recurse_inverse(self.attach_valid_tip(tip), 0, true);
                assert forall|x: H256|
                    self.validations.map.contains_key(
                        x,
                    ) implies #[trigger] after.validations.map.contains_key(x) by {
                    assert(promoted.validations.map.contains_key(x));
                }
                assert forall|x: H256| #[trigger] is_tip(after.validations, x) implies is_tip(
                    self.validations,
                    x,
                ) by {
                    assert(is_tip(promoted.validations, x));
                }
            },
            None => {
                self.lemma_recurse_inverse_fades(tip, 0, true);
            },
        }
    }

    /// Fusing the sub-tree of a head that follows a block into the
    /// sub-tree that the block belongs to keeps the disconnected tips
    /// sound.
    pub proof fn lemma_attach_head_leaves(
        self,
        our_head: H256,
        head: H256,
        tip: H256,
        steps: nat,
        exempt: Option<H256>,
    )
        requires
            self.forest_ok(),
            self.leaves_ok(exempt),
            self.heads.map.contains_key(our_head),
            reaches(self.pool, tip, our_head, steps),
            self.follows(head, tip),
            head != our_head,
            our_head != tip || exempt == Some(our_head),
        ensures
            self.attach_head(our_head, head).leaves_ok(exempt),
    {
        if self.heads.contains(head) {
            let list = self.heads.map[head];
            let heads1 = self.heads.remove(head);
            let heads2 = crate::tip_sets::sets_remove_tip(heads1, our_head, our_head);
            let cleared = ChainState {
                heads: heads2,
                heads_heights: self.heads_heights.remove(head),
                tips: self.tips.remove(our_head),
                ..self
            };
            crate::tip_sets::lemma_without_tip(self.heads.map[our_head], our_head);
            assert(heads2.map[our_head] == crate::tip_sets::without_tip(
                self.heads.map[our_head],
                our_head,
            ));
            cleared.lemma_merge_tips_effect(our_head, list, 0);
            cleared.lemma_merge_tips_plain(our_head, list, 0);
            cleared.lemma_merge_tips_base(our_head, list, 0);
            let merged = cleared.merge_tips(our_head, list, 0);
            merged.lemma_recurse_tips_base(list, 0);
            merged.lemma_recurse_tips_plain(list, 0);
            let after = self.attach_head(our_head, head);
            assert(after == merged.recurse_tips(list, 0));
            assert(after.pool == self.pool);
            assert(after.store == self.store);
            assert(after.validations == self.validations);
            assert(after.heads == merged.heads);
            assert(after.tips == merged.tips);
            if our_head != tip {
                lemma_reaches_child(self.pool, tip, our_head, steps);
                let c = choose|c: H256| #[trigger]
                    self.pool.contains(c) && self.pool.map[c].spec_parent_hash() == Some(our_head)
                        && self.pool.contains(our_head);
                assert(self.pool.contains(c));
            }
            assert forall|c: H256|
                #[trigger] after.pool.contains(c) implies after.leaf_ok(exempt, c) by {
                assert(self.pool.contains(c));
                if self.heads.map.contains_key(c) && c != head {
                    assert(cleared.heads.map.contains_key(c));
                    assert(merged.heads.map.contains_key(c));
                }
            }
            assert forall|x: H256|
                #[trigger] after.pool.contains(x) && exempt != Some(x) && is_tip(
                    after.validations,
                    x,
                ) implies after.tips.map.contains_key(x) by {
                assert(self.pool.contains(x));
                assert(self.tips.map.contains_key(x));
                if x != our_head {
                    assert(cleared.tips.map.contains_key(x));
                    assert(merged.tips.map.contains_key(x));
                }
            }
        }
    }

    /// Fusing several sub-trees whose heads follow a block keeps the
    /// disconnected tips sound.
    pub proof fn lemma_attach_heads_leaves(
        self,
        our_head: H256,
        heads: Seq<H256>,
        from: int,
        tip: H256,
        steps: nat,
        exempt: Option<H256>,
    )
        requires
            0 <= from,
            self.forest_ok(),
            self.leaves_ok(exempt),
            self.heads.map.contains_key(our_head),
            reaches(self.pool, tip, our_head, steps),
            forall|i: int|
                0 <= i < heads.len() ==> self.follows(#[trigger] heads[i], tip) && heads[i]
                    != our_head,
            our_head != tip || exempt == Some(our_head),
        ensures
            self.attach_heads(our_head, heads, from).leaves_ok(exempt),
        decreases heads.len() - from,
    {
        if from < heads.len() {
            self.lemma_attach_head_leaves(our_head, heads[from], tip, steps, exempt);
            self.lemma_attach_head_forest(our_head, heads[from], tip, steps);
            let next = self.attach_head(our_head, heads[from]);
            assert forall|i: int| 0 <= i < heads.len() implies next.follows(
                #[trigger] heads[i],
                tip,
            ) && heads[i] != our_head by {
                assert(self.follows(heads[i], tip));
            }
            next.lemma_attach_heads_leaves(our_head, heads, from + 1, tip, steps, exempt);
        }
    }

    /// Attaching the sub-trees that follow a disconnected tip keeps the
    /// disconnected tips sound.
    pub proof fn lemma_attempt_attach_leaves(self, tip: H256, exempt: Option<H256>)
        requires
            self.forest_ok(),
            self.leaves_ok(exempt),
            self.tips.map.contains_key(tip) ==> self.tips.map[tip] != tip || exempt == Some(tip),
        ensures
            self.attempt_attach(tip).leaves_ok(exempt),
    {
        match self.tips.get(tip) {
            Some(our_head) => {
                assert(self.tips.map.contains_key(tip));
                let n = choose|n: nat| reaches(self.pool, tip, our_head, n);
                self.lemma_attachable(tip, our_head, self.heads.order.len() as int);
                self.lemma_attach_heads_leaves(
                    our_head,
                    self.attached_heads(tip),
                    0,
                    tip,
                    n,
                    exempt,
                );
            },
            None => {},
        }
    }

    /// Every head that follows the tip and is not the head of the tip is
    /// listed by `attachable`.
    pub proof fn lemma_attachable_complete(self, tip: H256, our_head: H256, upto: int, head: H256)
        requires
            0 <= upto <= self.heads.order.len(),
            exists|i: int| 0 <= i < upto && #[trigger] self.heads.order[i] == head,
            head != our_head,
            head != tip,
            self.follows(head, tip),
        ensures
            self.attachable(tip, our_head, upto).contains(head),
        decreases upto,
    {
        let i = choose|i: int| 0 <= i < upto && #[trigger] self.heads.order[i] == head;
        let before = self.attachable(tip, our_head, upto - 1);
        let list = self.attachable(tip, our_head, upto);
        if i == upto - 1 {
            assert(list == before.push(head));
            assert(list[before.len() as int] == head);
        } else {
            assert(0 <= i < upto - 1 && self.heads.order[i] == head);
            self.lemma_attachable_complete(tip, our_head, upto - 1, head);
            let j = choose|j: int| 0 <= j < before.len() && before[j] == head;
            assert(list[j] == head);
        }
    }

    /// Putting a block into the pool keeps the disconnected tips sound
    /// but for the block itself, where the parent of the block is known
    /// or the block is a head, and the parent is no disconnected tip.
    pub proof fn lemma_with_orphan_leaves(self, orphan: Arc<B>, standing: OrphanType, inverse: u64)
        requires
            self.leaves_ok(Some(orphan.spec_hash())),
            match orphan.spec_parent_hash() {
                Some(parent) => {
                    &&& known(self.pool, self.store, parent) || self.heads.map.contains_key(
                        orphan.spec_hash(),
                    )
                    &&& self.pool.contains(parent) ==> self.validations.map.contains_key(parent)
                        && !is_tip(self.validations, parent)
                },
                None => true,
            },
        ensures
            self.with_orphan(orphan, standing, inverse).leaves_ok(Some(orphan.spec_hash())),
    {
        let after = self.with_orphan(orphan, standing, inverse);
        let hash = orphan.spec_hash();
        assert forall|c: H256|
            #[trigger] after.pool.contains(c) implies after.leaf_ok(Some(hash), c) by {
            if c != hash {
                assert(self.pool.contains(c));
            }
        }
        assert forall|x: H256|
            #[trigger] after.pool.contains(x) && Some(hash) != Some(x) && is_tip(
                after.validations,
                x,
            ) implies after.tips.map.contains_key(x) by {
            assert(self.pool.contains(x));
            assert(is_tip(self.validations, x));
        }
    }

    /// Writing a block keeps the disconnected tips sound.
    pub proof fn lemma_write_block_leaves(self, block: Arc<B>)
        requires
            self.leaves_ok(None),
        ensures
            self.write_block(block).leaves_ok(None),
    {
        let hash = block.spec_hash();
        let height = (self.height + 1) as u64;
        let heights = crate::heights::levels_remove(self.heights, block.spec_height(), hash);
        let written = self.written(block);
        assert(written.leaves_ok(None)) by {
            assert forall|c: H256|
                #[trigger] written.pool.contains(c) implies written.leaf_ok(None, c) by {
                assert(self.pool.contains(c));
            }
            assert forall|x: H256|
                #[trigger] written.pool.contains(x) && is_tip(
                    written.validations,
                    x,
                ) implies written.tips.map.contains_key(x) by {
                assert(self.pool.contains(x));
            }
        }
        if self.heads.contains(hash) {
            written.lemma_promote_tips_fades(self.heads.map[hash], 0, Some(hash), false);
            written.lemma_fades_keep_leaves(self.write_block(block), None);
        }
    }

    /// Moving canonical blocks to the pool keeps the disconnected tips
    /// sound.
    pub proof fn lemma_unwind_leaves(self, path: Seq<Arc<B>>, from: int)
        requires
            self.leaves_ok(None),
            0 <= from <= path.len() <= u64::MAX,
            forall|i: int|
                from <= i < path.len() ==> (#[trigger] path[i]).spec_parent_hash().is_some(),
            forall|i: int|
                from <= i < path.len() ==> !self.pool.contains(
                    (#[trigger] path[i]).spec_parent_hash().unwrap(),
                ),
            forall|i: int|
                from <= i < path.len() ==> known(
                    self.pool,
                    self.store,
                    (#[trigger] path[i]).spec_parent_hash().unwrap(),
                ),
            forall|i: int, j: int|
                from <= i < path.len() && from <= j < path.len() ==> (
                #[trigger] path[i]).spec_parent_hash().unwrap() != (#[trigger] path[j]).spec_hash()
                    || i < j,
        ensures
            self.unwind(path, from).leaves_ok(None),
        decreases path.len() - from,
    {
        if from < path.len() {
            let block = path[from];
            let hash = block.spec_hash();
            let next = self.unwind_block(block, from as u64);
            assert(next.leaves_ok(None)) by {
                assert forall|c: H256|
                    #[trigger] next.pool.contains(c) implies next.leaf_ok(None, c) by {
                    if c == hash {
                        let parent = block.spec_parent_hash().unwrap();
                        assert(known(self.pool, self.store, parent));
                        assert(!self.pool.contains(parent));
                        assert(parent != hash) by {
                            if parent == hash {
                                assert(path[from].spec_parent_hash().unwrap()
                                    != path[from].spec_hash() || from < from);
                            }
                        }
                    } else {
                        assert(self.pool.contains(c));
                    }
                }
                assert forall|x: H256|
                    #[trigger] next.pool.contains(x) && is_tip(
                        next.validations,
                        x,
                    ) implies next.tips.map.contains_key(x) by {
                    if x != hash {
                        assert(self.pool.contains(x));
                    }
                }
            }
            assert forall|i: int| from + 1 <= i < path.len() implies !next.pool.contains(
                (#[trigger] path[i]).spec_parent_hash().unwrap(),
            ) && known(next.pool, next.store, path[i].spec_parent_hash().unwrap()) by {
                let parent = path[i].spec_parent_hash().unwrap();
                assert(path[i].spec_parent_hash().unwrap() != path[from].spec_hash() || i < from);
                assert(parent != hash);
                assert(known(self.pool, self.store, parent));
            }
            next.lemma_unwind_leaves(path, from + 1);
        }
    }

    /// Everything that holds of a chain after every call, as long as the
    /// blocks that come in agree with each other.
    pub open spec fn all_ok(self) -> bool {
        &&& self.deep_ok()
        &&& self.leaves_ok(None)
    }

    /// Rewinding keeps the chain sound.
    pub proof fn lemma_rewind_all(self, target: H256)
        requires
            block_type_sound::<B>(),
            self.all_ok(),
            self.can_rewind(target),
        ensures
            self.rewind(target).all_ok(),
    {
        self.lemma_rewind_deep(target);
        if self.tip.spec_hash() != target {
            let path = self.descent(self.tip, target, Seq::empty()).unwrap();
            assert(self.is_stored(target));
            if self.height == 0 {
                assert(false);
            }
            self.lemma_descent(self.tip, target, Seq::empty());
            assert forall|i: int| 0 <= i < path.len() implies {
                &&& (#[trigger] path[i]).spec_parent_hash().is_some()
                &&& !self.pool.contains(path[i].spec_parent_hash().unwrap())
                &&& known(self.pool, self.store, path[i].spec_parent_hash().unwrap())
            } by {
                let hash = path[i].spec_hash();
                assert(self.stored(hash) == Some(path[i]));
                assert(self.is_stored(hash));
                assert(self.link_ok(hash));
                let parent = path[i].spec_parent_hash().unwrap();
                if path[i].spec_height() != 1 {
                    assert(self.is_stored(parent));
                } else {
                    if self.pool.contains(parent) {
                    }
                }
            }
            assert forall|i: int, j: int|
                0 <= i < path.len() && 0 <= j < path.len() implies (
            #[trigger] path[i]).spec_parent_hash().unwrap() != (#[trigger] path[j]).spec_hash() || i
                < j by {
                let parent = path[i].spec_parent_hash().unwrap();
                if parent == path[j].spec_hash() {
                    assert(self.stored(path[i].spec_hash()) == Some(path[i]));
                    assert(self.is_stored(path[i].spec_hash()));
                    assert(self.link_ok(path[i].spec_hash()));
                    assert(self.stored(path[j].spec_hash()) == Some(path[j]));
                    assert(self.is_stored(path[j].spec_hash()));
                }
            }
            self.lemma_unwind_leaves(path, 0);
        }
    }

    /// Writing an orphan that extends the tip keeps the chain sound.
    pub proof fn lemma_write_orphan_all(self, block: Arc<B>)
        requires
            block_type_sound::<B>(),
            self.all_ok(),
            self.extends_tip(block),
            self.pool.contains(block.spec_hash()),
            self.pool.map[block.spec_hash()] == block,
        ensures
            self.write_block(block).all_ok(),
    {
        self.lemma_write_orphan_deep(block);
        self.lemma_write_block_leaves(block);
    }

    /// Writing a branch of orphans keeps the chain sound.
    pub proof fn lemma_replay_all(self, branch: Seq<Arc<B>>, count: int)
        requires
            block_type_sound::<B>(),
            self.all_ok(),
            self.branch_in_pool(branch, count),
        ensures
            self.replay(branch, count).all_ok(),
        decreases count,
    {
        if 0 < count <= branch.len() && self.extends_tip(branch[count - 1]) {
            let block = branch[count - 1];
            assert(self.pool.contains(block.spec_hash()));
            self.lemma_write_orphan_all(block);
            self.lemma_write_block_ledger(block);
            let written = self.write_block(block);
            assert(written.branch_in_pool(branch, count - 1)) by {
                assert forall|i: int| 0 <= i < count - 1 implies written.pool.contains(
                    (#[trigger] branch[i]).spec_hash(),
                ) && written.pool.map[branch[i].spec_hash()] == branch[i] by {
                    assert(branch[i].spec_hash() != branch[count - 1].spec_hash());
                    assert(self.pool.contains(branch[i].spec_hash()));
                }
            }
            written.lemma_replay_all(branch, count - 1);
        }
    }

    /// Offering the canonical chain a branch keeps the chain sound.
    pub proof fn lemma_attempt_switch_all(self, candidate: Arc<B>)
        requires
            block_type_sound::<B>(),
            self.all_ok(),
            self.pool.contains(candidate.spec_hash()),
            self.pool.map[candidate.spec_hash()] == candidate,
        ensures
            self.attempt_switch(candidate).all_ok(),
    {
        if self.switches_to(candidate) {
            let (branch, horizon) = self.branch(candidate, Seq::empty()).unwrap();
            self.lemma_branch(candidate, Seq::empty());
            self.lemma_rewind_ledger(horizon);
            self.lemma_rewind_all(horizon);
            let rewound = self.rewind(horizon);
            assert(rewound.branch_in_pool(branch, branch.len() as int)) by {
                assert forall|i: int| 0 <= i < branch.len() implies self.pool.contains(
                    (#[trigger] branch[i]).spec_hash(),
                ) && self.pool.map[branch[i].spec_hash()] == branch[i] by {}
                assert forall|i: int, j: int| 0 <= i < j < branch.len() implies (
                #[trigger] branch[i]).spec_hash() != (#[trigger] branch[j]).spec_hash() by {
                    assert(branch[i].spec_height() != branch[j].spec_height());
                    assert(self.pool.map[branch[i].spec_hash()] == branch[i]);
                    assert(self.pool.map[branch[j].spec_hash()] == branch[j]);
                }
            }
            rewound.lemma_replay_all(branch, branch.len() as int);
        }
    }

    /// Writing an orphan where it extends the tip keeps the chain sound.
    pub proof fn lemma_write_orphan_block_all(self, hash: H256)
        requires
            block_type_sound::<B>(),
            self.all_ok(),
        ensures
            self.write_orphan_block(hash).all_ok(),
    {
        if self.orphan_extends_tip(hash) {
            let block = self.pool.map[hash];
            assert(block.spec_hash() == hash);
            self.lemma_write_orphan_all(block);
        }
    }

    /// The drain at one height keeps the chain sound.
    pub proof fn lemma_drain_level_all(
        self,
        entries: Seq<(H256, u64)>,
        done: bool,
        working: Seq<H256>,
    )
        requires
            block_type_sound::<B>(),
            self.all_ok(),
        ensures
            self.drain_level(entries, done, working).0.all_ok(),
    {
        self.lemma_drain_level_deep(entries, done, working);
        if entries.len() == 1 {
            self.lemma_write_orphan_block_all(entries[0].0);
        } else if entries.len() == 0 {
        } else {
            let buf = self.followers(entries, entries.len() as int);
            let (linked, set) = self.relink(entries, 0, working);
            self.lemma_relink_base(entries, 0, working);
            self.lemma_base_keeps_ledger(linked);
            self.lemma_same_forest(linked);
            self.lemma_base_keeps_links(linked);
            self.lemma_same_tallest(linked);
            self.lemma_relink_fades(entries, 0, working);
            self.lemma_fades_keep_leaves(linked, None);
            if buf.len() == 0 {
            } else {
                let winner = if done {
                    None
                } else {
                    Some(buf[deepest(buf, buf.len() as int)].0)
                };
                let written = match winner {
                    Some(hash) => linked.write_orphan_block(hash),
                    None => linked,
                };
                match winner {
                    Some(hash) => {
                        linked.lemma_write_orphan_block_all(hash);
                    },
                    None => {},
                }
                self.lemma_followers(entries, entries.len() as int);
                match winner {
                    Some(hash) => {
                        if linked.orphan_extends_tip(hash) {
                            assert(linked.pool.map[hash].spec_hash() == hash);
                            linked.lemma_write_block_store(linked.pool.map[hash]);
                            linked.lemma_write_block_ledger(linked.pool.map[hash]);
                        }
                    },
                    None => {},
                }
                assert forall|i: int| 0 <= i < buf.len() implies written.rooted(
                    (#[trigger] buf[i]).0,
                ) by {
                    let h = buf[i].0;
                    assert(self.orphan_extends_tip(h));
                    if written.pool.contains(h) {
                        assert(linked.pool.contains(h));
                        assert(written.pool.map[h] == self.pool.map[h]);
                        if self.height > 0 {
                            assert(self.is_stored(self.tip.spec_hash()));
                            assert(linked.is_stored(self.tip.spec_hash()));
                            assert(written.is_stored(self.tip.spec_hash()));
                        }
                    }
                }
                written.lemma_keep_tips_leaves(buf, 0, winner, set);
            }
        }
    }

    /// The drain keeps the chain sound.
    pub proof fn lemma_drain_all(self, height: u64, max: u64, done: bool, working: Seq<H256>)
        requires
            block_type_sound::<B>(),
            self.all_ok(),
        ensures
            self.drain(height, max, done, working).all_ok(),
        decreases max - height, (if done { 0int } else { 1int }),
    {
        if height <= max {
            let (next, set, step) = if self.heights.contains_key(height) {
                self.drain_level(level_seq(self.heights[height]), done, working)
            } else {
                (self, working, DrainStep::Advance)
            };
            if self.heights.contains_key(height) {
                self.lemma_drain_level_all(level_seq(self.heights[height]), done, working);
            }
            match step {
                DrainStep::Stop => {},
                DrainStep::Advance => {
                    if height < max {
                        next.lemma_drain_all((height + 1) as u64, max, done, set);
                    }
                },
                DrainStep::AdvanceDone => {
                    if height < max {
                        next.lemma_drain_all((height + 1) as u64, max, true, set);
                    }
                },
                DrainStep::Repeat => {
                    if !done {
                        next.lemma_drain_all(height, max, true, set);
                    }
                },
            }
        }
    }

    /// A new block that is not known is not the parent of itself, of no
    /// stored block's key, and every orphan that names it as its parent
    /// is a head.
    pub proof fn lemma_children_are_heads(self, block: Arc<B>, child: H256)
        requires
            block_type_sound::<B>(),
            self.all_ok(),
            !self.knows(block.spec_hash()),
            block.spec_height() >= 1,
            self.pool.contains(child),
            self.pool.map[child].spec_parent_hash() == Some(block.spec_hash()),
            crate::chain::ledger::apart(block),
        ensures
            self.heads.map.contains_key(child),
    {
        let hash = block.spec_hash();
        if hash == B::spec_genesis().spec_hash() {
            assert(block == B::spec_genesis());
        }
        assert(!known(self.pool, self.store, hash));
    }

    /// Taking in a fork of the canonical chain keeps the chain sound.
    pub proof fn lemma_append_fork_all(self, block: Arc<B>)
        requires
            block_type_sound::<B>(),
            self.all_ok(),
            !self.knows(block.spec_hash()),
            block.spec_height() >= 1,
            self.fits(block),
            block.spec_parent_hash().is_some(),
            self.store.contains_key(StoreKey::Block(block.spec_parent_hash().unwrap())),
            crate::chain::ledger::apart(block),
        ensures
            self.append_fork(block).all_ok(),
    {
        let hash = block.spec_hash();
        let parent = block.spec_parent_hash().unwrap();
        self.lemma_append_fork_deep(block);
        let written = self.with_orphan(block, OrphanType::ValidChainTip, 0);
        self.lemma_with_orphan_deep(block, OrphanType::ValidChainTip, 0);
        self.lemma_leaves_weaken(hash);
        assert(self.is_stored(parent));
        assert(!self.pool.contains(parent));
        self.lemma_with_orphan_leaves(block, OrphanType::ValidChainTip, 0);
        written.lemma_leaves_settle(hash);
        written.lemma_attempt_attach_valid_deep(block);
        written.lemma_attempt_attach_valid_leaves(block, None);
        written.lemma_attach_valid_tip(block);
        let attached = written.attempt_attach_valid(block);
        let standing = written.attach_valid_standing(block);
        let settled = attached.settle_valid(hash, standing);
        assert(attached.fades(settled));
        attached.lemma_fades_keep_leaves(settled, None);
        attached.lemma_settle_valid_deep(hash, standing);
        if standing != OrphanType::ValidChainTip {
            settled.lemma_attempt_switch_all(written.attach_valid_tip(block));
        }
    }

    /// Where an orphan names a block as its parent, the block takes in
    /// the sub-tree of that orphan once it stands as a tip with the head
    /// `our_head`.
    pub proof fn lemma_child_is_attached(self, tip: H256, our_head: H256, child: H256)
        requires
            self.forest_ok(),
            self.links_ok(),
            self.tallest_ok(),
            self.tips.map.contains_key(tip),
            self.tips.map[tip] == our_head,
            self.heads.map.contains_key(child),
            self.pool.contains(child),
            self.pool.map[child].spec_parent_hash() == Some(tip),
            child != tip,
        ensures
            self.attached_heads(tip).len() > 0,
    {
        let n = choose|n: nat| reaches(self.pool, tip, our_head, n);
        lemma_reaches_height(self.pool, self.store, tip, our_head, n);
        assert(link_fits(self.pool, self.store, self.pool.map[child]));
        assert(child != our_head);
        assert(self.heads.order.contains(child));
        let i = choose|i: int| 0 <= i < self.heads.order.len() && self.heads.order[i] == child;
        assert(self.heads.order[i] == child);
        self.lemma_attachable_complete(tip, our_head, self.heads.order.len() as int, child);
    }

    /// What follows once a block stands as a tip in the sub-tree of a head
    /// keeps the chain sound, where the block is exempt before.
    pub proof fn lemma_settle_disconnected_all(self, block: Arc<B>, head: H256, again: bool)
        requires
            block_type_sound::<B>(),
            self.deep_ok(),
            self.leaves_ok(Some(block.spec_hash())),
            self.tips.map.contains_key(block.spec_hash()),
            self.tips.map[block.spec_hash()] == head,
            head != block.spec_hash(),
            self.pool.contains(block.spec_hash()),
            self.pool.map[block.spec_hash()] == block,
            self.validations.map.contains_key(block.spec_hash()),
            forall|c: H256|
                #[trigger] self.pool.contains(c) && self.pool.map[c].spec_parent_hash() == Some(
                    block.spec_hash(),
                ) ==> self.heads.map.contains_key(c) && c != block.spec_hash(),
        ensures
            self.settle_disconnected(block, head, again).all_ok(),
    {
        let hash = block.spec_hash();
        let after = self.settle_disconnected(block, head, again);
        self.lemma_settle_disconnected_deep(block, head, again);
        let standing = self.attach_standing(hash, OrphanType::DisconnectedTip);
        let attached = self.attempt_attach(hash);
        self.lemma_attempt_attach_leaves(hash, Some(hash));
        self.lemma_attempt_attach_forest(hash);
        self.lemma_attempt_attach_plain(hash);
        self.lemma_attempt_attach_base(hash);
        if standing == OrphanType::DisconnectedTip {
            let tipped = if again {
                ChainState { tips: attached.tips.insert(hash, head), ..attached }
            } else {
                attached
            };
            assert(tipped.leaves_ok(Some(hash)));
            tipped.lemma_recurse_inverse_fades(block, 0, false);
            tipped.lemma_fades_keep_leaves(after, Some(hash));
            tipped.lemma_recurse_inverse_base(block, 0, false);
            assert(after.tips.map.contains_key(hash));
            assert forall|c: H256|
                #[trigger] after.pool.contains(c) && after.pool.map[c].spec_parent_hash() == Some(
                    hash,
                ) implies !is_tip(after.validations, hash) by {
                assert(self.pool.contains(c));
                self.lemma_child_is_attached(hash, head, c);
            }
            after.lemma_leaves_settle(hash);
        } else {
            assert forall|c: H256|
                #[trigger] after.pool.contains(c) implies after.leaf_ok(None, c) by {
                assert(attached.pool.contains(c));
            }
            assert forall|x: H256|
                #[trigger] after.pool.contains(x) && is_tip(
                    after.validations,
                    x,
                ) implies after.tips.map.contains_key(x) by {
                assert(attached.pool.contains(x));
                assert(x != hash);
                assert(is_tip(attached.validations, x));
            }
        }
    }

    /// Taking in a block whose parent is a disconnected tip keeps the
    /// chain sound.
    pub proof fn lemma_append_to_disconnected_tip_all(self, block: Arc<B>, parent: H256)
        requires
            block_type_sound::<B>(),
            self.all_ok(),
            !self.knows(block.spec_hash()),
            block.spec_height() >= 1,
            self.fits(block),
            block.spec_parent_hash() == Some(parent),
            self.pool.contains(parent),
            self.tip_on_record(parent),
            crate::chain::ledger::apart(block),
        ensures
            self.append_to_disconnected_tip(block, parent).all_ok(),
    {
        let hash = block.spec_hash();
        let head = self.tips.map[parent];
        let largest = self.heads_heights.map[head].0;
        let replaced = ChainState {
            validations: self.validations.insert(parent, OrphanType::BelongsToDisconnected),
            heads: sets_add_tip(sets_remove_tip(self.heads, head, parent), head, hash),
            tips: self.tips.remove(parent),
            heads_heights: if block.spec_height() > largest {
                self.heads_heights.insert(head, (block.spec_height(), hash))
            } else {
                self.heads_heights
            },
            ..self
        };
        let written = replaced.with_orphan(block, OrphanType::DisconnectedTip, 0);
        let tipped = ChainState { tips: written.tips.insert(hash, head), ..written };
        // as far as the other invariants go
        self.lemma_base_keeps_ledger(replaced);
        replaced.lemma_with_orphan_ledger(block, OrphanType::DisconnectedTip, 0);
        written.lemma_base_keeps_ledger(tipped);
        crate::chain::forest::lemma_forest_replace_tip(
            self.pool,
            self.heads,
            self.tips,
            hash,
            block,
            parent,
        );
        assert(tipped.pool == self.pool.insert(hash, block));
        assert(tipped.forest_ok());
        self.lemma_insert_links(block, tipped.pool);
        assert(self.heads.map.contains_key(head));
        assert(link_fits(self.pool, self.store, block));
        crate::chain::tallest::lemma_tallest_replace_tip(
            self.pool,
            self.heads,
            self.heads_heights,
            hash,
            block,
            parent,
            head,
        );
        assert(tipped.tallest_ok());
        assert(head != hash) by {
            assert(self.pool.contains(head));
        }
        // the disconnected tips
        assert(tipped.leaves_ok(Some(hash))) by {
            assert forall|c: H256|
                #[trigger] tipped.pool.contains(c) implies tipped.leaf_ok(Some(hash), c) by {
                if c != hash {
                    assert(self.pool.contains(c));
                }
            }
            assert forall|x: H256|
                #[trigger] tipped.pool.contains(x) && Some(hash) != Some(x) && is_tip(
                    tipped.validations,
                    x,
                ) implies tipped.tips.map.contains_key(x) by {
                assert(self.pool.contains(x));
                assert(x != parent);
                assert(is_tip(self.validations, x));
            }
        }
        assert forall|c: H256|
            #[trigger] tipped.pool.contains(c) && tipped.pool.map[c].spec_parent_hash() == Some(
                hash,
            ) implies tipped.heads.map.contains_key(c) && c != hash by {
            assert(c != hash);
            assert(self.pool.contains(c));
            self.lemma_children_are_heads(block, c);
        }
        tipped.lemma_settle_disconnected_all(block, head, false);
    }

    /// Taking in a block whose parent lies inside a disconnected sub-tree
    /// keeps the chain sound.
    pub proof fn lemma_append_to_disconnected_all(self, block: Arc<B>, parent: H256)
        requires
            block_type_sound::<B>(),
            self.all_ok(),
            !self.knows(block.spec_hash()),
            block.spec_height() >= 1,
            self.fits(block),
            block.spec_parent_hash() == Some(parent),
            self.pool.contains(parent),
            self.validations.map.contains_key(parent),
            self.validations.map[parent] == OrphanType::BelongsToDisconnected,
            self.head_above(parent, block.spec_height()).is_some(),
            crate::chain::ledger::apart(block),
        ensures
            self.append_to_disconnected(
                block,
                self.head_above(parent, block.spec_height()).unwrap(),
            ).all_ok(),
    {
        let hash = block.spec_hash();
        let head = self.head_above(parent, block.spec_height()).unwrap();
        self.lemma_head_above(parent, block.spec_height());
        let n = choose|n: nat| reaches(self.pool, parent, head, n);
        let written = self.with_orphan(block, OrphanType::DisconnectedTip, 0);
        let tipped = ChainState {
            heads: sets_add_tip(written.heads, head, hash),
            tips: written.tips.insert(hash, head),
            ..written
        };
        self.lemma_with_orphan_ledger(block, OrphanType::DisconnectedTip, 0);
        written.lemma_base_keeps_ledger(tipped);
        crate::chain::forest::lemma_forest_add_tip(
            self.pool,
            self.heads,
            self.tips,
            hash,
            block,
            parent,
            head,
            n,
        );
        assert(tipped.forest_ok());
        self.lemma_insert_links(block, tipped.pool);
        crate::chain::tallest::lemma_tallest_add_tip(
            self.pool,
            self.heads,
            self.heads_heights,
            hash,
            block,
            head,
        );
        assert(tipped.tallest_ok());
        assert(head != hash) by {
            assert(self.pool.contains(head));
        }
        self.lemma_leaves_weaken(hash);
        self.lemma_with_orphan_leaves(block, OrphanType::DisconnectedTip, 0);
        assert(tipped.leaves_ok(Some(hash))) by {
            assert forall|c: H256|
                #[trigger] tipped.pool.contains(c) implies tipped.leaf_ok(Some(hash), c) by {
                assert(written.pool.contains(c));
            }
        }
        assert forall|c: H256|
            #[trigger] tipped.pool.contains(c) && tipped.pool.map[c].spec_parent_hash() == Some(
                hash,
            ) implies tipped.heads.map.contains_key(c) && c != hash by {
            assert(c != hash);
            assert(self.pool.contains(c));
            self.lemma_children_are_heads(block, c);
        }
        tipped.lemma_settle_disconnected_all(block, head, true);
    }

    /// Taking in a block whose parent is the tip of a valid chain keeps
    /// the chain sound.
    pub proof fn lemma_append_to_valid_tip_all(self, block: Arc<B>, parent: H256)
        requires
            block_type_sound::<B>(),
            self.all_ok(),
            !self.knows(block.spec_hash()),
            block.spec_height() >= 1,
            self.fits(block),
            block.spec_parent_hash() == Some(parent),
            self.pool.contains(parent),
            crate::chain::ledger::apart(block),
        ensures
            self.append_to_valid_tip(block, parent).all_ok(),
    {
        let hash = block.spec_hash();
        self.lemma_append_to_valid_tip_deep(block, parent);
        let marked = self.mark(parent, OrphanType::BelongsToValidChain);
        assert(self.fades(marked));
        self.lemma_fades_keep_leaves(marked, None);
        self.lemma_frames_keep_deep(marked);
        marked.lemma_leaves_weaken(hash);
        marked.lemma_with_orphan_leaves(block, OrphanType::ValidChainTip, 0);
        marked.lemma_with_orphan_deep(block, OrphanType::ValidChainTip, 0);
        let written = marked.with_orphan(block, OrphanType::ValidChainTip, 0);
        written.lemma_leaves_settle(hash);
        let tip = written.attach_valid_tip(block);
        let inverse = written.attach_valid_inverse(block);
        written.lemma_attach_valid_tip(block);
        written.lemma_attempt_attach_valid_deep(block);
        written.lemma_attempt_attach_valid_leaves(block, None);
        let attached = written.attempt_attach_valid(block);
        attached.lemma_recurse_inverse_deep(block, inverse, inverse == 0);
        attached.lemma_recurse_inverse_fades(block, inverse, inverse == 0);
        let lifted = attached.recurse_inverse(block, inverse, inverse == 0);
        attached.lemma_fades_keep_leaves(lifted, None);
        attached.lemma_recurse_inverse_base(block, inverse, inverse == 0);
        let tipped = lifted.settle_valid(hash, written.attach_valid_standing(block));
        assert(lifted.fades(tipped));
        lifted.lemma_fades_keep_leaves(tipped, None);
        lifted.lemma_settle_valid_deep(hash, written.attach_valid_standing(block));
        tipped.lemma_attempt_switch_all(tip);
    }

    /// Taking in a block whose parent lies inside a valid chain keeps the
    /// chain sound.
    pub proof fn lemma_append_to_valid_all(self, block: Arc<B>, parent: H256)
        requires
            block_type_sound::<B>(),
            self.all_ok(),
            !self.knows(block.spec_hash()),
            block.spec_height() >= 1,
            self.fits(block),
            block.spec_parent_hash() == Some(parent),
            self.pool.contains(parent),
            self.validations.map.contains_key(parent),
            self.validations.map[parent] == OrphanType::BelongsToValidChain,
            crate::chain::ledger::apart(block),
        ensures
            self.append_to_valid(block).all_ok(),
    {
        let hash = block.spec_hash();
        let tipped = ChainState { valid_tips: self.valid_tips.insert(hash, ()), ..self };
        self.lemma_base_keeps_ledger(tipped);
        self.lemma_same_forest(tipped);
        self.lemma_base_keeps_links(tipped);
        self.lemma_same_tallest(tipped);
        assert(self.fades(tipped));
        self.lemma_fades_keep_leaves(tipped, None);
        tipped.lemma_leaves_weaken(hash);
        let tip = tipped.attach_valid_tip(block);
        let inverse = tipped.attach_valid_inverse(block);
        let standing = tipped.attach_valid_standing(block);
        tipped.lemma_attach_valid_tip(block);
        tipped.lemma_attempt_attach_valid_deep(block);
        tipped.lemma_attempt_attach_valid_leaves(block, Some(hash));
        let attached = tipped.attempt_attach_valid(block);
        assert(attached.fits(block)) by {
            assert(attached.pool == self.pool && attached.store == self.store);
        }
        attached.lemma_with_orphan_deep(block, standing, inverse);
        assert(attached.pool.contains(parent));
        assert(attached.validations.map.contains_key(parent) && !is_tip(
            attached.validations,
            parent,
        )) by {
            tipped.lemma_attempt_attach_valid_tipless(block);
            assert(tipped.validations.map.contains_key(parent));
            if is_tip(attached.validations, parent) {
                assert(is_tip(tipped.validations, parent));
            }
        }
        attached.lemma_with_orphan_leaves(block, standing, inverse);
        let written = attached.with_orphan(block, standing, inverse);
        written.lemma_leaves_settle(hash);
        written.lemma_recurse_inverse_deep(tip, inverse, inverse == 0);
        written.lemma_recurse_inverse_fades(tip, inverse, inverse == 0);
        let lifted = written.recurse_inverse(tip, inverse, inverse == 0);
        written.lemma_fades_keep_leaves(lifted, None);
        written.lemma_recurse_inverse_base(tip, inverse, inverse == 0);
        assert(lifted.pool.contains(tip.spec_hash()) && lifted.pool.map[tip.spec_hash()] == tip)
            by {
            if tip != block {
                assert(self.pool.contains(tip.spec_hash()));
                assert(tip.spec_hash() != hash);
            }
        }
        let settled = lifted.settle_valid(hash, standing);
        assert(lifted.fades(settled));
        lifted.lemma_fades_keep_leaves(settled, None);
        lifted.lemma_settle_valid_deep(hash, standing);
        settled.lemma_attempt_switch_all(tip);
    }

    /// Taking in a block whose parent is unknown keeps the chain sound.
    pub proof fn lemma_append_disconnected_all(self, block: Arc<B>, parent: H256)
        requires
            block_type_sound::<B>(),
            self.all_ok(),
            !self.knows(block.spec_hash()),
            block.spec_height() >= 1,
            self.fits(block),
            block.spec_parent_hash() == Some(parent),
            !self.pool.contains(parent),
            crate::chain::ledger::apart(block),
        ensures
            self.append_disconnected(block, parent).all_ok(),
    {
        let hash = block.spec_hash();
        self.lemma_append_disconnected_deep(block, parent);
        let seeded = ChainState {
            heads: self.heads.insert(hash, seq![hash]),
            tips: self.tips.insert(hash, hash),
            heads_heights: self.heads_heights.insert(hash, (block.spec_height(), hash)),
            heights: crate::heights::levels_put(self.heights, block.spec_height(), hash, 0),
            pool: self.pool.insert(hash, block),
            ..self
        };
        crate::chain::forest::lemma_forest_seed(self.pool, self.heads, self.tips, hash, block);
        self.lemma_insert_links(block, seeded.pool);
        crate::chain::tallest::lemma_tallest_seed(
            self.pool,
            self.heads,
            self.heads_heights,
            hash,
            block,
        );
        assert(seeded.leaves_ok(Some(hash))) by {
            assert forall|c: H256|
                #[trigger] seeded.pool.contains(c) implies seeded.leaf_ok(Some(hash), c) by {
                if c != hash {
                    assert(self.pool.contains(c));
                }
            }
            assert forall|x: H256|
                #[trigger] seeded.pool.contains(x) && Some(hash) != Some(x) && is_tip(
                    seeded.validations,
                    x,
                ) implies seeded.tips.map.contains_key(x) by {
                assert(self.pool.contains(x));
            }
        }
        let standing = seeded.attach_standing(hash, OrphanType::DisconnectedTip);
        let attached = seeded.attempt_attach(hash);
        seeded.lemma_attempt_attach_leaves(hash, Some(hash));
        seeded.lemma_attempt_attach_base(hash);
        seeded.lemma_attempt_attach_plain(hash);
        seeded.lemma_attempt_attach_forest(hash);
        // the seeded state is sound as far as attaching needs it
        assert(seeded.ledger_ok()) by {
            assert forall|h: H256| #[trigger] seeded.pool.contains(h)
                implies seeded.pool.map[h].spec_hash()
                == h && seeded.pool.map[h].spec_height() >= 1 by {
                if h != hash {
                    assert(self.pool.contains(h));
                }
            }
            assert forall|h: H256| #[trigger] seeded.is_stored(h) implies {
                &&& seeded.stored(h).is_some()
                &&& 1 <= seeded.stored(h).unwrap().spec_height() <= seeded.height
                &&& seeded.link_ok(h)
                &&& !seeded.pool.contains(h)
            } by {
                assert(self.is_stored(h));
            }
            assert forall|h1: H256, h2: H256|
                #![trigger seeded.is_stored(h1), seeded.is_stored(h2)]
                seeded.is_stored(h1) && seeded.is_stored(h2) && seeded.stored(
                    h1,
                ).unwrap().spec_height() == seeded.stored(h2).unwrap().spec_height() implies h1
                == h2 by {
                assert(self.is_stored(h1) && self.is_stored(h2));
            }
        }
        seeded.lemma_attempt_attach_tallest(hash);
        assert(attached.heads.map.contains_key(hash));
        attached.lemma_with_orphan_leaves(block, standing, 0);
        let written = attached.with_orphan(block, standing, 0);
        assert(written.tips == attached.tips);
        assert forall|c: H256|
            #[trigger] written.pool.contains(c) && written.pool.map[c].spec_parent_hash() == Some(
                hash,
            ) implies !is_tip(written.validations, hash) by {
            assert(c != hash);
            assert(self.pool.contains(c));
            self.lemma_children_are_heads(block, c);
            assert(seeded.heads.map.contains_key(c));
            seeded.lemma_child_is_attached(hash, hash, c);
        }
        if is_tip(written.validations, hash) {
            assert(attached == seeded);
        }
        written.lemma_leaves_settle(hash);
        assert(parent != hash);
        seeded.lemma_base_keeps_ledger(attached);
        attached.lemma_no_matching_valid_tip(parent, 0);
    }

    /// Taking in a block that agrees with what is known keeps the chain
    /// sound.
    pub proof fn lemma_append_block_all(self, block: Arc<B>)
        requires
            block_type_sound::<B>(),
            self.all_ok(),
            self.fits(block),
            self.append_error(block).is_none(),
            crate::chain::ledger::apart(block),
        ensures
            self.append_block(block).all_ok(),
    {
        let parent = block.spec_parent_hash().unwrap();
        assert(!self.knows(block.spec_hash()));
        assert(block.spec_height() >= 1);
        if parent == self.tip.spec_hash() {
            self.lemma_write_new_deep(block);
            self.lemma_write_block_leaves(block);
            let written = self.write_block(block);
            if block.spec_height() < u64::MAX {
                match written.max_orphan_height {
                    Some(max) => {
                        written.lemma_drain_all(
                            (block.spec_height() + 1) as u64,
                            max,
                            false,
                            Seq::empty(),
                        );
                    },
                    None => {},
                }
            }
        } else if self.store.contains_key(StoreKey::Block(parent)) {
            self.lemma_append_fork_all(block);
        } else if self.pool.contains(parent) {
            match self.validations.map[parent] {
                OrphanType::DisconnectedTip => {
                    self.lemma_append_to_disconnected_tip_all(block, parent);
                },
                OrphanType::ValidChainTip => {
                    self.lemma_append_to_valid_tip_all(block, parent);
                },
                OrphanType::BelongsToDisconnected => {
                    self.lemma_append_to_disconnected_all(block, parent);
                },
                OrphanType::BelongsToValidChain => {
                    self.lemma_append_to_valid_all(block, parent);
                },
            }
        } else {
            self.lemma_append_disconnected_all(block, parent);
        }
    }
}

} // verus!
