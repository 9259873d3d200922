//! What holds of a chain after any sequence of calls.
use crate::block::Block;
use crate::chain::ledger::{apart, block_type_sound};
use crate::chain::levels::{level_len, recorded, tops};
use crate::chain::present::paired;
use crate::chain::state::ChainState;
use crate::hash::H256;
use crate::orphan_type::OrphanType;
use crate::store::StoreKey;
use std::sync::Arc;
use vstd::prelude::*;

verus! {

/// A call that changes a chain.
pub enum Call<B> {
    /// `append_block` with this block.
    Append(Arc<B>),
    /// `rewind` to this hash.
    Rewind(H256),
}

impl<B: Block> ChainState<B> {
    /// The state of a chain that was started on an empty store.
    pub open spec fn fresh() -> Self {
        Self::loaded(Map::empty())
    }

    /// The state after `call`. A call that fails changes nothing.
    pub open spec fn after_call(self, call: Call<B>) -> Self {
        match call {
            Call::Append(block) => if self.append_error(block).is_none() {
                self.append_block(block)
            } else {
                self
            },
            Call::Rewind(target) => if self.can_rewind(target) {
                self.rewind(target)
            } else {
                self
            },
        }
    }

    /// The state after `calls`, first call first.
    pub open spec fn after_calls(self, calls: Seq<Call<B>>) -> Self
        decreases calls.len(),
    {
        if calls.len() == 0 {
            self
        } else {
            self.after_calls(calls.drop_last()).after_call(calls.last())
        }
    }

    /// The canonical chain, the levels and the disconnected sub-trees are
    /// sound, every orphan has a standing, and the valid tips are the
    /// orphans that stand as tips of valid chains.
    pub open spec fn sound(self) -> bool {
        &&& self.ledger_ok()
        &&& self.levels_ok()
        &&& self.forest_ok()
        &&& self.present_ok(None)
    }

    /// Whether each block that `calls` append agrees with what is known at
    /// the time: it is not its own parent, it is one higher than its
    /// parent, where the parent is known, and every orphan that names it
    /// as its parent is one higher than it.
    pub open spec fn calls_fit(self, calls: Seq<Call<B>>) -> bool
        decreases calls.len(),
    {
        if calls.len() == 0 {
            true
        } else {
            &&& self.calls_fit(calls.drop_last())
            &&& match calls.last() {
                Call::Append(block) => self.after_calls(calls.drop_last()).fits(block),
                Call::Rewind(_) => true,
            }
        }
    }

    /// Whether the hash of each block that `calls` append tells it apart
    /// from genesis.
    pub open spec fn calls_apart(calls: Seq<Call<B>>) -> bool {
        forall|i: int|
            0 <= i < calls.len() ==> match #[trigger] calls[i] {
                Call::Append(block) => apart(block),
                Call::Rewind(_) => true,
            }
    }

    /// A chain that was started on an empty store is sound throughout.
    pub proof fn lemma_fresh_all()
        requires
            block_type_sound::<B>(),
        ensures
            Self::fresh().all_ok(),
    {
        Self::lemma_fresh_sound();
        let s = Self::fresh();
        assert(s.heads.order.no_duplicates());
        assert(s.heads_heights.order.no_duplicates());
        assert forall|k: H256| !(#[trigger] s.heads.order.contains(k)) by {}
        assert forall|k: H256| !(#[trigger] s.heads_heights.order.contains(k)) by {}
    }

    /// Any sequence of calls whose blocks agree with what is known keeps
    /// a chain sound throughout.
    pub proof fn lemma_calls_keep_all(self, calls: Seq<Call<B>>)
        requires
            block_type_sound::<B>(),
            self.all_ok(),
            self.calls_fit(calls),
            Self::calls_apart(calls),
        ensures
            self.after_calls(calls).all_ok(),
        decreases calls.len(),
    {
        if calls.len() > 0 {
            assert forall|i: int| 0 <= i < calls.drop_last().len() implies match #[trigger] calls.drop_last()[i] {
                Call::Append(block) => apart(block),
                Call::Rewind(_) => true,
            } by {
                assert(calls.drop_last()[i] == calls[i]);
            }
            assert(calls.last() == calls[calls.len() - 1]);
            self.lemma_calls_keep_all(calls.drop_last());
            let before = self.after_calls(calls.drop_last());
            match calls.last() {
                Call::Append(block) => {
                    if before.append_error(block).is_none() {
                        before.lemma_append_block_all(block);
                    }
                },
                Call::Rewind(target) => {
                    if before.can_rewind(target) {
                        before.lemma_rewind_all(target);
                    }
                },
            }
        }
    }

    /// A chain that was started on an empty store is sound.
    pub proof fn lemma_fresh_sound()
        requires
            block_type_sound::<B>(),
        ensures
            Self::fresh().sound(),
    {
        let s = Self::fresh();
        assert forall|h: H256| !(#[trigger] s.is_stored(h)) by {}
        assert forall|h: u64| level_len(s.heights, h) == 0 by {}
    }

    /// A call keeps a sound chain sound.
    pub proof fn lemma_call_keeps_sound(self, call: Call<B>)
        requires
            block_type_sound::<B>(),
            self.sound(),
            match call {
                Call::Append(block) => apart(block),
                Call::Rewind(_) => true,
            },
        ensures
            self.after_call(call).sound(),
    {
        match call {
            Call::Append(block) => {
                if self.append_error(block).is_none() {
                    self.lemma_append_block_ledger(block);
                    self.lemma_append_block_levels(block);
                    self.lemma_append_block_forest(block);
                    self.lemma_append_block_present(block);
                }
            },
            Call::Rewind(target) => {
                if self.can_rewind(target) {
                    self.lemma_rewind_ledger(target);
                    self.lemma_rewind_levels(target);
                    self.lemma_rewind_forest(target);
                    self.lemma_rewind_present(target);
                }
            },
        }
    }

    /// Any sequence of calls keeps a sound chain sound.
    pub proof fn lemma_calls_keep_sound(self, calls: Seq<Call<B>>)
        requires
            block_type_sound::<B>(),
            self.sound(),
            Self::calls_apart(calls),
        ensures
            self.after_calls(calls).sound(),
        decreases calls.len(),
    {
        if calls.len() > 0 {
            assert forall|i: int| 0 <= i < calls.drop_last().len() implies match #[trigger] calls.drop_last()[i] {
                Call::Append(block) => apart(block),
                Call::Rewind(_) => true,
            } by {
                assert(calls.drop_last()[i] == calls[i]);
            }
            assert(calls.last() == calls[calls.len() - 1]);
            self.lemma_calls_keep_sound(calls.drop_last());
            self.after_calls(calls.drop_last()).lemma_call_keeps_sound(calls.last());
        }
    }
}

/// After any sequence of calls on a chain that was started on an empty
/// store, the height on record is the height of the canonical tip.
pub proof fn law_height_is_tip_height<B: Block>(calls: Seq<Call<B>>)
    requires
        block_type_sound::<B>(),
        ChainState::<B>::calls_apart(calls),
    ensures
        ChainState::<B>::fresh().after_calls(calls).tip.spec_height()
            == ChainState::<B>::fresh().after_calls(
            calls,
        ).height,
{
    ChainState::<B>::lemma_fresh_sound();
    ChainState::<B>::fresh().lemma_calls_keep_sound(calls);
}

/// After any sequence of calls on a chain that was started on an empty
/// store, the store names the canonical height, and above height 0 the
/// hash of the canonical tip: so it does after a rewind, also after one to
/// the canonical tip itself.
pub proof fn law_store_names_height_and_tip<B: Block>(calls: Seq<Call<B>>)
    requires
        block_type_sound::<B>(),
        ChainState::<B>::calls_apart(calls),
    ensures
        ({
            let s = ChainState::<B>::fresh().after_calls(calls);
            &&& s.store.contains_key(StoreKey::Height)
            &&& s.store[StoreKey::Height] == crate::codec::be_bytes(s.height)
            &&& s.height > 0 ==> s.store.contains_key(StoreKey::Tip) && s.store[StoreKey::Tip]
                == s.tip.spec_hash().0@
        }),
{
    ChainState::<B>::lemma_fresh_sound();
    ChainState::<B>::fresh().lemma_calls_keep_sound(calls);
}

/// After any sequence of calls on a chain that was started on an empty
/// store, taking in a block does not lower the canonical height.
pub proof fn law_append_never_lowers_the_height<B: Block>(calls: Seq<Call<B>>, block: Arc<B>)
    requires
        block_type_sound::<B>(),
        ChainState::<B>::calls_apart(calls),
        apart(block),
        ChainState::<B>::fresh().after_calls(calls).append_error(block).is_none(),
    ensures
        ChainState::<B>::fresh().after_calls(calls).append_block(block).height
            >= ChainState::<B>::fresh().after_calls(calls).height,
{
    ChainState::<B>::lemma_fresh_sound();
    ChainState::<B>::fresh().lemma_calls_keep_sound(calls);
    ChainState::<B>::fresh().after_calls(calls).lemma_append_block_ledger(block);
}

/// A block that a chain takes in, in whatever state the chain is, is a
/// canonical block or an orphan afterwards.
pub proof fn law_appended_block_is_known<B: Block>(state: ChainState<B>, block: Arc<B>)
    requires
        state.append_error(block).is_none(),
    ensures
        state.append_block(block).store.contains_key(StoreKey::Block(block.spec_hash()))
            || state.append_block(block).pool.contains(block.spec_hash()),
{
    state.lemma_append_block_known(block);
}

/// No call makes a chain, in whatever state it is, forget a block: what
/// was a canonical block or an orphan before the call is one of the two
/// after it.
pub proof fn law_no_block_is_forgotten<B: Block>(state: ChainState<B>, call: Call<B>, hash: H256)
    requires
        state.store.contains_key(StoreKey::Block(hash)) || state.pool.contains(hash),
    ensures
        state.after_call(call).store.contains_key(StoreKey::Block(hash)) || state.after_call(
            call,
        ).pool.contains(hash),
{
    assert(state.knows(hash));
    match call {
        Call::Append(block) => {
            if state.append_error(block).is_none() {
                state.lemma_append_block_known(block);
                assert(state.append_block(block).knows(hash));
            }
        },
        Call::Rewind(target) => {
            if state.can_rewind(target) {
                state.lemma_rewind_known(target);
                assert(state.rewind(target).knows(hash));
            }
        },
    }
}

/// After any sequence of calls on a chain that was started on an empty
/// store, no hash is stored and in the orphan pool at once.
pub proof fn law_stored_is_no_orphan<B: Block>(calls: Seq<Call<B>>, hash: H256)
    requires
        block_type_sound::<B>(),
        ChainState::<B>::calls_apart(calls),
    ensures
        !(ChainState::<B>::fresh().after_calls(calls).store.contains_key(StoreKey::Block(hash))
            && ChainState::<B>::fresh().after_calls(calls).pool.contains(hash)),
{
    ChainState::<B>::lemma_fresh_sound();
    ChainState::<B>::fresh().lemma_calls_keep_sound(calls);
    let s = ChainState::<B>::fresh().after_calls(calls);
    if s.is_stored(hash) {
    }
}

/// After any sequence of calls on a chain that was started on an empty
/// store, what the store holds under a hash is a block with that hash and
/// a height from 1 to the canonical height, and its parent is the stored
/// block one below it, or genesis for a block of height 1.
pub proof fn law_parent_of_stored_is_stored<B: Block>(calls: Seq<Call<B>>, hash: H256)
    requires
        block_type_sound::<B>(),
        ChainState::<B>::calls_apart(calls),
        ChainState::<B>::fresh().after_calls(calls).store.contains_key(StoreKey::Block(hash)),
    ensures
        ({
            let s = ChainState::<B>::fresh().after_calls(calls);
            &&& s.stored(hash).is_some()
            &&& 1 <= s.stored(hash).unwrap().spec_height() <= s.height
            &&& s.stored(hash).unwrap().spec_parent_hash().is_some()
            &&& ({
                let block = s.stored(hash).unwrap();
                let parent = block.spec_parent_hash().unwrap();
                if block.spec_height() == 1 {
                    parent == B::spec_genesis().spec_hash()
                } else {
                    &&& s.store.contains_key(StoreKey::Block(parent))
                    &&& s.stored(parent).is_some()
                    &&& s.stored(parent).unwrap().spec_height() + 1 == block.spec_height()
                }
            })
        }),
{
    ChainState::<B>::lemma_fresh_sound();
    ChainState::<B>::fresh().lemma_calls_keep_sound(calls);
    let s = ChainState::<B>::fresh().after_calls(calls);
    assert(s.is_stored(hash));
    assert(s.link_ok(hash));
}

/// After any sequence of calls on a chain that was started on an empty
/// store, the greatest orphan height is the greatest height at which an
/// orphan is recorded, and it is `None` if and only if no orphan is
/// recorded at any height.
pub proof fn law_max_orphan_height<B: Block>(calls: Seq<Call<B>>)
    requires
        block_type_sound::<B>(),
        ChainState::<B>::calls_apart(calls),
    ensures
        tops(
            ChainState::<B>::fresh().after_calls(calls).heights,
            ChainState::<B>::fresh().after_calls(calls).max_orphan_height,
        ),
{
    ChainState::<B>::lemma_fresh_sound();
    ChainState::<B>::fresh().lemma_calls_keep_sound(calls);
}

/// After any sequence of calls on a chain that was started on an empty
/// store, a hash is recorded at a height if and only if it is the hash of
/// an orphan of that height: every orphan is recorded at its own height
/// and at no other.
pub proof fn law_orphans_are_recorded_at_their_height<B: Block>(
    calls: Seq<Call<B>>,
    hash: H256,
    height: u64,
)
    requires
        block_type_sound::<B>(),
        ChainState::<B>::calls_apart(calls),
    ensures
        ({
            let s = ChainState::<B>::fresh().after_calls(calls);
            recorded(s.heights, height, hash) <==> (s.pool.contains(hash)
                && s.pool.map[hash].spec_height() == height)
        }),
{
    ChainState::<B>::lemma_fresh_sound();
    ChainState::<B>::fresh().lemma_calls_keep_sound(calls);
    let s = ChainState::<B>::fresh().after_calls(calls);
    if s.pool.contains(hash) {
        assert(recorded(s.heights, s.pool.map[hash].spec_height(), hash));
    }
    if recorded(s.heights, height, hash) {
    }
}

/// After any sequence of calls on a chain that was started on an empty
/// store, the map from heads to tips and the map from tips to heads are
/// inverses of each other: a disconnected tip has the head `head` if and
/// only if `head` is a head and has the tip among its tips.
pub proof fn law_heads_and_tips_are_inverses<B: Block>(calls: Seq<Call<B>>, tip: H256, head: H256)
    requires
        block_type_sound::<B>(),
        ChainState::<B>::calls_apart(calls),
    ensures
        ({
            let s = ChainState::<B>::fresh().after_calls(calls);
            (s.tips.map.contains_key(tip) && s.tips.map[tip] == head) <==> (
            s.heads.map.contains_key(head) && s.heads.map[head].contains(tip))
        }),
{
    ChainState::<B>::lemma_fresh_sound();
    ChainState::<B>::fresh().lemma_calls_keep_sound(calls);
    let s = ChainState::<B>::fresh().after_calls(calls);
    if s.tips.map.contains_key(tip) {
    }
}

/// After any sequence of calls on a chain that was started on an empty
/// store, a hash is a valid tip if and only if it is the hash of an orphan
/// that stands as the tip of a valid chain.
pub proof fn law_valid_tips_are_the_tips_of_valid_chains<B: Block>(calls: Seq<Call<B>>, hash: H256)
    requires
        block_type_sound::<B>(),
        ChainState::<B>::calls_apart(calls),
    ensures
        ({
            let s = ChainState::<B>::fresh().after_calls(calls);
            s.valid_tips.map.contains_key(hash) <==> (s.pool.contains(hash)
                && s.validations.map.contains_key(hash) && s.validations.map[hash]
                == OrphanType::ValidChainTip)
        }),
{
    ChainState::<B>::lemma_fresh_sound();
    ChainState::<B>::fresh().lemma_calls_keep_sound(calls);
    let s = ChainState::<B>::fresh().after_calls(calls);
    assert(paired(s.validations, s.valid_tips, hash));
    if s.valid_tips.map.contains_key(hash) {
    }
}

/// After any sequence of calls on a chain that was started on an empty
/// store, in which each appended block agrees in height with what is known
/// when it comes, an orphan that stands as a disconnected tip has a head
/// on record, which is a head and has the orphan among its tips.
pub proof fn law_disconnected_tips_have_a_head<B: Block>(calls: Seq<Call<B>>, hash: H256)
    requires
        block_type_sound::<B>(),
        ChainState::<B>::calls_apart(calls),
        ChainState::<B>::fresh().calls_fit(calls),
        ChainState::<B>::fresh().after_calls(calls).pool.contains(hash),
        ChainState::<B>::fresh().after_calls(calls).validations.map.contains_key(hash),
        ChainState::<B>::fresh().after_calls(calls).validations.map[hash]
            == OrphanType::DisconnectedTip,
    ensures
        ({
            let s = ChainState::<B>::fresh().after_calls(calls);
            &&& s.tips.map.contains_key(hash)
            &&& s.heads.map.contains_key(s.tips.map[hash])
            &&& s.heads.map[s.tips.map[hash]].contains(hash)
        }),
{
    ChainState::<B>::lemma_fresh_all();
    ChainState::<B>::fresh().lemma_calls_keep_all(calls);
    let s = ChainState::<B>::fresh().after_calls(calls);
    assert(crate::chain::leaves::is_tip(s.validations, hash));
    assert(s.tips.map.contains_key(hash));
}

/// After any sequence of calls on a chain that was started on an empty
/// store, in which each appended block agrees in height with what is known
/// when it comes, no orphan that has a child in the pool stands as a
/// disconnected tip, and every orphan whose parent is neither an orphan
/// nor stored nor genesis is a head.
pub proof fn law_disconnected_tips_are_leaves<B: Block>(calls: Seq<Call<B>>, child: H256)
    requires
        block_type_sound::<B>(),
        ChainState::<B>::calls_apart(calls),
        ChainState::<B>::fresh().calls_fit(calls),
        ChainState::<B>::fresh().after_calls(calls).pool.contains(child),
        ChainState::<B>::fresh().after_calls(calls).pool.map[child].spec_parent_hash().is_some(),
    ensures
        ({
            let s = ChainState::<B>::fresh().after_calls(calls);
            let parent = s.pool.map[child].spec_parent_hash().unwrap();
            &&& s.pool.contains(parent) ==> s.validations.map.contains_key(parent)
                && s.validations.map[parent] != OrphanType::DisconnectedTip
            &&& !s.pool.contains(parent) && !s.store.contains_key(StoreKey::Block(parent))
                && parent != B::spec_genesis().spec_hash() ==> s.heads.map.contains_key(child)
        }),
{
    ChainState::<B>::lemma_fresh_all();
    ChainState::<B>::fresh().lemma_calls_keep_all(calls);
}

/// After any sequence of calls on a chain that was started on an empty
/// store, every orphan has a standing on record.
pub proof fn law_orphans_have_a_standing<B: Block>(calls: Seq<Call<B>>, hash: H256)
    requires
        block_type_sound::<B>(),
        ChainState::<B>::calls_apart(calls),
        ChainState::<B>::fresh().after_calls(calls).pool.contains(hash),
    ensures
        ChainState::<B>::fresh().after_calls(calls).validations.map.contains_key(hash),
{
    ChainState::<B>::lemma_fresh_sound();
    ChainState::<B>::fresh().lemma_calls_keep_sound(calls);
}

/// After any sequence of calls on a chain that was started on an empty
/// store, in which each appended block agrees in height with what is known
/// when it comes, the tallest tip on record for a head is an orphan of the
/// height on record and one of the tips of that head.
pub proof fn law_tallest_tip_is_a_tip<B: Block>(calls: Seq<Call<B>>, head: H256)
    requires
        block_type_sound::<B>(),
        ChainState::<B>::calls_apart(calls),
        ChainState::<B>::fresh().calls_fit(calls),
        ChainState::<B>::fresh().after_calls(calls).heads.map.contains_key(head),
    ensures
        ({
            let s = ChainState::<B>::fresh().after_calls(calls);
            &&& s.heads_heights.map.contains_key(head)
            &&& s.pool.contains(s.heads_heights.map[head].1)
            &&& s.pool.map[s.heads_heights.map[head].1].spec_height() == s.heads_heights.map[head].0
            &&& s.heads.map[head].contains(s.heads_heights.map[head].1)
        }),
{
    ChainState::<B>::lemma_fresh_all();
    ChainState::<B>::fresh().lemma_calls_keep_all(calls);
    let s = ChainState::<B>::fresh().after_calls(calls);
    assert(crate::chain::tallest::tallest_at(s.pool, s.heads, s.heads_heights, head, None));
}

} // verus!
