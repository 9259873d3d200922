//! The dictionary in which the canonical chain is kept.
use crate::hash::H256;
use crate::ordered_map::OrderedMap;
use vstd::prelude::*;

verus! {

/// The keys under which the engine keeps bytes.
#[derive(Clone, Copy, Debug)]
pub enum StoreKey {
    /// The hash of the canonical tip, as 32 bytes.
    Tip,
    /// The canonical height, as eight bytes, most significant first.
    Height,
    /// The encoding of the canonical block with this hash.
    Block(H256),
    /// The height of the canonical block with this hash, as eight bytes,
    /// most significant first.
    BlockHeight(H256),
}

/// A dictionary from keys to byte strings.
pub struct Store {
    tip: Option<Vec<u8>>,
    height: Option<Vec<u8>>,
    blocks: OrderedMap<Vec<u8>>,
    block_heights: OrderedMap<Vec<u8>>,
}

impl View for Store {
    type V = Map<StoreKey, Seq<u8>>;

    closed spec fn view(&self) -> Map<StoreKey, Seq<u8>> {
        Map::new(
            |k: StoreKey|
                match k {
                    StoreKey::Tip => self.tip.is_some(),
                    StoreKey::Height => self.height.is_some(),
                    StoreKey::Block(h) => self.blocks@.map.contains_key(h),
                    StoreKey::BlockHeight(h) => self.block_heights@.map.contains_key(h),
                },
            |k: StoreKey|
                match k {
                    StoreKey::Tip => self.tip.unwrap()@,
                    StoreKey::Height => self.height.unwrap()@,
                    StoreKey::Block(h) => self.blocks@.map[h]@,
                    StoreKey::BlockHeight(h) => self.block_heights@.map[h]@,
                },
        )
    }
}

impl Store {
    /// The maps behind the store are sound.
    pub closed spec fn wf(&self) -> bool {
        &&& self.blocks.wf()
        &&& self.block_heights.wf()
    }

    /// A store that holds nothing.
    pub fn new() -> (store: Store)
        ensures
            store.wf(),
            store@ == Map::<StoreKey, Seq<u8>>::empty(),
    {
        let store = Store {
            tip: None,
            height: None,
            blocks: OrderedMap::new(),
            block_heights: OrderedMap::new(),
        };
        assert forall|k: StoreKey| !store@.contains_key(k) by {
            match k {
                StoreKey::Tip => {},
                StoreKey::Height => {},
                StoreKey::Block(h) => {
                    assert(!store.blocks@.map.contains_key(h));
                },
                StoreKey::BlockHeight(h) => {
                    assert(!store.block_heights@.map.contains_key(h));
                },
            }
        }
        assert(store@ =~= Map::empty());
        store
    }

    /// Whether the store keeps something under `key`.
    pub fn contains(&self, key: &StoreKey) -> (present: bool)
        ensures
            present == self@.contains_key(*key),
    {
        match key {
            StoreKey::Tip => self.tip.is_some(),
            StoreKey::Height => self.height.is_some(),
            StoreKey::Block(h) => self.blocks.contains_key(h),
            StoreKey::BlockHeight(h) => self.block_heights.contains_key(h),
        }
    }

    /// The bytes kept under `key`.
    pub fn get(&self, key: &StoreKey) -> (bytes: Option<&Vec<u8>>)
        requires
            self.wf(),
        ensures
            match bytes {
                Some(b) => self@.contains_key(*key) && b@ == self@[*key],
                None => !self@.contains_key(*key),
            },
    {
        match key {
            StoreKey::Tip => self.tip.as_ref(),
            StoreKey::Height => self.height.as_ref(),
            StoreKey::Block(h) => self.blocks.get(h),
            StoreKey::BlockHeight(h) => self.block_heights.get(h),
        }
    }

    /// The hashes of the blocks that the store holds, in the order in
    /// which they came.
    pub closed spec fn block_order(&self) -> Seq<H256> {
        self.blocks@.order
    }

    /// The hashes of the blocks that the store holds, in the order in
    /// which they came: each one once, and each one a hash under which the
    /// store holds a block.
    pub fn block_hashes(&self) -> (hashes: Vec<H256>)
        requires
            self.wf(),
        ensures
            hashes@ == self.block_order(),
            hashes@.no_duplicates(),
            forall|h: H256| hashes@.contains(h) <==> self@.contains_key(StoreKey::Block(h)),
    {
        let n = self.blocks.len();
        let mut hashes: Vec<H256> = Vec::with_capacity(n);
        let mut i: usize = 0;
        while i < n
            invariant
                self.wf(),
                n == self.blocks@.order.len(),
                i <= n,
                hashes@ == self.blocks@.order.take(i as int),
            decreases n - i,
        {
            hashes.push(self.blocks.key_at(i));
            assert(hashes@ =~= self.blocks@.order.take(i + 1));
            i += 1;
        }
        proof {
            assert(self.blocks@.order.take(n as int) =~= self.blocks@.order);
            self.blocks.lemma_wf();
            assert forall|h: H256| hashes@.contains(h) <==> self@.contains_key(
                StoreKey::Block(h),
            ) by {
                assert(self.blocks@.map.contains_key(h) <==> self.blocks@.order.contains(h));
            }
        }
        hashes
    }

    /// Keeps `bytes` under `key`, in place of what was there.
    pub fn put(&mut self, key: StoreKey, bytes: Vec<u8>)
        requires
            old(self).wf(),
        ensures
            final(self).wf(),
            final(self)@ == old(self)@.insert(key, bytes@),
    {
        let ghost before = *self;
        match key {
            StoreKey::Tip => {
                self.tip = Some(bytes);
            },
            StoreKey::Height => {
                self.height = Some(bytes);
            },
            StoreKey::Block(h) => {
                self.blocks.insert(h, bytes);
            },
            StoreKey::BlockHeight(h) => {
                self.block_heights.insert(h, bytes);
            },
        }
        assert(self@ =~= before@.insert(key, bytes@));
    }

    /// Drops what is kept under `key`.
    pub fn remove(&mut self, key: &StoreKey)
        requires
            old(self).wf(),
        ensures
            final(self).wf(),
            final(self)@ == old(self)@.remove(*key),
    {
        let ghost before = *self;
        match key {
            StoreKey::Tip => {
                self.tip = None;
            },
            StoreKey::Height => {
                self.height = None;
            },
            StoreKey::Block(h) => {
                self.blocks.remove(h);
            },
            StoreKey::BlockHeight(h) => {
                self.block_heights.remove(h);
            },
        }
        assert(self@ =~= before@.remove(*key));
    }
}

} // verus!
