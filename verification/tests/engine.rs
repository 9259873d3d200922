use chain::{Block, Chain, ChainErr, ChainRef, OrphanType, Store, StoreKey, H256};
use std::collections::HashSet;
use std::sync::Arc;

/// A block that holds nothing but its place in the tree. A block with
/// `sealed` set encodes to bytes that do not decode.
#[derive(Clone, Debug, PartialEq, Eq)]
struct TestBlock {
    hash: H256,
    parent_hash: Option<H256>,
    height: u64,
    sealed: bool,
}

fn hash_of(n: u64) -> H256 {
    let mut bytes = [0u8; 32];
    bytes[0] = 0xb1;
    bytes[24..].copy_from_slice(&n.to_be_bytes());
    H256(bytes)
}

fn block(n: u64, parent: H256, height: u64) -> Arc<TestBlock> {
    Arc::new(TestBlock { hash: hash_of(n), parent_hash: Some(parent), height, sealed: false })
}

impl Block for TestBlock {
    fn genesis() -> Arc<Self> {
        Arc::new(TestBlock {
            hash: H256::zero(),
            parent_hash: Some(H256::zero()),
            height: 0,
            sealed: false,
        })
    }

    fn parent_hash(&self) -> Option<H256> {
        self.parent_hash
    }

    fn block_hash(&self) -> H256 {
        self.hash
    }

    fn height(&self) -> u64 {
        self.height
    }

    fn after_write(_block: Arc<Self>) {}

    fn to_bytes(&self) -> Vec<u8> {
        if self.sealed {
            return vec![0xff];
        }
        let mut buf = Vec::new();
        buf.extend_from_slice(&self.height.to_be_bytes());
        buf.extend_from_slice(&self.hash.0);
        buf.extend_from_slice(&self.parent_hash.unwrap().0);
        buf
    }

    fn from_bytes(bytes: &[u8]) -> Result<Arc<Self>, &'static str> {
        if bytes.len() != 72 {
            return Err("bad length");
        }
        let mut height = [0u8; 8];
        let mut hash = [0u8; 32];
        let mut parent_hash = [0u8; 32];
        height.copy_from_slice(&bytes[..8]);
        hash.copy_from_slice(&bytes[8..40]);
        parent_hash.copy_from_slice(&bytes[40..]);
        Ok(Arc::new(TestBlock {
            height: u64::from_be_bytes(height),
            hash: H256(hash),
            parent_hash: Some(H256(parent_hash)),
            sealed: false,
        }))
    }
}

/// The tree of sixteen blocks: the chain `A..G` on genesis, the fork
/// `B'..E'` off `A`, the fork `C''..F''` off `B'`, and `D'''` off `C'`.
struct Tree {
    a: Arc<TestBlock>,
    b: Arc<TestBlock>,
    c: Arc<TestBlock>,
    d: Arc<TestBlock>,
    e: Arc<TestBlock>,
    f: Arc<TestBlock>,
    g: Arc<TestBlock>,
    b1: Arc<TestBlock>,
    c1: Arc<TestBlock>,
    d1: Arc<TestBlock>,
    e1: Arc<TestBlock>,
    c2: Arc<TestBlock>,
    d2: Arc<TestBlock>,
    e2: Arc<TestBlock>,
    f2: Arc<TestBlock>,
    d3: Arc<TestBlock>,
}

fn tree() -> Tree {
    let a = block(1, H256::zero(), 1);
    let b = block(2, a.hash, 2);
    let c = block(3, b.hash, 3);
    let d = block(4, c.hash, 4);
    let e = block(5, d.hash, 5);
    let f = block(6, e.hash, 6);
    let g = block(7, f.hash, 7);
    let b1 = block(8, a.hash, 2);
    let c1 = block(9, b1.hash, 3);
    let d1 = block(10, c1.hash, 4);
    let e1 = block(11, d1.hash, 5);
    let c2 = block(12, b1.hash, 3);
    let d2 = block(13, c2.hash, 4);
    let e2 = block(14, d2.hash, 5);
    let f2 = block(15, e2.hash, 6);
    let d3 = block(16, c1.hash, 4);
    Tree { a, b, c, d, e, f, g, b1, c1, d1, e1, c2, d2, e2, f2, d3 }
}

impl Tree {
    fn all(&self) -> Vec<Arc<TestBlock>> {
        vec![
            self.a.clone(),
            self.b.clone(),
            self.c.clone(),
            self.d.clone(),
            self.e.clone(),
            self.f.clone(),
            self.g.clone(),
            self.b1.clone(),
            self.c1.clone(),
            self.d1.clone(),
            self.e1.clone(),
            self.c2.clone(),
            self.d2.clone(),
            self.e2.clone(),
            self.f2.clone(),
            self.d3.clone(),
        ]
    }
}

fn fresh() -> Chain<TestBlock> {
    Chain::<TestBlock>::new(Store::new())
}

fn set_of(hashes: Vec<H256>) -> HashSet<H256> {
    hashes.into_iter().collect()
}

/// Asserts of `chain` what holds after every call. `known` are the blocks
/// that may have been appended.
fn check_invariants(chain: &Chain<TestBlock>, known: &[Arc<TestBlock>]) {
    // the height on record is that of the tip, and the store names both
    assert_eq!(chain.canonical_tip().height, chain.height());
    assert_eq!(
        chain.store().get(&StoreKey::Height),
        Some(&chain.height().to_be_bytes().to_vec())
    );
    if chain.height() > 0 {
        assert_eq!(
            chain.store().get(&StoreKey::Tip),
            Some(&chain.canonical_tip().hash.0.to_vec())
        );
    }
    let valid = set_of(chain.valid_tips());
    assert_eq!(valid.len(), chain.valid_tips().len());
    let mut highest = None;
    for b in known {
        let parent = b.parent_hash.unwrap();
        let stored = chain.query(&b.hash).is_some();
        let orphaned = chain.orphan(&b.hash).is_some();
        // no hash is stored and orphaned at once
        assert!(!(stored && orphaned));
        if stored {
            // the parent of a stored block is stored, or genesis
            assert!(1 <= b.height && b.height <= chain.height());
            if b.height == 1 {
                assert_eq!(parent, H256::zero());
            } else {
                assert_eq!(chain.query(&parent).unwrap().height + 1, b.height);
            }
            assert_eq!(chain.block_height(&b.hash), Some(b.height));
            assert_eq!(chain.query_by_height(b.height), Some(b.clone()));
        }
        if orphaned {
            // every orphan has a standing that agrees with the indexes
            let standing = chain.orphan_type(&b.hash);
            assert!(standing.is_some());
            assert_eq!(standing == Some(OrphanType::ValidChainTip), valid.contains(&b.hash));
            assert_eq!(
                standing == Some(OrphanType::DisconnectedTip),
                chain.disconnected_head(&b.hash).is_some()
            );
            if standing == Some(OrphanType::DisconnectedTip) {
                let head = chain.disconnected_head(&b.hash).unwrap();
                assert!(chain.disconnected_tips(&head).unwrap().contains(&b.hash));
            }
            if standing == Some(OrphanType::ValidChainTip)
                || standing == Some(OrphanType::BelongsToValidChain)
            {
                assert!(chain.disconnected_tips(&b.hash).is_none());
            }
            // an orphan is recorded at its own height and at no other
            assert!(chain.inverse_height(b.height, &b.hash).is_some());
            assert!(chain.inverse_height(b.height + 1, &b.hash).is_none());
            assert!(chain.inverse_height(b.height - 1, &b.hash).is_none());
            // a disconnected tip is a leaf, and an orphan whose parent is unknown is a head
            if chain.orphan(&parent).is_some() {
                let above = chain.orphan_type(&parent);
                assert!(above.is_some() && above != Some(OrphanType::DisconnectedTip));
            } else if chain.query(&parent).is_none() && parent != H256::zero() {
                assert!(chain.disconnected_tips(&b.hash).is_some());
            }
            if highest.map_or(true, |h| b.height > h) {
                highest = Some(b.height);
            }
        } else {
            assert!(chain.inverse_height(b.height, &b.hash).is_none());
            assert_eq!(chain.orphan_type(&b.hash), None);
            assert!(!valid.contains(&b.hash));
            assert!(chain.disconnected_head(&b.hash).is_none());
            assert!(chain.disconnected_tips(&b.hash).is_none());
        }
        // the map from tips to heads and the map from heads to tips are inverses
        if let Some(head) = chain.disconnected_head(&b.hash) {
            assert!(chain.disconnected_tips(&head).unwrap().contains(&b.hash));
        }
        if let Some(tips) = chain.disconnected_tips(&b.hash) {
            assert_eq!(set_of(tips.clone()).len(), tips.len());
            for tip in &tips {
                assert_eq!(chain.disconnected_head(tip), Some(b.hash));
            }
            // the tallest tip on record is a tip of the head, with its height
            let (height, tallest) = chain.largest_tip(&b.hash).unwrap();
            assert!(tips.contains(&tallest));
            assert_eq!(chain.orphan(&tallest).unwrap().height, height);
        } else {
            assert!(chain.largest_tip(&b.hash).is_none());
        }
    }
    // the greatest orphan height is the greatest height that holds an orphan
    assert_eq!(chain.max_orphan_height(), highest);
}

#[test]
fn linear_append_reaches_the_last_block() {
    let t = tree();
    let mut chain = fresh();
    assert_eq!(chain.height(), 0);
    assert_eq!(chain.canonical_tip(), TestBlock::genesis());
    for b in [&t.a, &t.b, &t.c, &t.d, &t.e, &t.f, &t.g] {
        chain.append_block(b.clone()).unwrap();
        assert_eq!(chain.canonical_tip(), *b);
        assert_eq!(chain.height(), b.height);
        check_invariants(&chain, &t.all());
    }
    assert_eq!(chain.height(), 7);
    assert_eq!(chain.canonical_tip(), t.g);
    assert_eq!(chain.max_orphan_height(), None);
    assert_eq!(chain.orphan_count(), 0);
}

#[test]
fn disconnected_seed_attaches_once_its_parent_is_canonical() {
    let t = tree();
    let mut chain = fresh();
    chain.append_block(t.e2.clone()).unwrap();
    chain.append_block(t.f2.clone()).unwrap();
    chain.append_block(t.a.clone()).unwrap();
    chain.append_block(t.b.clone()).unwrap();
    assert_eq!(chain.height(), 2);
    assert_eq!(chain.canonical_tip(), t.b);
    assert_eq!(chain.disconnected_head(&t.f2.hash), Some(t.e2.hash));
    assert_eq!(chain.largest_tip(&t.e2.hash), Some((6, t.f2.hash)));
    chain.append_block(t.f.clone()).unwrap();
    chain.append_block(t.g.clone()).unwrap();
    assert_eq!(chain.disconnected_head(&t.g.hash), Some(t.f.hash));
    assert_eq!(chain.height(), 2);
    chain.append_block(t.b1.clone()).unwrap();
    chain.append_block(t.c1.clone()).unwrap();
    assert_eq!(chain.height(), 3);
    assert_eq!(chain.canonical_tip(), t.c1);
    chain.append_block(t.c.clone()).unwrap();
    chain.append_block(t.d.clone()).unwrap();
    assert_eq!(chain.height(), 4);
    assert_eq!(chain.canonical_tip(), t.d);
    chain.append_block(t.e.clone()).unwrap();
    assert_eq!(chain.height(), 7);
    assert_eq!(chain.canonical_tip(), t.g);
    check_invariants(&chain, &t.all());
}

#[test]
fn canonical_chain_switches_to_the_longer_fork() {
    let t = tree();
    let mut chain = fresh();
    for b in [&t.a, &t.b, &t.b1, &t.c1, &t.c2, &t.d2, &t.e2, &t.f2] {
        chain.append_block(b.clone()).unwrap();
        check_invariants(&chain, &t.all());
    }
    assert_eq!(chain.height(), 6);
    assert_eq!(chain.canonical_tip(), t.f2);
    assert!(chain.query(&t.b.hash).is_none());
    assert_eq!(chain.orphan_type(&t.b.hash), Some(OrphanType::ValidChainTip));
    for b in [&t.c, &t.d, &t.e, &t.f, &t.g] {
        chain.append_block(b.clone()).unwrap();
        check_invariants(&chain, &t.all());
    }
    assert_eq!(chain.height(), 7);
    assert_eq!(chain.canonical_tip(), t.g);
    assert_eq!(chain.orphan_type(&t.f2.hash), Some(OrphanType::ValidChainTip));
}

#[test]
fn equal_height_does_not_switch() {
    let t = tree();
    let mut chain = fresh();
    for b in [&t.a, &t.b, &t.c, &t.b1, &t.c1] {
        chain.append_block(b.clone()).unwrap();
    }
    assert_eq!(chain.height(), 3);
    assert_eq!(chain.canonical_tip(), t.c);
    assert!(chain.is_valid_tip(&t.c1.hash));
    chain.append_block(t.d1.clone()).unwrap();
    assert_eq!(chain.height(), 4);
    assert_eq!(chain.canonical_tip(), t.d1);
    check_invariants(&chain, &t.all());
}

#[test]
fn rewind_moves_the_upper_chain_to_the_pool() {
    let t = tree();
    let mut chain = fresh();
    for b in [&t.a, &t.b, &t.c, &t.d, &t.e, &t.f, &t.g] {
        chain.append_block(b.clone()).unwrap();
    }
    assert_eq!(chain.max_orphan_height(), None);
    assert!(chain.query(&t.g.hash).is_some());
    assert_eq!(chain.rewind(&t.b.hash), Ok(()));
    assert_eq!(chain.height(), 2);
    assert_eq!(chain.canonical_tip(), t.b);
    assert_eq!(chain.max_orphan_height(), Some(7));
    assert!(chain.is_valid_tip(&t.g.hash));
    assert_eq!(set_of(chain.valid_tips()), set_of(vec![t.g.hash]));
    assert!(chain.query(&t.a.hash).is_some());
    assert!(chain.query(&t.b.hash).is_some());
    for (i, b) in [&t.g, &t.f, &t.e, &t.d, &t.c].iter().enumerate() {
        assert!(chain.query(&b.hash).is_none());
        assert_eq!(chain.orphan(&b.hash), Some((**b).clone()));
        assert_eq!(chain.inverse_height(b.height, &b.hash), Some(i as u64));
        let expected = if i == 0 {
            OrphanType::ValidChainTip
        } else {
            OrphanType::BelongsToValidChain
        };
        assert_eq!(chain.orphan_type(&b.hash), Some(expected));
    }
    assert_eq!(chain.store().get(&StoreKey::Height), Some(&vec![0, 0, 0, 0, 0, 0, 0, 2]));
    assert_eq!(chain.store().get(&StoreKey::Tip), Some(&t.b.hash.0.to_vec()));
    check_invariants(&chain, &t.all());
}

#[test]
fn rewind_keeps_the_orphans_that_were_there() {
    let t = tree();
    let mut chain = fresh();
    for b in t.all() {
        chain.append_block(b).unwrap();
    }
    assert_eq!(chain.height(), 7);
    assert_eq!(chain.canonical_tip(), t.g);
    for b in [&t.b1, &t.c1, &t.d1, &t.e1, &t.c2, &t.d2, &t.e2, &t.f2, &t.d3] {
        assert!(chain.query(&b.hash).is_none());
    }
    assert_eq!(set_of(chain.valid_tips()), set_of(vec![t.f2.hash, t.e1.hash, t.d3.hash]));
    chain.rewind(&t.b.hash).unwrap();
    assert_eq!(
        set_of(chain.valid_tips()),
        set_of(vec![t.g.hash, t.e1.hash, t.f2.hash, t.d3.hash])
    );
    assert!(chain.query(&t.a.hash).is_some());
    assert!(chain.query(&t.b.hash).is_some());
    assert!(chain.query(&t.c.hash).is_none());
    assert_eq!(chain.orphan_type(&t.b1.hash), Some(OrphanType::BelongsToValidChain));
    assert_eq!(chain.orphan_type(&t.e1.hash), Some(OrphanType::ValidChainTip));
    assert_eq!(chain.orphan_type(&t.c.hash), Some(OrphanType::BelongsToValidChain));
    assert_eq!(chain.orphan_type(&t.g.hash), Some(OrphanType::ValidChainTip));
    check_invariants(&chain, &t.all());
}

#[test]
fn rewind_to_the_tip_changes_nothing() {
    let t = tree();
    let mut chain = fresh();
    for b in [&t.a, &t.b, &t.c] {
        chain.append_block(b.clone()).unwrap();
    }
    assert_eq!(chain.rewind(&t.c.hash), Ok(()));
    assert_eq!(chain.height(), 3);
    assert_eq!(chain.canonical_tip(), t.c);
    assert_eq!(chain.orphan_count(), 0);
    assert_eq!(
        chain.store().get(&StoreKey::Height),
        Some(&vec![0u8, 0, 0, 0, 0, 0, 0, 3])
    );
    assert_eq!(chain.store().get(&StoreKey::Tip), Some(&t.c.hash.0.to_vec()));
}

#[test]
fn rewind_to_an_unknown_block_fails() {
    let t = tree();
    let mut chain = fresh();
    for b in [&t.a, &t.b, &t.c, &t.b1] {
        chain.append_block(b.clone()).unwrap();
    }
    assert_eq!(chain.rewind(&t.g.hash), Err(ChainErr::NoSuchBlock));
    assert_eq!(chain.rewind(&t.b1.hash), Err(ChainErr::NoSuchBlock));
    assert_eq!(chain.height(), 3);
    assert_eq!(chain.canonical_tip(), t.c);
    assert_eq!(chain.orphan_count(), 1);
}

#[test]
fn rewind_and_append_again_gives_the_same_tip() {
    let t = tree();
    let mut chain = fresh();
    for b in [&t.a, &t.b, &t.c, &t.d, &t.e, &t.f, &t.g] {
        chain.append_block(b.clone()).unwrap();
    }
    chain.rewind(&t.c.hash).unwrap();
    assert_eq!(chain.canonical_tip(), t.c);
    assert_eq!(chain.append_block(t.d.clone()), Err(ChainErr::AlreadyInChain));
    let h = block(40, t.g.hash, 8);
    chain.append_block(h.clone()).unwrap();
    assert_eq!(chain.height(), 8);
    assert_eq!(chain.canonical_tip(), h);
    for b in [&t.d, &t.e, &t.f, &t.g] {
        assert!(chain.query(&b.hash).is_some());
    }
    assert_eq!(chain.orphan_count(), 0);
}

#[test]
fn heights_outside_the_window_are_rejected() {
    let mut chain = fresh();
    let mut parent = H256::zero();
    for h in 1..=20u64 {
        let b = block(100 + h, parent, h);
        parent = b.hash;
        chain.append_block(b).unwrap();
    }
    assert_eq!(chain.height(), 20);
    assert_eq!(chain.append_block(block(1, hash_of(900), 9)), Err(ChainErr::BadHeight));
    assert_eq!(chain.append_block(block(2, hash_of(901), 31)), Err(ChainErr::BadHeight));
    assert_eq!(chain.append_block(block(3, hash_of(902), 10)), Ok(()));
    assert_eq!(chain.append_block(block(4, hash_of(903), 30)), Ok(()));
    assert_eq!(chain.height(), 20);
}

#[test]
fn height_zero_is_rejected_on_a_fresh_chain() {
    let mut chain = fresh();
    assert_eq!(chain.append_block(block(1, H256::zero(), 0)), Err(ChainErr::BadHeight));
    assert_eq!(chain.append_block(block(1, H256::zero(), 11)), Err(ChainErr::BadHeight));
    assert_eq!(chain.append_block(block(1, hash_of(5), 10)), Ok(()));
}

#[test]
fn height_must_follow_the_parent() {
    let t = tree();
    let mut chain = fresh();
    assert_eq!(chain.append_block(block(30, H256::zero(), 2)), Err(ChainErr::BadHeight));
    chain.append_block(t.a.clone()).unwrap();
    chain.append_block(t.b.clone()).unwrap();
    chain.append_block(t.c.clone()).unwrap();
    assert_eq!(chain.append_block(block(31, t.a.hash, 3)), Err(ChainErr::BadHeight));
    chain.append_block(t.c1.clone()).unwrap();
    assert_eq!(chain.append_block(block(32, t.c1.hash, 5)), Err(ChainErr::BadHeight));
    assert_eq!(chain.height(), 3);
    assert_eq!(chain.orphan_count(), 1);
}

#[test]
fn known_blocks_are_rejected() {
    let t = tree();
    let mut chain = fresh();
    chain.append_block(t.a.clone()).unwrap();
    chain.append_block(t.c.clone()).unwrap();
    assert_eq!(chain.append_block(t.a.clone()), Err(ChainErr::AlreadyInChain));
    assert_eq!(chain.append_block(t.c.clone()), Err(ChainErr::AlreadyInChain));
    assert_eq!(chain.height(), 1);
    assert_eq!(chain.orphan_count(), 1);
}

#[test]
fn a_block_without_parent_is_rejected() {
    let mut chain = fresh();
    let orphan = Arc::new(TestBlock { hash: hash_of(1), parent_hash: None, height: 1, sealed: false });
    assert_eq!(chain.append_block(orphan), Err(ChainErr::NoParentHash));
    assert_eq!(chain.orphan_count(), 0);
}

#[test]
fn a_full_pool_takes_no_more_orphans() {
    let t = tree();
    let mut chain = fresh();
    for n in 0..100u64 {
        let b = block(1000 + n, hash_of(5000 + n), 5);
        assert_eq!(chain.append_block(b), Ok(()));
    }
    assert_eq!(chain.orphan_count(), 100);
    assert_eq!(
        chain.append_block(block(2000, hash_of(7000), 5)),
        Err(ChainErr::TooManyOrphans)
    );
    assert_eq!(chain.orphan_count(), 100);
    assert_eq!(chain.append_block(t.a.clone()), Ok(()));
    assert_eq!(chain.height(), 1);
}

#[test]
fn a_parent_that_does_not_decode_is_invalid() {
    let mut chain = fresh();
    let a = Arc::new(TestBlock {
        hash: hash_of(1),
        parent_hash: Some(H256::zero()),
        height: 1,
        sealed: true,
    });
    let b = block(2, a.hash, 2);
    chain.append_block(a.clone()).unwrap();
    chain.append_block(b.clone()).unwrap();
    assert_eq!(chain.height(), 2);
    assert!(chain.query(&a.hash).is_none());
    assert_eq!(chain.append_block(block(3, a.hash, 2)), Err(ChainErr::InvalidParent));
    assert_eq!(chain.orphan_count(), 0);
}

#[test]
fn every_order_of_arrival_ends_at_the_same_tip() {
    let t = tree();
    let mut seed: u64 = 0x2545_f491_4f6c_dd1d;
    for _ in 0..200 {
        let mut blocks = t.all();
        for i in (1..blocks.len()).rev() {
            seed ^= seed << 13;
            seed ^= seed >> 7;
            seed ^= seed << 17;
            let j = (seed % (i as u64 + 1)) as usize;
            blocks.swap(i, j);
        }
        let mut chain = fresh();
        for b in blocks {
            chain.append_block(b).unwrap();
            check_invariants(&chain, &t.all());
        }
        assert_eq!(chain.height(), 7);
        assert_eq!(chain.canonical_tip(), t.g);
        assert_eq!(chain.orphan_count(), 9);
    }
}

#[test]
fn siblings_at_one_height_yield_to_the_deeper_one() {
    let t = tree();
    let mut chain = fresh();
    let b2 = block(50, t.a.hash, 2);
    chain.append_block(t.c.clone()).unwrap();
    chain.append_block(t.b.clone()).unwrap();
    chain.append_block(b2.clone()).unwrap();
    assert_eq!(chain.inverse_height(2, &t.b.hash), Some(1));
    assert_eq!(chain.inverse_height(2, &b2.hash), Some(0));
    chain.append_block(t.a.clone()).unwrap();
    assert_eq!(chain.height(), 3);
    assert_eq!(chain.canonical_tip(), t.c);
    assert_eq!(chain.orphan_type(&b2.hash), Some(OrphanType::ValidChainTip));
    assert!(chain.is_valid_tip(&b2.hash));
    check_invariants(&chain, &[t.a.clone(), t.b.clone(), t.c.clone(), b2.clone()]);
}

#[test]
fn orphans_are_not_handed_out_by_query() {
    let t = tree();
    let mut chain = fresh();
    chain.append_block(t.a.clone()).unwrap();
    chain.append_block(t.c.clone()).unwrap();
    assert_eq!(chain.query(&t.a.hash), Some(t.a.clone()));
    assert_eq!(chain.query(&t.c.hash), None);
    assert_eq!(chain.orphan(&t.c.hash), Some(t.c.clone()));
    assert_eq!(chain.query(&H256::zero()), None);
}

#[test]
fn written_blocks_are_laid_out_in_the_store() {
    let t = tree();
    let mut chain = fresh();
    assert_eq!(chain.store().get(&StoreKey::Height), Some(&vec![0u8; 8]));
    assert_eq!(chain.store().get(&StoreKey::Tip), None);
    chain.append_block(t.a.clone()).unwrap();
    chain.append_block(t.b.clone()).unwrap();
    let two = vec![0u8, 0, 0, 0, 0, 0, 0, 2];
    assert_eq!(chain.store().get(&StoreKey::Height), Some(&two));
    assert_eq!(chain.store().get(&StoreKey::Tip), Some(&t.b.hash.0.to_vec()));
    assert_eq!(chain.store().get(&StoreKey::Block(t.b.hash)), Some(&t.b.to_bytes()));
    assert_eq!(chain.store().get(&StoreKey::BlockHeight(t.b.hash)), Some(&two));
    assert_eq!(
        chain.store().get(&StoreKey::BlockHeight(t.a.hash)),
        Some(&vec![0u8, 0, 0, 0, 0, 0, 0, 1])
    );
}

#[test]
fn a_chain_starts_from_what_the_store_names() {
    let t = tree();
    let mut store = Store::new();
    store.put(StoreKey::Block(t.a.hash), t.a.to_bytes());
    store.put(StoreKey::Block(t.b.hash), t.b.to_bytes());
    store.put(StoreKey::Tip, t.b.hash.0.to_vec());
    store.put(StoreKey::Height, vec![0, 0, 0, 0, 0, 0, 0, 2]);
    assert!(Chain::<TestBlock>::loadable(&store));
    let mut chain = Chain::<TestBlock>::new(store);
    assert_eq!(chain.height(), 2);
    assert_eq!(chain.canonical_tip(), t.b);
    chain.append_block(t.c.clone()).unwrap();
    assert_eq!(chain.height(), 3);
    assert_eq!(chain.canonical_tip(), t.c);
}

#[test]
fn a_store_with_a_broken_tip_cannot_be_loaded() {
    let t = tree();
    let mut store = Store::new();
    assert!(Chain::<TestBlock>::loadable(&store));
    store.put(StoreKey::Tip, vec![1, 2, 3]);
    assert!(!Chain::<TestBlock>::loadable(&store));
    store.put(StoreKey::Tip, t.a.hash.0.to_vec());
    assert!(!Chain::<TestBlock>::loadable(&store));
    store.put(StoreKey::Block(t.a.hash), t.a.to_bytes());
    assert!(Chain::<TestBlock>::loadable(&store));
    store.put(StoreKey::Height, vec![1]);
    assert!(!Chain::<TestBlock>::loadable(&store));
}

#[test]
fn genesis_is_the_block_types_genesis() {
    assert_eq!(Chain::<TestBlock>::genesis(), TestBlock::genesis());
}

#[test]
fn cached_query_finds_canonical_blocks_only() {
    let t = tree();
    let mut chain = fresh();
    chain.append_block(t.a.clone()).unwrap();
    chain.append_block(t.b.clone()).unwrap();
    chain.append_block(t.c1.clone()).unwrap();
    let mut reference = ChainRef::new(chain);
    assert_eq!(reference.query(&t.a.hash), Some(t.a.clone()));
    assert_eq!(reference.query(&t.a.hash), Some(t.a.clone()));
    assert_eq!(reference.query(&t.b.hash), Some(t.b.clone()));
    assert_eq!(reference.query(&t.c1.hash), None);
    assert_eq!(reference.query(&t.g.hash), None);
    assert_eq!(reference.chain.height(), 2);
    assert_eq!(reference.append_block(t.c.clone()), Ok(()));
    assert_eq!(reference.append_block(t.c.clone()), Err(ChainErr::AlreadyInChain));
    assert_eq!(reference.query(&t.c.hash), Some(t.c.clone()));
    assert_eq!(reference.chain.height(), 3);
}

#[test]
fn cached_query_survives_more_blocks_than_the_cache_holds() {
    let mut chain = fresh();
    let mut blocks = Vec::new();
    let mut parent = H256::zero();
    for h in 1..=50u64 {
        let b = block(100 + h, parent, h);
        parent = b.hash;
        chain.append_block(b.clone()).unwrap();
        blocks.push(b);
    }
    let mut reference = ChainRef::new(chain);
    for _ in 0..2 {
        for b in &blocks {
            assert_eq!(reference.query(&b.hash), Some(b.clone()));
        }
    }
}

#[test]
fn cached_block_is_still_answered_after_a_rewind() {
    let t = tree();
    let mut chain = fresh();
    for b in [&t.a, &t.b, &t.c] {
        chain.append_block(b.clone()).unwrap();
    }
    let mut reference = ChainRef::new(chain);
    assert_eq!(reference.query(&t.c.hash), Some(t.c.clone()));
    assert_eq!(reference.rewind(&t.a.hash), Ok(()));
    assert_eq!(reference.rewind(&t.g.hash), Err(ChainErr::NoSuchBlock));
    assert_eq!(reference.chain.query(&t.c.hash), None);
    assert_eq!(reference.query(&t.c.hash), Some(t.c.clone()));
    assert_eq!(reference.query(&t.b.hash), None);
}

#[test]
fn resolve_prefers_a_cached_block_with_the_right_hash() {
    let t = tree();
    let mut chain = fresh();
    chain.append_block(t.a.clone()).unwrap();
    let hit = chain::chain_ref::resolve(Some(t.g.clone()), &chain, &t.g.hash);
    assert_eq!(hit, (Some(t.g.clone()), false));
    let wrong = chain::chain_ref::resolve(Some(t.g.clone()), &chain, &t.a.hash);
    assert_eq!(wrong, (Some(t.a.clone()), true));
    let miss = chain::chain_ref::resolve(None, &chain, &t.a.hash);
    assert_eq!(miss, (Some(t.a.clone()), true));
    let none = chain::chain_ref::resolve(None, &chain, &t.b.hash);
    assert_eq!(none, (None, false));
}

#[test]
fn random_trees_with_rewinds_keep_everything_sound() {
    let mut seed: u64 = 0x9e37_79b9_7f4a_7c15;
    let mut next = move |n: usize| -> usize {
        seed ^= seed << 13;
        seed ^= seed >> 7;
        seed ^= seed << 17;
        (seed % n as u64) as usize
    };
    for round in 0..300u64 {
        let mut blocks: Vec<Arc<TestBlock>> = Vec::new();
        for i in 0..(4 + next(24)) {
            let (parent, height) = if blocks.is_empty() || next(8) == 0 {
                (H256::zero(), 1)
            } else {
                let above = &blocks[next(blocks.len())];
                (above.hash, above.height + 1)
            };
            if height <= 9 {
                blocks.push(block(round * 100 + i as u64 + 1, parent, height));
            }
        }
        let mut order = blocks.clone();
        for i in (1..order.len()).rev() {
            order.swap(i, next(i + 1));
        }
        let mut chain = fresh();
        let mut taken: Vec<Arc<TestBlock>> = Vec::new();
        for b in order {
            let before = chain.height();
            assert_eq!(chain.append_block(b.clone()), Ok(()));
            // taking in a block does not lower the height
            assert!(chain.height() >= before);
            taken.push(b);
            check_invariants(&chain, &blocks);
            // no block that was taken in is forgotten
            for t in &taken {
                assert!(chain.query(&t.hash).is_some() || chain.orphan(&t.hash).is_some());
            }
            if next(6) == 0 && chain.height() > 1 {
                let mut target = chain.canonical_tip();
                for _ in 0..(1 + next(chain.height() as usize - 1)) {
                    target = chain.query(&target.parent_hash.unwrap()).unwrap();
                }
                assert_eq!(chain.rewind(&target.hash), Ok(()));
                assert_eq!(chain.canonical_tip(), target);
                check_invariants(&chain, &blocks);
                for t in &taken {
                    assert!(chain.query(&t.hash).is_some() || chain.orphan(&t.hash).is_some());
                }
            }
        }
        let tallest = blocks.iter().map(|b| b.height).max().unwrap();
        assert!(chain.height() <= tallest);
    }
}

#[test]
fn heights_are_found_by_hash_and_blocks_by_height() {
    let t = tree();
    let mut chain = fresh();
    assert_eq!(chain.query_by_height(0), Some(TestBlock::genesis()));
    assert_eq!(chain.query_by_height(1), None);
    for b in [&t.a, &t.b, &t.c, &t.b1] {
        chain.append_block(b.clone()).unwrap();
    }
    assert_eq!(chain.query_by_height(3), Some(t.c.clone()));
    assert_eq!(chain.query_by_height(2), Some(t.b.clone()));
    assert_eq!(chain.query_by_height(1), Some(t.a.clone()));
    assert_eq!(chain.query_by_height(0), None);
    assert_eq!(chain.query_by_height(4), None);
    assert_eq!(chain.block_height(&t.c.hash), Some(3));
    assert_eq!(chain.block_height(&t.a.hash), Some(1));
    assert_eq!(chain.block_height(&t.b1.hash), None);
    assert_eq!(chain.block_height(&t.g.hash), None);
    chain.rewind(&t.a.hash).unwrap();
    assert_eq!(chain.block_height(&t.c.hash), None);
    assert_eq!(chain.query_by_height(2), None);
    assert_eq!(chain.query_by_height(1), Some(t.a.clone()));
}

#[test]
fn a_block_that_lies_about_its_height_is_never_written() {
    let t = tree();
    let mut chain = fresh();
    let liar = block(60, t.a.hash, 5);
    chain.append_block(liar.clone()).unwrap();
    assert_eq!(chain.orphan_type(&liar.hash), Some(OrphanType::DisconnectedTip));
    chain.append_block(t.a.clone()).unwrap();
    assert_eq!(chain.height(), 1);
    assert_eq!(chain.canonical_tip(), t.a);
    assert!(chain.query(&liar.hash).is_none());
    assert!(chain.orphan(&liar.hash).is_some());
    chain.append_block(t.b.clone()).unwrap();
    assert_eq!(chain.height(), 2);
    assert_eq!(chain.canonical_tip().height, chain.height());
}

#[test]
fn a_fork_that_takes_in_a_sub_tree_is_no_valid_tip() {
    let t = tree();
    let mut chain = fresh();
    for b in [&t.a, &t.b, &t.c, &t.c1, &t.b1] {
        chain.append_block(b.clone()).unwrap();
    }
    assert_eq!(chain.height(), 3);
    assert_eq!(chain.canonical_tip(), t.c);
    assert_eq!(chain.orphan_type(&t.c1.hash), Some(OrphanType::ValidChainTip));
    assert_eq!(chain.orphan_type(&t.b1.hash), Some(OrphanType::BelongsToValidChain));
    assert_eq!(chain.valid_tips(), vec![t.c1.hash]);
    assert_eq!(chain.inverse_height(2, &t.b1.hash), Some(1));
    assert_eq!(chain.disconnected_tips(&t.c1.hash), None);
    assert_eq!(chain.disconnected_head(&t.c1.hash), None);
    assert_eq!(chain.largest_tip(&t.c1.hash), None);
    check_invariants(&chain, &t.all());
}

#[test]
fn a_sibling_that_is_not_written_becomes_a_valid_tip() {
    let t = tree();
    let mut chain = fresh();
    let b2 = block(50, t.a.hash, 2);
    for b in [&t.c, &t.b, &b2, &t.a] {
        chain.append_block(b.clone()).unwrap();
    }
    assert_eq!(chain.canonical_tip(), t.c);
    assert_eq!(chain.orphan_type(&b2.hash), Some(OrphanType::ValidChainTip));
    assert_eq!(chain.valid_tips(), vec![b2.hash]);
    assert_eq!(chain.disconnected_head(&b2.hash), None);
    assert_eq!(chain.disconnected_tips(&b2.hash), None);
    assert_eq!(chain.largest_tip(&b2.hash), None);
    check_invariants(&chain, &[t.a.clone(), t.b.clone(), t.c.clone(), b2.clone()]);
}

#[test]
fn a_sibling_with_a_sub_tree_that_is_not_written_takes_its_sub_tree_along() {
    let t = tree();
    let mut chain = fresh();
    let b2 = block(50, t.a.hash, 2);
    let c2 = block(51, b2.hash, 3);
    let d = block(52, t.c.hash, 4);
    for b in [&c2, &t.c, &d, &b2, &t.b, &t.a] {
        chain.append_block(b.clone()).unwrap();
    }
    assert_eq!(chain.height(), 4);
    assert_eq!(chain.canonical_tip(), d);
    assert_eq!(chain.orphan_type(&b2.hash), Some(OrphanType::BelongsToValidChain));
    assert_eq!(chain.orphan_type(&c2.hash), Some(OrphanType::ValidChainTip));
    assert_eq!(chain.valid_tips(), vec![c2.hash]);
    assert_eq!(chain.disconnected_tips(&b2.hash), None);
    assert_eq!(chain.disconnected_head(&c2.hash), None);
    assert_eq!(chain.orphan_type(&t.b.hash), None);
    check_invariants(&chain, &[t.a.clone(), t.b.clone(), t.c.clone(), d, b2, c2]);
}
