use chain::{Block, Chain, OrphanType, Store, H256};
use std::collections::HashSet;
use std::sync::Arc;

/// A block that holds nothing but its place in the tree.
#[derive(Clone, Debug, PartialEq, Eq)]
struct DummyBlock {
    hash: H256,
    parent_hash: H256,
    height: u64,
}

/// Hands out blocks with hashes that differ.
struct Maker {
    nonce: u64,
}

impl Maker {
    fn new() -> Maker {
        Maker { nonce: 0 }
    }

    fn block(&mut self, parent_hash: Option<H256>, height: u64) -> DummyBlock {
        self.nonce += 1;
        let mut bytes = [0u8; 32];
        bytes[0] = 0xb1;
        bytes[24..].copy_from_slice(&self.nonce.to_be_bytes());
        DummyBlock {
            hash: H256(bytes),
            parent_hash: parent_hash.unwrap(),
            height,
        }
    }
}

impl Block for DummyBlock {
    fn genesis() -> Arc<Self> {
        Arc::new(DummyBlock {
            hash: H256::zero(),
            parent_hash: H256::zero(),
            height: 0,
        })
    }

    fn parent_hash(&self) -> Option<H256> {
        Some(self.parent_hash)
    }

    fn block_hash(&self) -> H256 {
        self.hash
    }

    fn height(&self) -> u64 {
        self.height
    }

    fn after_write(_block: Arc<Self>) {}

    fn to_bytes(&self) -> Vec<u8> {
        let mut buf = Vec::new();
        buf.extend_from_slice(&self.height.to_be_bytes());
        buf.extend_from_slice(&self.hash.0);
        buf.extend_from_slice(&self.parent_hash.0);
        buf
    }

    fn from_bytes(bytes: &[u8]) -> Result<Arc<Self>, &'static str> {
        if bytes.len() != 72 {
            return Err("bad length");
        }
        let mut height = [0u8; 8];
        let mut hash = [0u8; 32];
        let mut parent_hash = [0u8; 32];
        height.copy_from_slice(&bytes[..8]);
        hash.copy_from_slice(&bytes[8..40]);
        parent_hash.copy_from_slice(&bytes[40..]);
        Ok(Arc::new(DummyBlock {
            height: u64::from_be_bytes(height),
            hash: H256(hash),
            parent_hash: H256(parent_hash),
        }))
    }
}

fn set_of(hashes: Vec<H256>) -> HashSet<H256> {
    hashes.into_iter().collect()
}

#[test]
#[allow(non_snake_case, unused_mut, unused_variables)]
fn stages_append_test1() {
    let mut maker = Maker::new();
    let mut hard_chain = Chain::<DummyBlock>::new(Store::new());

    let mut A = maker.block(Some(H256::zero()), 1);
    let A = Arc::new(A);

    let mut B = maker.block(Some(A.block_hash()), 2);
    let B = Arc::new(B);

    let mut C = maker.block(Some(B.block_hash()), 3);
    let C = Arc::new(C);

    let mut D = maker.block(Some(C.block_hash()), 4);
    let D = Arc::new(D);

    let mut E = maker.block(Some(D.block_hash()), 5);
    let E = Arc::new(E);

    let mut F = maker.block(Some(E.block_hash()), 6);
    let F = Arc::new(F);

    let mut G = maker.block(Some(F.block_hash()), 7);
    let G = Arc::new(G);

    let mut B_prime = maker.block(Some(A.block_hash()), 2);
    let B_prime = Arc::new(B_prime);

    let mut C_prime = maker.block(Some(B_prime.block_hash()), 3);
    let C_prime = Arc::new(C_prime);

    let mut D_prime = maker.block(Some(C_prime.block_hash()), 4);
    let D_prime = Arc::new(D_prime);

    let mut E_prime = maker.block(Some(D_prime.block_hash()), 5);
    let E_prime = Arc::new(E_prime);

    let mut C_second = maker.block(Some(B_prime.block_hash()), 3);
    let C_second = Arc::new(C_second);

    let mut D_second = maker.block(Some(C_second.block_hash()), 4);
    let D_second = Arc::new(D_second);

    let mut E_second = maker.block(Some(D_second.block_hash()), 5);
    let E_second = Arc::new(E_second);

    let mut F_second = maker.block(Some(E_second.block_hash()), 6);
    let F_second = Arc::new(F_second);

    let mut D_tertiary = maker.block(Some(C_prime.block_hash()), 4);
    let D_tertiary = Arc::new(D_tertiary);

    hard_chain.append_block(E_second.clone()).unwrap();
    hard_chain.append_block(F_second.clone()).unwrap();

    assert_eq!(hard_chain.height(), 0);

    // We should have a disconnected chain of `E''` and `F''`
    // with the tip of `E''` pointing to `F''`.
    assert_eq!(
        hard_chain.disconnected_head(&F_second.block_hash()).unwrap(),
        E_second.block_hash()
    );
    let heads_mapping = hard_chain.disconnected_tips(&E_second.block_hash()).unwrap();
    let (largest_height, largest_tip) = &hard_chain.largest_tip(&E_second.block_hash()).unwrap();
    assert!(heads_mapping.contains(&F_second.block_hash()));
    assert_eq!(*largest_height, F_second.height());
    assert_eq!(largest_tip, &F_second.block_hash());

    hard_chain.append_block(A.clone()).unwrap();
    hard_chain.append_block(B.clone()).unwrap();

    assert_eq!(hard_chain.height(), 2);
    assert_eq!(hard_chain.canonical_tip(), B);

    hard_chain.append_block(F.clone()).unwrap();
    hard_chain.append_block(G.clone()).unwrap();

    assert_eq!(hard_chain.height(), 2);
    assert_eq!(hard_chain.canonical_tip(), B);

    // We should have a disconnected chain of `F` and `G`
    // with the tip of `G` pointing to `F`.
    assert_eq!(
        hard_chain.disconnected_head(&G.block_hash()).unwrap(),
        F.block_hash()
    );
    let heads_mapping = hard_chain.disconnected_tips(&F.block_hash()).unwrap();
    let (largest_height, largest_tip) = &hard_chain.largest_tip(&F.block_hash()).unwrap();
    assert!(heads_mapping.contains(&G.block_hash()));
    assert_eq!(*largest_height, G.height());
    assert_eq!(largest_tip, &G.block_hash());
    assert_eq!(hard_chain.height(), 2);
    assert_eq!(hard_chain.canonical_tip(), B);

    // We now append `B'` and the canonical tip should still be `B`
    hard_chain.append_block(B_prime.clone()).unwrap();

    assert_eq!(hard_chain.height(), 2);
    assert_eq!(hard_chain.canonical_tip(), B);

    hard_chain.append_block(C_prime.clone()).unwrap();

    assert_eq!(hard_chain.height(), 3);
    assert_eq!(hard_chain.canonical_tip(), C_prime);

    hard_chain.append_block(C.clone()).unwrap();
    assert_eq!(hard_chain.height(), 3);
    assert_eq!(hard_chain.canonical_tip(), C_prime);

    hard_chain.append_block(D.clone()).unwrap();

    assert_eq!(hard_chain.height(), 4);
    assert_eq!(hard_chain.canonical_tip(), D);

    // After appending `E` the chain should connect the old tip
    // which is `D` to our previous disconnected chain of `F` -> `G`.
    hard_chain.append_block(E.clone()).unwrap();

    assert_eq!(hard_chain.height(), 7);
    assert_eq!(hard_chain.canonical_tip(), G);
}

#[test]
#[allow(non_snake_case, unused_mut, unused_variables)]
fn stages_append_test2() {
    let mut maker = Maker::new();
    let mut hard_chain = Chain::<DummyBlock>::new(Store::new());

    let mut A = maker.block(Some(H256::zero()), 1);
    let A = Arc::new(A);

    let mut B = maker.block(Some(A.block_hash()), 2);
    let B = Arc::new(B);

    let mut C = maker.block(Some(B.block_hash()), 3);
    let C = Arc::new(C);

    let mut D = maker.block(Some(C.block_hash()), 4);
    let D = Arc::new(D);

    let mut E = maker.block(Some(D.block_hash()), 5);
    let E = Arc::new(E);

    let mut F = maker.block(Some(E.block_hash()), 6);
    let F = Arc::new(F);

    let mut G = maker.block(Some(F.block_hash()), 7);
    let G = Arc::new(G);

    let mut B_prime = maker.block(Some(A.block_hash()), 2);
    let B_prime = Arc::new(B_prime);

    let mut C_prime = maker.block(Some(B_prime.block_hash()), 3);
    let C_prime = Arc::new(C_prime);

    let mut D_prime = maker.block(Some(C_prime.block_hash()), 4);
    let D_prime = Arc::new(D_prime);

    let mut E_prime = maker.block(Some(D_prime.block_hash()), 5);
    let E_prime = Arc::new(E_prime);

    let mut C_second = maker.block(Some(B_prime.block_hash()), 3);
    let C_second = Arc::new(C_second);

    let mut D_second = maker.block(Some(C_second.block_hash()), 4);
    let D_second = Arc::new(D_second);

    let mut E_second = maker.block(Some(D_second.block_hash()), 5);
    let E_second = Arc::new(E_second);

    let mut F_second = maker.block(Some(E_second.block_hash()), 6);
    let F_second = Arc::new(F_second);

    let mut D_tertiary = maker.block(Some(C_prime.block_hash()), 4);
    let D_tertiary = Arc::new(D_tertiary);

    hard_chain.append_block(A.clone()).unwrap();

    assert_eq!(hard_chain.height(), 1);

    hard_chain.append_block(E_second.clone()).unwrap();
    assert_eq!(
        hard_chain.orphan_type(&E_second.block_hash()).unwrap(),
        OrphanType::DisconnectedTip
    );

    hard_chain.append_block(D_second.clone()).unwrap();

    assert_eq!(
        hard_chain.orphan_type(&E_second.block_hash()).unwrap(),
        OrphanType::DisconnectedTip
    );
    assert_eq!(
        hard_chain.orphan_type(&D_second.block_hash()).unwrap(),
        OrphanType::BelongsToDisconnected
    );

    hard_chain.append_block(F_second.clone()).unwrap();

    assert_eq!(
        hard_chain.orphan_type(&E_second.block_hash()).unwrap(),
        OrphanType::BelongsToDisconnected
    );
    assert_eq!(
        hard_chain.orphan_type(&D_second.block_hash()).unwrap(),
        OrphanType::BelongsToDisconnected
    );
    assert_eq!(
        hard_chain.orphan_type(&F_second.block_hash()).unwrap(),
        OrphanType::DisconnectedTip
    );

    // We should have a disconnected chain of `E''` and `F''`
    // with the tip of `D''` pointing to `F''`.
    assert_eq!(
        hard_chain.disconnected_head(&F_second.block_hash()).unwrap(),
        D_second.block_hash()
    );
    let heads_mapping = hard_chain.disconnected_tips(&D_second.block_hash()).unwrap();
    let (largest_height, largest_tip) = &hard_chain.largest_tip(&D_second.block_hash()).unwrap();
    assert!(heads_mapping.contains(&F_second.block_hash()));
    assert_eq!(*largest_height, F_second.height());
    assert_eq!(largest_tip, &F_second.block_hash());

    assert_eq!(hard_chain.height(), 1);
    assert_eq!(hard_chain.canonical_tip(), A);

    hard_chain.append_block(C.clone()).unwrap();
    hard_chain.append_block(D.clone()).unwrap();
    hard_chain.append_block(F.clone()).unwrap();
    hard_chain.append_block(E.clone()).unwrap();
    hard_chain.append_block(G.clone()).unwrap();

    assert_eq!(
        hard_chain.orphan_type(&C.block_hash()).unwrap(),
        OrphanType::BelongsToDisconnected
    );
    assert_eq!(
        hard_chain.orphan_type(&D.block_hash()).unwrap(),
        OrphanType::BelongsToDisconnected
    );
    assert_eq!(
        hard_chain.orphan_type(&E.block_hash()).unwrap(),
        OrphanType::BelongsToDisconnected
    );
    assert_eq!(
        hard_chain.orphan_type(&F.block_hash()).unwrap(),
        OrphanType::BelongsToDisconnected
    );
    assert_eq!(
        hard_chain.orphan_type(&G.block_hash()).unwrap(),
        OrphanType::DisconnectedTip
    );

    assert_eq!(hard_chain.height(), 1);
    assert_eq!(hard_chain.canonical_tip(), A);

    // We now append `B'` and the canonical tip should be `B'`
    hard_chain.append_block(B_prime.clone()).unwrap();

    assert_eq!(hard_chain.height(), 2);
    assert_eq!(hard_chain.canonical_tip(), B_prime);

    hard_chain.append_block(C_second.clone()).unwrap();

    // The chain should now be pointing to `F''` as being the canonical tip
    assert_eq!(hard_chain.height(), 6);
    assert_eq!(hard_chain.canonical_tip(), F_second);

    // We now append `B` and the chain should switch to `G` as the canonical tip
    hard_chain.append_block(B.clone()).unwrap();

    assert_eq!(hard_chain.height(), 7);
    assert_eq!(hard_chain.canonical_tip(), G);
}

#[test]
#[allow(non_snake_case, unused_mut, unused_variables)]
fn stages_append_test3() {
    let mut maker = Maker::new();
    let mut hard_chain = Chain::<DummyBlock>::new(Store::new());

    let mut A = maker.block(Some(H256::zero()), 1);
    let A = Arc::new(A);

    let mut B = maker.block(Some(A.block_hash()), 2);
    let B = Arc::new(B);

    let mut C = maker.block(Some(B.block_hash()), 3);
    let C = Arc::new(C);

    let mut D = maker.block(Some(C.block_hash()), 4);
    let D = Arc::new(D);

    let mut E = maker.block(Some(D.block_hash()), 5);
    let E = Arc::new(E);

    let mut F = maker.block(Some(E.block_hash()), 6);
    let F = Arc::new(F);

    let mut G = maker.block(Some(F.block_hash()), 7);
    let G = Arc::new(G);

    let mut B_prime = maker.block(Some(A.block_hash()), 2);
    let B_prime = Arc::new(B_prime);

    let mut C_prime = maker.block(Some(B_prime.block_hash()), 3);
    let C_prime = Arc::new(C_prime);

    let mut D_prime = maker.block(Some(C_prime.block_hash()), 4);
    let D_prime = Arc::new(D_prime);

    let mut E_prime = maker.block(Some(D_prime.block_hash()), 5);
    let E_prime = Arc::new(E_prime);

    let mut C_second = maker.block(Some(B_prime.block_hash()), 3);
    let C_second = Arc::new(C_second);

    let mut D_second = maker.block(Some(C_second.block_hash()), 4);
    let D_second = Arc::new(D_second);

    let mut E_second = maker.block(Some(D_second.block_hash()), 5);
    let E_second = Arc::new(E_second);

    let mut F_second = maker.block(Some(E_second.block_hash()), 6);
    let F_second = Arc::new(F_second);

    let mut D_tertiary = maker.block(Some(C_prime.block_hash()), 4);
    let D_tertiary = Arc::new(D_tertiary);

    hard_chain.append_block(C_second.clone()).unwrap();
    let C_second_ih = &hard_chain
        .inverse_height(C_second.height(), &C_second.block_hash())
        .unwrap();

    // Check validations mapping
    assert_eq!(
        hard_chain.orphan_type(&C_second.block_hash()).unwrap(),
        OrphanType::DisconnectedTip
    );

    // Check inverse height
    assert_eq!(*C_second_ih, 0);

    // Check max orphan height
    assert_eq!(hard_chain.max_orphan_height(), Some(3));

    hard_chain.append_block(D_prime.clone()).unwrap();
    let C_second_ih = &hard_chain
        .inverse_height(C_second.height(), &C_second.block_hash())
        .unwrap();
    let D_prime_ih = &hard_chain.inverse_height(D_prime.height(), &D_prime.block_hash()).unwrap();
    assert_eq!(
        hard_chain.orphan_type(&C_second.block_hash()).unwrap(),
        OrphanType::DisconnectedTip
    );
    assert_eq!(
        hard_chain.orphan_type(&D_prime.block_hash()).unwrap(),
        OrphanType::DisconnectedTip
    );
    assert_eq!(*C_second_ih, 0);
    assert_eq!(*D_prime_ih, 0);
    assert_eq!(hard_chain.max_orphan_height(), Some(4));

    hard_chain.append_block(F.clone()).unwrap();
    assert_eq!(hard_chain.max_orphan_height(), Some(6));
    hard_chain.append_block(D_second.clone()).unwrap();
    let C_second_ih = &hard_chain
        .inverse_height(C_second.height(), &C_second.block_hash())
        .unwrap();
    let D_prime_ih = &hard_chain.inverse_height(D_prime.height(), &D_prime.block_hash()).unwrap();
    let D_second_ih = &hard_chain
        .inverse_height(D_second.height(), &D_second.block_hash())
        .unwrap();
    let F_ih = &hard_chain.inverse_height(F.height(), &F.block_hash()).unwrap();
    assert_eq!(
        hard_chain.orphan_type(&F.block_hash()).unwrap(),
        OrphanType::DisconnectedTip
    );
    assert_eq!(
        hard_chain.orphan_type(&C_second.block_hash()).unwrap(),
        OrphanType::BelongsToDisconnected
    );
    assert_eq!(
        hard_chain.orphan_type(&D_second.block_hash()).unwrap(),
        OrphanType::DisconnectedTip
    );
    assert_eq!(
        hard_chain.orphan_type(&D_prime.block_hash()).unwrap(),
        OrphanType::DisconnectedTip
    );
    assert_eq!(*C_second_ih, 1);
    assert_eq!(*D_prime_ih, 0);
    assert_eq!(*D_second_ih, 0);
    assert_eq!(*F_ih, 0);
    assert_eq!(hard_chain.max_orphan_height(), Some(6));

    hard_chain.append_block(C_prime.clone()).unwrap();
    let C_second_ih = &hard_chain
        .inverse_height(C_second.height(), &C_second.block_hash())
        .unwrap();
    let C_prime_ih = &hard_chain.inverse_height(C_prime.height(), &C_prime.block_hash()).unwrap();
    let D_prime_ih = &hard_chain.inverse_height(D_prime.height(), &D_prime.block_hash()).unwrap();
    let D_second_ih = &hard_chain
        .inverse_height(D_second.height(), &D_second.block_hash())
        .unwrap();
    let F_ih = &hard_chain.inverse_height(F.height(), &F.block_hash()).unwrap();
    assert_eq!(
        hard_chain.orphan_type(&F.block_hash()).unwrap(),
        OrphanType::DisconnectedTip
    );
    assert_eq!(
        hard_chain.orphan_type(&C_second.block_hash()).unwrap(),
        OrphanType::BelongsToDisconnected
    );
    assert_eq!(
        hard_chain.orphan_type(&D_second.block_hash()).unwrap(),
        OrphanType::DisconnectedTip
    );
    assert_eq!(
        hard_chain.orphan_type(&C_prime.block_hash()).unwrap(),
        OrphanType::BelongsToDisconnected
    );
    assert_eq!(
        hard_chain.orphan_type(&D_prime.block_hash()).unwrap(),
        OrphanType::DisconnectedTip
    );
    assert_eq!(hard_chain.max_orphan_height(), Some(6));

    assert_eq!(*C_second_ih, 1);
    assert_eq!(*C_prime_ih, 1);
    assert_eq!(*D_prime_ih, 0);
    assert_eq!(*D_second_ih, 0);
    assert_eq!(*F_ih, 0);

    hard_chain.append_block(D.clone()).unwrap();
    let C_second_ih = &hard_chain
        .inverse_height(C_second.height(), &C_second.block_hash())
        .unwrap();
    let C_prime_ih = &hard_chain.inverse_height(C_prime.height(), &C_prime.block_hash()).unwrap();
    let D_prime_ih = &hard_chain.inverse_height(D_prime.height(), &D_prime.block_hash()).unwrap();
    let D_second_ih = &hard_chain
        .inverse_height(D_second.height(), &D_second.block_hash())
        .unwrap();
    let F_ih = &hard_chain.inverse_height(F.height(), &F.block_hash()).unwrap();
    let D_ih = &hard_chain.inverse_height(D.height(), &D.block_hash()).unwrap();
    assert_eq!(
        hard_chain.orphan_type(&C_second.block_hash()).unwrap(),
        OrphanType::BelongsToDisconnected
    );
    assert_eq!(
        hard_chain.orphan_type(&D_second.block_hash()).unwrap(),
        OrphanType::DisconnectedTip
    );
    assert_eq!(
        hard_chain.orphan_type(&C_prime.block_hash()).unwrap(),
        OrphanType::BelongsToDisconnected
    );
    assert_eq!(
        hard_chain.orphan_type(&D_prime.block_hash()).unwrap(),
        OrphanType::DisconnectedTip
    );
    assert_eq!(
        hard_chain.orphan_type(&D.block_hash()).unwrap(),
        OrphanType::DisconnectedTip
    );
    assert_eq!(
        hard_chain.orphan_type(&F.block_hash()).unwrap(),
        OrphanType::DisconnectedTip
    );
    assert_eq!(hard_chain.max_orphan_height(), Some(6));

    assert_eq!(*C_second_ih, 1);
    assert_eq!(*C_prime_ih, 1);
    assert_eq!(*D_prime_ih, 0);
    assert_eq!(*D_second_ih, 0);
    assert_eq!(*F_ih, 0);
    assert_eq!(*D_ih, 0);

    hard_chain.append_block(G.clone()).unwrap();
    let C_second_ih = &hard_chain
        .inverse_height(C_second.height(), &C_second.block_hash())
        .unwrap();
    let C_prime_ih = &hard_chain.inverse_height(C_prime.height(), &C_prime.block_hash()).unwrap();
    let D_prime_ih = &hard_chain.inverse_height(D_prime.height(), &D_prime.block_hash()).unwrap();
    let D_second_ih = &hard_chain
        .inverse_height(D_second.height(), &D_second.block_hash())
        .unwrap();
    let G_ih = &hard_chain.inverse_height(G.height(), &G.block_hash()).unwrap();
    let F_ih = &hard_chain.inverse_height(F.height(), &F.block_hash()).unwrap();
    let D_ih = &hard_chain.inverse_height(D.height(), &D.block_hash()).unwrap();
    assert_eq!(
        hard_chain.orphan_type(&C_second.block_hash()).unwrap(),
        OrphanType::BelongsToDisconnected
    );
    assert_eq!(
        hard_chain.orphan_type(&D_second.block_hash()).unwrap(),
        OrphanType::DisconnectedTip
    );
    assert_eq!(
        hard_chain.orphan_type(&C_prime.block_hash()).unwrap(),
        OrphanType::BelongsToDisconnected
    );
    assert_eq!(
        hard_chain.orphan_type(&D_prime.block_hash()).unwrap(),
        OrphanType::DisconnectedTip
    );
    assert_eq!(
        hard_chain.orphan_type(&D.block_hash()).unwrap(),
        OrphanType::DisconnectedTip
    );
    assert_eq!(
        hard_chain.orphan_type(&F.block_hash()).unwrap(),
        OrphanType::BelongsToDisconnected
    );
    assert_eq!(
        hard_chain.orphan_type(&G.block_hash()).unwrap(),
        OrphanType::DisconnectedTip
    );
    assert_eq!(hard_chain.max_orphan_height(), Some(7));

    assert_eq!(*C_second_ih, 1);
    assert_eq!(*C_prime_ih, 1);
    assert_eq!(*D_prime_ih, 0);
    assert_eq!(*D_second_ih, 0);
    assert_eq!(*F_ih, 1);
    assert_eq!(*G_ih, 0);
    assert_eq!(*D_ih, 0);

    hard_chain.append_block(B_prime.clone()).unwrap();
    let C_second_ih = &hard_chain
        .inverse_height(C_second.height(), &C_second.block_hash())
        .unwrap();
    let B_prime_ih = &hard_chain.inverse_height(B_prime.height(), &B_prime.block_hash()).unwrap();
    let C_prime_ih = &hard_chain.inverse_height(C_prime.height(), &C_prime.block_hash()).unwrap();
    let D_prime_ih = &hard_chain.inverse_height(D_prime.height(), &D_prime.block_hash()).unwrap();
    let D_second_ih = &hard_chain
        .inverse_height(D_second.height(), &D_second.block_hash())
        .unwrap();
    let G_ih = &hard_chain.inverse_height(G.height(), &G.block_hash()).unwrap();
    let F_ih = &hard_chain.inverse_height(F.height(), &F.block_hash()).unwrap();
    let D_ih = &hard_chain.inverse_height(D.height(), &D.block_hash()).unwrap();
    assert_eq!(
        hard_chain.orphan_type(&C_second.block_hash()).unwrap(),
        OrphanType::BelongsToDisconnected
    );
    assert_eq!(
        hard_chain.orphan_type(&D_second.block_hash()).unwrap(),
        OrphanType::DisconnectedTip
    );
    assert_eq!(
        hard_chain.orphan_type(&B_prime.block_hash()).unwrap(),
        OrphanType::BelongsToDisconnected
    );
    assert_eq!(
        hard_chain.orphan_type(&C_prime.block_hash()).unwrap(),
        OrphanType::BelongsToDisconnected
    );
    assert_eq!(
        hard_chain.orphan_type(&D_prime.block_hash()).unwrap(),
        OrphanType::DisconnectedTip
    );
    assert_eq!(
        hard_chain.orphan_type(&D.block_hash()).unwrap(),
        OrphanType::DisconnectedTip
    );
    assert_eq!(
        hard_chain.orphan_type(&F.block_hash()).unwrap(),
        OrphanType::BelongsToDisconnected
    );
    assert_eq!(
        hard_chain.orphan_type(&G.block_hash()).unwrap(),
        OrphanType::DisconnectedTip
    );
    assert_eq!(hard_chain.max_orphan_height(), Some(7));

    assert_eq!(*C_second_ih, 1);
    assert_eq!(*B_prime_ih, 2);
    assert_eq!(*C_prime_ih, 1);
    assert_eq!(*D_prime_ih, 0);
    assert_eq!(*D_second_ih, 0);
    assert_eq!(*F_ih, 1);
    assert_eq!(*G_ih, 0);
    assert_eq!(*D_ih, 0);

    hard_chain.append_block(D_tertiary.clone()).unwrap();
    let C_second_ih = &hard_chain
        .inverse_height(C_second.height(), &C_second.block_hash())
        .unwrap();
    let B_prime_ih = &hard_chain.inverse_height(B_prime.height(), &B_prime.block_hash()).unwrap();
    let C_prime_ih = &hard_chain.inverse_height(C_prime.height(), &C_prime.block_hash()).unwrap();
    let D_prime_ih = &hard_chain.inverse_height(D_prime.height(), &D_prime.block_hash()).unwrap();
    let D_second_ih = &hard_chain
        .inverse_height(D_second.height(), &D_second.block_hash())
        .unwrap();
    let G_ih = &hard_chain.inverse_height(G.height(), &G.block_hash()).unwrap();
    let F_ih = &hard_chain.inverse_height(F.height(), &F.block_hash()).unwrap();
    let D_ih = &hard_chain.inverse_height(D.height(), &D.block_hash()).unwrap();
    let D_tertiary_ih = &hard_chain
        .inverse_height(D_tertiary.height(), &D_tertiary.block_hash())
        .unwrap();
    assert_eq!(
        hard_chain.orphan_type(&C_second.block_hash()).unwrap(),
        OrphanType::BelongsToDisconnected
    );
    assert_eq!(
        hard_chain.orphan_type(&D_second.block_hash()).unwrap(),
        OrphanType::DisconnectedTip
    );
    assert_eq!(
        hard_chain.orphan_type(&B_prime.block_hash()).unwrap(),
        OrphanType::BelongsToDisconnected
    );
    assert_eq!(
        hard_chain.orphan_type(&C_prime.block_hash()).unwrap(),
        OrphanType::BelongsToDisconnected
    );
    assert_eq!(
        hard_chain.orphan_type(&D_prime.block_hash()).unwrap(),
        OrphanType::DisconnectedTip
    );
    assert_eq!(
        hard_chain.orphan_type(&D.block_hash()).unwrap(),
        OrphanType::DisconnectedTip
    );
    assert_eq!(
        hard_chain.orphan_type(&F.block_hash()).unwrap(),
        OrphanType::BelongsToDisconnected
    );
    assert_eq!(
        hard_chain.orphan_type(&G.block_hash()).unwrap(),
        OrphanType::DisconnectedTip
    );
    assert_eq!(
        hard_chain.orphan_type(&D_tertiary.block_hash()).unwrap(),
        OrphanType::DisconnectedTip
    );
    assert_eq!(hard_chain.max_orphan_height(), Some(7));

    assert_eq!(*C_second_ih, 1);
    assert_eq!(*B_prime_ih, 2);
    assert_eq!(*C_prime_ih, 1);
    assert_eq!(*D_prime_ih, 0);
    assert_eq!(*D_second_ih, 0);
    assert_eq!(*F_ih, 1);
    assert_eq!(*G_ih, 0);
    assert_eq!(*D_ih, 0);
    assert_eq!(*D_tertiary_ih, 0);

    hard_chain.append_block(C.clone()).unwrap();
    let C_second_ih = &hard_chain
        .inverse_height(C_second.height(), &C_second.block_hash())
        .unwrap();
    let B_prime_ih = &hard_chain.inverse_height(B_prime.height(), &B_prime.block_hash()).unwrap();
    let C_prime_ih = &hard_chain.inverse_height(C_prime.height(), &C_prime.block_hash()).unwrap();
    let D_prime_ih = &hard_chain.inverse_height(D_prime.height(), &D_prime.block_hash()).unwrap();
    let D_second_ih = &hard_chain
        .inverse_height(D_second.height(), &D_second.block_hash())
        .unwrap();
    let G_ih = &hard_chain.inverse_height(G.height(), &G.block_hash()).unwrap();
    let F_ih = &hard_chain.inverse_height(F.height(), &F.block_hash()).unwrap();
    let C_ih = &hard_chain.inverse_height(C.height(), &C.block_hash()).unwrap();
    let D_ih = &hard_chain.inverse_height(D.height(), &D.block_hash()).unwrap();
    let D_tertiary_ih = &hard_chain
        .inverse_height(D_tertiary.height(), &D_tertiary.block_hash())
        .unwrap();
    assert_eq!(
        hard_chain.orphan_type(&C_second.block_hash()).unwrap(),
        OrphanType::BelongsToDisconnected
    );
    assert_eq!(
        hard_chain.orphan_type(&D_second.block_hash()).unwrap(),
        OrphanType::DisconnectedTip
    );
    assert_eq!(
        hard_chain.orphan_type(&B_prime.block_hash()).unwrap(),
        OrphanType::BelongsToDisconnected
    );
    assert_eq!(
        hard_chain.orphan_type(&C_prime.block_hash()).unwrap(),
        OrphanType::BelongsToDisconnected
    );
    assert_eq!(
        hard_chain.orphan_type(&D_prime.block_hash()).unwrap(),
        OrphanType::DisconnectedTip
    );
    assert_eq!(
        hard_chain.orphan_type(&C.block_hash()).unwrap(),
        OrphanType::BelongsToDisconnected
    );
    assert_eq!(
        hard_chain.orphan_type(&D.block_hash()).unwrap(),
        OrphanType::DisconnectedTip
    );
    assert_eq!(
        hard_chain.orphan_type(&F.block_hash()).unwrap(),
        OrphanType::BelongsToDisconnected
    );
    assert_eq!(
        hard_chain.orphan_type(&G.block_hash()).unwrap(),
        OrphanType::DisconnectedTip
    );
    assert_eq!(
        hard_chain.orphan_type(&D_tertiary.block_hash()).unwrap(),
        OrphanType::DisconnectedTip
    );
    assert_eq!(hard_chain.max_orphan_height(), Some(7));

    assert_eq!(*C_second_ih, 1);
    assert_eq!(*B_prime_ih, 2);
    assert_eq!(*C_prime_ih, 1);
    assert_eq!(*D_prime_ih, 0);
    assert_eq!(*D_second_ih, 0);
    assert_eq!(*F_ih, 1);
    assert_eq!(*G_ih, 0);
    assert_eq!(*C_ih, 1);
    assert_eq!(*D_ih, 0);
    assert_eq!(*D_tertiary_ih, 0);

    hard_chain.append_block(E_prime.clone()).unwrap();
    let C_second_ih = &hard_chain
        .inverse_height(C_second.height(), &C_second.block_hash())
        .unwrap();
    let B_prime_ih = &hard_chain.inverse_height(B_prime.height(), &B_prime.block_hash()).unwrap();
    let C_prime_ih = &hard_chain.inverse_height(C_prime.height(), &C_prime.block_hash()).unwrap();
    let D_prime_ih = &hard_chain.inverse_height(D_prime.height(), &D_prime.block_hash()).unwrap();
    let E_prime_ih = &hard_chain.inverse_height(E_prime.height(), &E_prime.block_hash()).unwrap();
    let D_second_ih = &hard_chain
        .inverse_height(D_second.height(), &D_second.block_hash())
        .unwrap();
    let G_ih = &hard_chain.inverse_height(G.height(), &G.block_hash()).unwrap();
    let F_ih = &hard_chain.inverse_height(F.height(), &F.block_hash()).unwrap();
    let C_ih = &hard_chain.inverse_height(C.height(), &C.block_hash()).unwrap();
    let D_ih = &hard_chain.inverse_height(D.height(), &D.block_hash()).unwrap();
    let D_tertiary_ih = &hard_chain
        .inverse_height(D_tertiary.height(), &D_tertiary.block_hash())
        .unwrap();
    assert_eq!(
        hard_chain.orphan_type(&C_second.block_hash()).unwrap(),
        OrphanType::BelongsToDisconnected
    );
    assert_eq!(
        hard_chain.orphan_type(&D_second.block_hash()).unwrap(),
        OrphanType::DisconnectedTip
    );
    assert_eq!(
        hard_chain.orphan_type(&B_prime.block_hash()).unwrap(),
        OrphanType::BelongsToDisconnected
    );
    assert_eq!(
        hard_chain.orphan_type(&C_prime.block_hash()).unwrap(),
        OrphanType::BelongsToDisconnected
    );
    assert_eq!(
        hard_chain.orphan_type(&D_prime.block_hash()).unwrap(),
        OrphanType::BelongsToDisconnected
    );
    assert_eq!(
        hard_chain.orphan_type(&E_prime.block_hash()).unwrap(),
        OrphanType::DisconnectedTip
    );
    assert_eq!(
        hard_chain.orphan_type(&C.block_hash()).unwrap(),
        OrphanType::BelongsToDisconnected
    );
    assert_eq!(
        hard_chain.orphan_type(&D.block_hash()).unwrap(),
        OrphanType::DisconnectedTip
    );
    assert_eq!(
        hard_chain.orphan_type(&F.block_hash()).unwrap(),
        OrphanType::BelongsToDisconnected
    );
    assert_eq!(
        hard_chain.orphan_type(&G.block_hash()).unwrap(),
        OrphanType::DisconnectedTip
    );
    assert_eq!(
        hard_chain.orphan_type(&D_tertiary.block_hash()).unwrap(),
        OrphanType::DisconnectedTip
    );
    assert_eq!(hard_chain.max_orphan_height(), Some(7));

    assert_eq!(*C_second_ih, 1);
    assert_eq!(*B_prime_ih, 3);
    assert_eq!(*C_prime_ih, 2);
    assert_eq!(*D_prime_ih, 1);
    assert_eq!(*E_prime_ih, 0);
    assert_eq!(*D_second_ih, 0);
    assert_eq!(*F_ih, 1);
    assert_eq!(*G_ih, 0);
    assert_eq!(*C_ih, 1);
    assert_eq!(*D_ih, 0);
    assert_eq!(*D_tertiary_ih, 0);

    hard_chain.append_block(B.clone()).unwrap();
    let C_second_ih = &hard_chain
        .inverse_height(C_second.height(), &C_second.block_hash())
        .unwrap();
    let B_prime_ih = &hard_chain.inverse_height(B_prime.height(), &B_prime.block_hash()).unwrap();
    let C_prime_ih = &hard_chain.inverse_height(C_prime.height(), &C_prime.block_hash()).unwrap();
    let D_prime_ih = &hard_chain.inverse_height(D_prime.height(), &D_prime.block_hash()).unwrap();
    let E_prime_ih = &hard_chain.inverse_height(E_prime.height(), &E_prime.block_hash()).unwrap();
    let D_second_ih = &hard_chain
        .inverse_height(D_second.height(), &D_second.block_hash())
        .unwrap();
    let G_ih = &hard_chain.inverse_height(G.height(), &G.block_hash()).unwrap();
    let F_ih = &hard_chain.inverse_height(F.height(), &F.block_hash()).unwrap();
    let B_ih = &hard_chain.inverse_height(B.height(), &B.block_hash()).unwrap();
    let C_ih = &hard_chain.inverse_height(C.height(), &C.block_hash()).unwrap();
    let D_ih = &hard_chain.inverse_height(D.height(), &D.block_hash()).unwrap();
    let D_tertiary_ih = &hard_chain
        .inverse_height(D_tertiary.height(), &D_tertiary.block_hash())
        .unwrap();
    assert_eq!(
        hard_chain.orphan_type(&C_second.block_hash()).unwrap(),
        OrphanType::BelongsToDisconnected
    );
    assert_eq!(
        hard_chain.orphan_type(&D_second.block_hash()).unwrap(),
        OrphanType::DisconnectedTip
    );
    assert_eq!(
        hard_chain.orphan_type(&B_prime.block_hash()).unwrap(),
        OrphanType::BelongsToDisconnected
    );
    assert_eq!(
        hard_chain.orphan_type(&C_prime.block_hash()).unwrap(),
        OrphanType::BelongsToDisconnected
    );
    assert_eq!(
        hard_chain.orphan_type(&D_prime.block_hash()).unwrap(),
        OrphanType::BelongsToDisconnected
    );
    assert_eq!(
        hard_chain.orphan_type(&E_prime.block_hash()).unwrap(),
        OrphanType::DisconnectedTip
    );
    assert_eq!(
        hard_chain.orphan_type(&B.block_hash()).unwrap(),
        OrphanType::BelongsToDisconnected
    );
    assert_eq!(
        hard_chain.orphan_type(&C.block_hash()).unwrap(),
        OrphanType::BelongsToDisconnected
    );
    assert_eq!(
        hard_chain.orphan_type(&D.block_hash()).unwrap(),
        OrphanType::DisconnectedTip
    );
    assert_eq!(
        hard_chain.orphan_type(&F.block_hash()).unwrap(),
        OrphanType::BelongsToDisconnected
    );
    assert_eq!(
        hard_chain.orphan_type(&G.block_hash()).unwrap(),
        OrphanType::DisconnectedTip
    );
    assert_eq!(set_of(hard_chain.valid_tips()), HashSet::new());
    assert_eq!(hard_chain.max_orphan_height(), Some(7));

    assert_eq!(*C_second_ih, 1);
    assert_eq!(*B_prime_ih, 3);
    assert_eq!(*C_prime_ih, 2);
    assert_eq!(*D_prime_ih, 1);
    assert_eq!(*E_prime_ih, 0);
    assert_eq!(*D_second_ih, 0);
    assert_eq!(*F_ih, 1);
    assert_eq!(*G_ih, 0);
    assert_eq!(*B_ih, 2);
    assert_eq!(*C_ih, 1);
    assert_eq!(*D_ih, 0);
    assert_eq!(*D_tertiary_ih, 0);

    hard_chain.append_block(A.clone()).unwrap();
    let C_second_ih = &hard_chain
        .inverse_height(C_second.height(), &C_second.block_hash())
        .unwrap();
    let D_second_ih = &hard_chain
        .inverse_height(D_second.height(), &D_second.block_hash())
        .unwrap();
    let G_ih = &hard_chain.inverse_height(G.height(), &G.block_hash()).unwrap();
    let F_ih = &hard_chain.inverse_height(F.height(), &F.block_hash()).unwrap();
    let B_ih = &hard_chain.inverse_height(B.height(), &B.block_hash()).unwrap();
    let C_ih = &hard_chain.inverse_height(C.height(), &C.block_hash()).unwrap();
    let D_ih = &hard_chain.inverse_height(D.height(), &D.block_hash()).unwrap();
    let D_tertiary_ih = &hard_chain
        .inverse_height(D_tertiary.height(), &D_tertiary.block_hash())
        .unwrap();
    assert_eq!(
        hard_chain.orphan_type(&B.block_hash()).unwrap(),
        OrphanType::BelongsToValidChain
    );
    assert_eq!(
        hard_chain.orphan_type(&C.block_hash()).unwrap(),
        OrphanType::BelongsToValidChain
    );
    assert_eq!(
        hard_chain.orphan_type(&D.block_hash()).unwrap(),
        OrphanType::ValidChainTip
    );
    assert_eq!(
        hard_chain.orphan_type(&C_second.block_hash()).unwrap(),
        OrphanType::BelongsToValidChain
    );
    assert_eq!(
        hard_chain.orphan_type(&D_second.block_hash()).unwrap(),
        OrphanType::ValidChainTip
    );
    assert_eq!(
        hard_chain.orphan_type(&F.block_hash()).unwrap(),
        OrphanType::BelongsToDisconnected
    );
    assert_eq!(
        hard_chain.orphan_type(&G.block_hash()).unwrap(),
        OrphanType::DisconnectedTip
    );
    assert_eq!(
        hard_chain.orphan_type(&D_tertiary.block_hash()).unwrap(),
        OrphanType::ValidChainTip
    );
    let mut tips = HashSet::new();
    tips.insert(D.block_hash());
    tips.insert(D_second.block_hash());
    tips.insert(D_tertiary.block_hash());

    assert_eq!(*C_second_ih, 1);
    assert_eq!(*D_second_ih, 0);
    assert_eq!(*F_ih, 1);
    assert_eq!(*G_ih, 0);
    assert_eq!(*B_ih, 2);
    assert_eq!(*C_ih, 1);
    assert_eq!(*D_ih, 0);
    assert_eq!(*D_tertiary_ih, 0);

    assert_eq!(set_of(hard_chain.valid_tips()), tips);
    assert_eq!(hard_chain.height(), 5);
    assert_eq!(hard_chain.canonical_tip(), E_prime);
    assert_eq!(hard_chain.max_orphan_height(), Some(7));

    hard_chain.append_block(E_second.clone()).unwrap();
    let C_second_ih = &hard_chain
        .inverse_height(C_second.height(), &C_second.block_hash())
        .unwrap();
    let D_second_ih = &hard_chain
        .inverse_height(D_second.height(), &D_second.block_hash())
        .unwrap();
    let E_second_ih = &hard_chain
        .inverse_height(E_second.height(), &E_second.block_hash())
        .unwrap();
    let G_ih = &hard_chain.inverse_height(G.height(), &G.block_hash()).unwrap();
    let F_ih = &hard_chain.inverse_height(F.height(), &F.block_hash()).unwrap();
    let B_ih = &hard_chain.inverse_height(B.height(), &B.block_hash()).unwrap();
    let C_ih = &hard_chain.inverse_height(C.height(), &C.block_hash()).unwrap();
    let D_ih = &hard_chain.inverse_height(D.height(), &D.block_hash()).unwrap();
    let D_tertiary_ih = &hard_chain
        .inverse_height(D_tertiary.height(), &D_tertiary.block_hash())
        .unwrap();
    assert_eq!(
        hard_chain.orphan_type(&B.block_hash()).unwrap(),
        OrphanType::BelongsToValidChain
    );
    assert_eq!(
        hard_chain.orphan_type(&C.block_hash()).unwrap(),
        OrphanType::BelongsToValidChain
    );
    assert_eq!(
        hard_chain.orphan_type(&D.block_hash()).unwrap(),
        OrphanType::ValidChainTip
    );
    assert_eq!(
        hard_chain.orphan_type(&F.block_hash()).unwrap(),
        OrphanType::BelongsToDisconnected
    );
    assert_eq!(
        hard_chain.orphan_type(&G.block_hash()).unwrap(),
        OrphanType::DisconnectedTip
    );
    assert_eq!(
        hard_chain.orphan_type(&D_tertiary.block_hash()).unwrap(),
        OrphanType::ValidChainTip
    );
    let mut tips = HashSet::new();
    tips.insert(D.block_hash());
    tips.insert(E_second.block_hash());
    tips.insert(D_tertiary.block_hash());

    assert_eq!(*C_second_ih, 2);
    assert_eq!(*D_second_ih, 1);
    assert_eq!(*E_second_ih, 0);
    assert_eq!(*F_ih, 1);
    assert_eq!(*G_ih, 0);
    assert_eq!(*B_ih, 2);
    assert_eq!(*C_ih, 1);
    assert_eq!(*D_ih, 0);
    assert_eq!(*D_tertiary_ih, 0);

    assert_eq!(set_of(hard_chain.valid_tips()), tips);
    assert_eq!(hard_chain.height(), 5);
    assert_eq!(hard_chain.canonical_tip(), E_prime);
    assert_eq!(hard_chain.max_orphan_height(), Some(7));

    hard_chain.append_block(F_second.clone()).unwrap();
    let C_prime_ih = &hard_chain.inverse_height(C_prime.height(), &C_prime.block_hash()).unwrap();
    let D_prime_ih = &hard_chain.inverse_height(D_prime.height(), &D_prime.block_hash()).unwrap();
    let E_prime_ih = &hard_chain.inverse_height(E_prime.height(), &E_prime.block_hash()).unwrap();
    let G_ih = &hard_chain.inverse_height(G.height(), &G.block_hash()).unwrap();
    let F_ih = &hard_chain.inverse_height(F.height(), &F.block_hash()).unwrap();
    let B_ih = &hard_chain.inverse_height(B.height(), &B.block_hash()).unwrap();
    let C_ih = &hard_chain.inverse_height(C.height(), &C.block_hash()).unwrap();
    let D_ih = &hard_chain.inverse_height(D.height(), &D.block_hash()).unwrap();
    let D_tertiary_ih = &hard_chain
        .inverse_height(D_tertiary.height(), &D_tertiary.block_hash())
        .unwrap();
    assert_eq!(
        hard_chain.orphan_type(&C_prime.block_hash()).unwrap(),
        OrphanType::BelongsToValidChain
    );
    assert_eq!(
        hard_chain.orphan_type(&D_prime.block_hash()).unwrap(),
        OrphanType::BelongsToValidChain
    );
    assert_eq!(
        hard_chain.orphan_type(&E_prime.block_hash()).unwrap(),
        OrphanType::ValidChainTip
    );
    assert_eq!(
        hard_chain.orphan_type(&B.block_hash()).unwrap(),
        OrphanType::BelongsToValidChain
    );
    assert_eq!(
        hard_chain.orphan_type(&C.block_hash()).unwrap(),
        OrphanType::BelongsToValidChain
    );
    assert_eq!(
        hard_chain.orphan_type(&D.block_hash()).unwrap(),
        OrphanType::ValidChainTip
    );
    assert_eq!(
        hard_chain.orphan_type(&F.block_hash()).unwrap(),
        OrphanType::BelongsToDisconnected
    );
    assert_eq!(
        hard_chain.orphan_type(&G.block_hash()).unwrap(),
        OrphanType::DisconnectedTip
    );
    assert_eq!(
        hard_chain.orphan_type(&D_tertiary.block_hash()).unwrap(),
        OrphanType::ValidChainTip
    );
    let mut tips = HashSet::new();
    tips.insert(D.block_hash());
    tips.insert(E_prime.block_hash());
    tips.insert(D_tertiary.block_hash());

    assert_eq!(*C_prime_ih, 2);
    assert_eq!(*D_prime_ih, 1);
    assert_eq!(*E_prime_ih, 0);
    assert_eq!(*F_ih, 1);
    assert_eq!(*G_ih, 0);
    assert_eq!(*B_ih, 2);
    assert_eq!(*C_ih, 1);
    assert_eq!(*D_ih, 0);
    assert_eq!(*D_tertiary_ih, 0);

    assert_eq!(set_of(hard_chain.valid_tips()), tips);
    assert_eq!(hard_chain.height(), 6);
    assert_eq!(hard_chain.canonical_tip(), F_second);
    assert_eq!(hard_chain.max_orphan_height(), Some(7));

    hard_chain.append_block(E.clone()).unwrap();
    let C_second_ih = &hard_chain
        .inverse_height(C_second.height(), &C_second.block_hash())
        .unwrap();
    let D_second_ih = &hard_chain
        .inverse_height(D_second.height(), &D_second.block_hash())
        .unwrap();
    let E_second_ih = &hard_chain
        .inverse_height(E_second.height(), &E_second.block_hash())
        .unwrap();
    let F_second_ih = &hard_chain
        .inverse_height(F_second.height(), &F_second.block_hash())
        .unwrap();
    let E_prime_ih = &hard_chain.inverse_height(E_prime.height(), &E_prime.block_hash()).unwrap();
    let B_prime_ih = &hard_chain.inverse_height(B_prime.height(), &B_prime.block_hash()).unwrap();
    let C_prime_ih = &hard_chain.inverse_height(C_prime.height(), &C_prime.block_hash()).unwrap();
    let D_prime_ih = &hard_chain.inverse_height(D_prime.height(), &D_prime.block_hash()).unwrap();
    let D_tertiary_ih = &hard_chain
        .inverse_height(D_tertiary.height(), &D_tertiary.block_hash())
        .unwrap();
    assert_eq!(
        hard_chain.orphan_type(&C_second.block_hash()).unwrap(),
        OrphanType::BelongsToValidChain
    );
    assert_eq!(
        hard_chain.orphan_type(&D_second.block_hash()).unwrap(),
        OrphanType::BelongsToValidChain
    );
    assert_eq!(
        hard_chain.orphan_type(&E_second.block_hash()).unwrap(),
        OrphanType::BelongsToValidChain
    );
    assert_eq!(
        hard_chain.orphan_type(&F_second.block_hash()).unwrap(),
        OrphanType::ValidChainTip
    );
    assert_eq!(
        hard_chain.orphan_type(&B_prime.block_hash()).unwrap(),
        OrphanType::BelongsToValidChain
    );
    assert_eq!(
        hard_chain.orphan_type(&C_prime.block_hash()).unwrap(),
        OrphanType::BelongsToValidChain
    );
    assert_eq!(
        hard_chain.orphan_type(&D_prime.block_hash()).unwrap(),
        OrphanType::BelongsToValidChain
    );
    assert_eq!(
        hard_chain.orphan_type(&E_prime.block_hash()).unwrap(),
        OrphanType::ValidChainTip
    );
    assert_eq!(
        hard_chain.orphan_type(&D_tertiary.block_hash()).unwrap(),
        OrphanType::ValidChainTip
    );
    let mut tips = HashSet::new();
    tips.insert(F_second.block_hash());
    tips.insert(E_prime.block_hash());
    tips.insert(D_tertiary.block_hash());

    assert_eq!(*C_second_ih, 3);
    assert_eq!(*D_second_ih, 2);
    assert_eq!(*E_second_ih, 1);
    assert_eq!(*F_second_ih, 0);
    assert_eq!(*C_prime_ih, 2);
    assert_eq!(*D_prime_ih, 1);
    assert_eq!(*E_prime_ih, 0);
    assert_eq!(*B_prime_ih, 4);
    assert_eq!(*D_tertiary_ih, 0);

    assert_eq!(set_of(hard_chain.valid_tips()), tips);
    assert_eq!(hard_chain.height(), 7);
    assert_eq!(hard_chain.canonical_tip(), G);
    assert_eq!(hard_chain.max_orphan_height(), Some(6));
}

#[test]
#[allow(non_snake_case, unused_mut, unused_variables)]
fn stages_append_test4() {
    let mut maker = Maker::new();
    let mut hard_chain = Chain::<DummyBlock>::new(Store::new());

    let mut A = maker.block(Some(H256::zero()), 1);
    let A = Arc::new(A);

    let mut B = maker.block(Some(A.block_hash()), 2);
    let B = Arc::new(B);

    let mut C = maker.block(Some(B.block_hash()), 3);
    let C = Arc::new(C);

    let mut D = maker.block(Some(C.block_hash()), 4);
    let D = Arc::new(D);

    let mut E = maker.block(Some(D.block_hash()), 5);
    let E = Arc::new(E);

    let mut F = maker.block(Some(E.block_hash()), 6);
    let F = Arc::new(F);

    let mut G = maker.block(Some(F.block_hash()), 7);
    let G = Arc::new(G);

    let mut B_prime = maker.block(Some(A.block_hash()), 2);
    let B_prime = Arc::new(B_prime);

    let mut C_prime = maker.block(Some(B_prime.block_hash()), 3);
    let C_prime = Arc::new(C_prime);

    let mut D_prime = maker.block(Some(C_prime.block_hash()), 4);
    let D_prime = Arc::new(D_prime);

    let mut E_prime = maker.block(Some(D_prime.block_hash()), 5);
    let E_prime = Arc::new(E_prime);

    let mut C_second = maker.block(Some(B_prime.block_hash()), 3);
    let C_second = Arc::new(C_second);

    let mut D_second = maker.block(Some(C_second.block_hash()), 4);
    let D_second = Arc::new(D_second);

    let mut E_second = maker.block(Some(D_second.block_hash()), 5);
    let E_second = Arc::new(E_second);

    let mut F_second = maker.block(Some(E_second.block_hash()), 6);
    let F_second = Arc::new(F_second);

    let mut D_tertiary = maker.block(Some(C_prime.block_hash()), 4);
    let D_tertiary = Arc::new(D_tertiary);

    hard_chain.append_block(D_second.clone()).unwrap();
    let D_second_ih = &hard_chain
        .inverse_height(D_second.height(), &D_second.block_hash())
        .unwrap();

    // Check validations mapping
    assert_eq!(
        hard_chain.orphan_type(&D_second.block_hash()).unwrap(),
        OrphanType::DisconnectedTip
    );

    // Check inverse height
    assert_eq!(*D_second_ih, 0);

    // Check max orphan height
    assert_eq!(hard_chain.max_orphan_height(), Some(4));

    // Check disconnected heads mapping
    assert_eq!(
        set_of(hard_chain.disconnected_tips(&D_second.block_hash()).unwrap()),
        set_of(vec![D_second.block_hash()])
    );

    // Check disconnected tips mapping
    assert_eq!(
        hard_chain.disconnected_head(&D_second.block_hash()).unwrap(),
        D_second.block_hash()
    );

    // Check disconnected heads heights mapping
    assert_eq!(
        hard_chain.largest_tip(&D_second.block_hash()).unwrap(),
        (D_second.height(), D_second.block_hash())
    );

    hard_chain.append_block(E_second.clone()).unwrap();
    let D_second_ih = &hard_chain
        .inverse_height(D_second.height(), &D_second.block_hash())
        .unwrap();
    let E_second_ih = &hard_chain
        .inverse_height(E_second.height(), &E_second.block_hash())
        .unwrap();

    // Check validations mapping
    assert_eq!(
        hard_chain.orphan_type(&D_second.block_hash()).unwrap(),
        OrphanType::BelongsToDisconnected
    );
    assert_eq!(
        hard_chain.orphan_type(&E_second.block_hash()).unwrap(),
        OrphanType::DisconnectedTip
    );

    // Check inverse height
    assert_eq!(*D_second_ih, 1);
    assert_eq!(*E_second_ih, 0);

    // Check max orphan height
    assert_eq!(hard_chain.max_orphan_height(), Some(5));

    // Check disconnected heads mapping
    assert_eq!(
        set_of(hard_chain.disconnected_tips(&D_second.block_hash()).unwrap()),
        set_of(vec![E_second.block_hash()])
    );

    // Check disconnected tips mapping
    assert!(hard_chain.disconnected_head(&D_second.block_hash()).is_none());
    assert_eq!(
        hard_chain.disconnected_head(&E_second.block_hash()).unwrap(),
        D_second.block_hash()
    );

    // Check disconnected heads heights mapping
    assert_eq!(
        hard_chain.largest_tip(&D_second.block_hash()).unwrap(),
        (E_second.height(), E_second.block_hash())
    );

    hard_chain.append_block(C_second.clone()).unwrap();
    let C_second_ih = &hard_chain
        .inverse_height(C_second.height(), &C_second.block_hash())
        .unwrap();
    let D_second_ih = &hard_chain
        .inverse_height(D_second.height(), &D_second.block_hash())
        .unwrap();
    let E_second_ih = &hard_chain
        .inverse_height(E_second.height(), &E_second.block_hash())
        .unwrap();

    // Check validations mapping
    assert_eq!(
        hard_chain.orphan_type(&C_second.block_hash()).unwrap(),
        OrphanType::BelongsToDisconnected
    );
    assert_eq!(
        hard_chain.orphan_type(&D_second.block_hash()).unwrap(),
        OrphanType::BelongsToDisconnected
    );
    assert_eq!(
        hard_chain.orphan_type(&E_second.block_hash()).unwrap(),
        OrphanType::DisconnectedTip
    );

    // Check inverse height
    assert_eq!(*C_second_ih, 2);
    assert_eq!(*D_second_ih, 1);
    assert_eq!(*E_second_ih, 0);

    // Check max orphan height
    assert_eq!(hard_chain.max_orphan_height(), Some(5));

    // Check disconnected heads mapping
    assert!(hard_chain.disconnected_tips(&D_second.block_hash()).is_none());
    assert_eq!(
        set_of(hard_chain.disconnected_tips(&C_second.block_hash()).unwrap()),
        set_of(vec![E_second.block_hash()])
    );

    // Check disconnected tips mapping
    assert!(hard_chain.disconnected_head(&D_second.block_hash()).is_none());
    assert!(hard_chain.disconnected_head(&C_second.block_hash()).is_none());
    assert_eq!(
        hard_chain.disconnected_head(&E_second.block_hash()).unwrap(),
        C_second.block_hash()
    );

    // Check disconnected heads heights mapping
    assert!(hard_chain.largest_tip(&D_second.block_hash()).is_none());
    assert_eq!(
        hard_chain.largest_tip(&C_second.block_hash()).unwrap(),
        (E_second.height(), E_second.block_hash())
    );

    hard_chain.append_block(F.clone()).unwrap();
    let C_second_ih = &hard_chain
        .inverse_height(C_second.height(), &C_second.block_hash())
        .unwrap();
    let D_second_ih = &hard_chain
        .inverse_height(D_second.height(), &D_second.block_hash())
        .unwrap();
    let E_second_ih = &hard_chain
        .inverse_height(E_second.height(), &E_second.block_hash())
        .unwrap();
    let F_ih = &hard_chain.inverse_height(F.height(), &F.block_hash()).unwrap();

    // Check validations mapping
    assert_eq!(
        hard_chain.orphan_type(&C_second.block_hash()).unwrap(),
        OrphanType::BelongsToDisconnected
    );
    assert_eq!(
        hard_chain.orphan_type(&D_second.block_hash()).unwrap(),
        OrphanType::BelongsToDisconnected
    );
    assert_eq!(
        hard_chain.orphan_type(&E_second.block_hash()).unwrap(),
        OrphanType::DisconnectedTip
    );
    assert_eq!(
        hard_chain.orphan_type(&F.block_hash()).unwrap(),
        OrphanType::DisconnectedTip
    );

    // Check inverse height
    assert_eq!(*C_second_ih, 2);
    assert_eq!(*D_second_ih, 1);
    assert_eq!(*E_second_ih, 0);
    assert_eq!(*F_ih, 0);

    // Check max orphan height
    assert_eq!(hard_chain.max_orphan_height(), Some(6));

    // Check disconnected heads mapping
    assert!(hard_chain.disconnected_tips(&D_second.block_hash()).is_none());
    assert_eq!(
        set_of(hard_chain.disconnected_tips(&C_second.block_hash()).unwrap()),
        set_of(vec![E_second.block_hash()])
    );
    assert_eq!(
        set_of(hard_chain.disconnected_tips(&F.block_hash()).unwrap()),
        set_of(vec![F.block_hash()])
    );

    // Check disconnected tips mapping
    assert!(hard_chain.disconnected_head(&D_second.block_hash()).is_none());
    assert!(hard_chain.disconnected_head(&C_second.block_hash()).is_none());
    assert_eq!(
        hard_chain.disconnected_head(&E_second.block_hash()).unwrap(),
        C_second.block_hash()
    );
    assert_eq!(
        hard_chain.disconnected_head(&F.block_hash()).unwrap(),
        F.block_hash()
    );

    // Check disconnected heads heights mapping
    assert!(hard_chain.largest_tip(&D_second.block_hash()).is_none());
    assert_eq!(
        hard_chain.largest_tip(&C_second.block_hash()).unwrap(),
        (E_second.height(), E_second.block_hash())
    );
    assert_eq!(
        hard_chain.largest_tip(&F.block_hash()).unwrap(),
        (F.height(), F.block_hash())
    );

    hard_chain.append_block(F_second.clone()).unwrap();
    let C_second_ih = &hard_chain
        .inverse_height(C_second.height(), &C_second.block_hash())
        .unwrap();
    let D_second_ih = &hard_chain
        .inverse_height(D_second.height(), &D_second.block_hash())
        .unwrap();
    let E_second_ih = &hard_chain
        .inverse_height(E_second.height(), &E_second.block_hash())
        .unwrap();
    let F_second_ih = &hard_chain
        .inverse_height(F_second.height(), &F_second.block_hash())
        .unwrap();
    let F_ih = &hard_chain.inverse_height(F.height(), &F.block_hash()).unwrap();

    // Check validations mapping
    assert_eq!(
        hard_chain.orphan_type(&C_second.block_hash()).unwrap(),
        OrphanType::BelongsToDisconnected
    );
    assert_eq!(
        hard_chain.orphan_type(&D_second.block_hash()).unwrap(),
        OrphanType::BelongsToDisconnected
    );
    assert_eq!(
        hard_chain.orphan_type(&E_second.block_hash()).unwrap(),
        OrphanType::BelongsToDisconnected
    );
    assert_eq!(
        hard_chain.orphan_type(&F_second.block_hash()).unwrap(),
        OrphanType::DisconnectedTip
    );
    assert_eq!(
        hard_chain.orphan_type(&F.block_hash()).unwrap(),
        OrphanType::DisconnectedTip
    );

    // Check inverse height
    assert_eq!(*C_second_ih, 3);
    assert_eq!(*D_second_ih, 2);
    assert_eq!(*E_second_ih, 1);
    assert_eq!(*F_second_ih, 0);
    assert_eq!(*F_ih, 0);

    // Check max orphan height
    assert_eq!(hard_chain.max_orphan_height(), Some(6));

    // Check disconnected heads mapping
    assert!(hard_chain.disconnected_tips(&D_second.block_hash()).is_none());
    assert!(hard_chain.disconnected_tips(&E_second.block_hash()).is_none());
    assert!(hard_chain.disconnected_tips(&F_second.block_hash()).is_none());
    assert_eq!(
        set_of(hard_chain.disconnected_tips(&C_second.block_hash()).unwrap()),
        set_of(vec![F_second.block_hash()])
    );
    assert_eq!(
        set_of(hard_chain.disconnected_tips(&F.block_hash()).unwrap()),
        set_of(vec![F.block_hash()])
    );

    // Check disconnected tips mapping
    assert!(hard_chain.disconnected_head(&D_second.block_hash()).is_none());
    assert!(hard_chain.disconnected_head(&C_second.block_hash()).is_none());
    assert!(hard_chain.disconnected_head(&E_second.block_hash()).is_none());
    assert_eq!(
        hard_chain.disconnected_head(&F_second.block_hash()).unwrap(),
        C_second.block_hash()
    );
    assert_eq!(
        hard_chain.disconnected_head(&F.block_hash()).unwrap(),
        F.block_hash()
    );

    // Check disconnected heads heights mapping
    assert!(hard_chain.largest_tip(&D_second.block_hash()).is_none());
    assert!(hard_chain.largest_tip(&E_second.block_hash()).is_none());
    assert!(hard_chain.largest_tip(&F_second.block_hash()).is_none());
    assert_eq!(
        hard_chain.largest_tip(&C_second.block_hash()).unwrap(),
        (F_second.height(), F_second.block_hash())
    );
    assert_eq!(
        hard_chain.largest_tip(&F.block_hash()).unwrap(),
        (F.height(), F.block_hash())
    );

    hard_chain.append_block(C.clone()).unwrap();
    let C_second_ih = &hard_chain
        .inverse_height(C_second.height(), &C_second.block_hash())
        .unwrap();
    let D_second_ih = &hard_chain
        .inverse_height(D_second.height(), &D_second.block_hash())
        .unwrap();
    let E_second_ih = &hard_chain
        .inverse_height(E_second.height(), &E_second.block_hash())
        .unwrap();
    let F_second_ih = &hard_chain
        .inverse_height(F_second.height(), &F_second.block_hash())
        .unwrap();
    let C_ih = &hard_chain.inverse_height(C.height(), &C.block_hash()).unwrap();
    let F_ih = &hard_chain.inverse_height(F.height(), &F.block_hash()).unwrap();

    // Check validations mapping
    assert_eq!(
        hard_chain.orphan_type(&C_second.block_hash()).unwrap(),
        OrphanType::BelongsToDisconnected
    );
    assert_eq!(
        hard_chain.orphan_type(&D_second.block_hash()).unwrap(),
        OrphanType::BelongsToDisconnected
    );
    assert_eq!(
        hard_chain.orphan_type(&E_second.block_hash()).unwrap(),
        OrphanType::BelongsToDisconnected
    );
    assert_eq!(
        hard_chain.orphan_type(&F_second.block_hash()).unwrap(),
        OrphanType::DisconnectedTip
    );
    assert_eq!(
        hard_chain.orphan_type(&C.block_hash()).unwrap(),
        OrphanType::DisconnectedTip
    );
    assert_eq!(
        hard_chain.orphan_type(&F.block_hash()).unwrap(),
        OrphanType::DisconnectedTip
    );

    // Check inverse height
    assert_eq!(*C_second_ih, 3);
    assert_eq!(*D_second_ih, 2);
    assert_eq!(*E_second_ih, 1);
    assert_eq!(*F_second_ih, 0);
    assert_eq!(*C_ih, 0);
    assert_eq!(*F_ih, 0);

    // Check max orphan height
    assert_eq!(hard_chain.max_orphan_height(), Some(6));

    // Check disconnected heads mapping
    assert!(hard_chain.disconnected_tips(&D_second.block_hash()).is_none());
    assert!(hard_chain.disconnected_tips(&E_second.block_hash()).is_none());
    assert!(hard_chain.disconnected_tips(&F_second.block_hash()).is_none());
    assert_eq!(
        set_of(hard_chain.disconnected_tips(&C_second.block_hash()).unwrap()),
        set_of(vec![F_second.block_hash()])
    );
    assert_eq!(
        set_of(hard_chain.disconnected_tips(&C.block_hash()).unwrap()),
        set_of(vec![C.block_hash()])
    );
    assert_eq!(
        set_of(hard_chain.disconnected_tips(&F.block_hash()).unwrap()),
        set_of(vec![F.block_hash()])
    );

    // Check disconnected tips mapping
    assert!(hard_chain.disconnected_head(&D_second.block_hash()).is_none());
    assert!(hard_chain.disconnected_head(&C_second.block_hash()).is_none());
    assert!(hard_chain.disconnected_head(&E_second.block_hash()).is_none());
    assert_eq!(
        hard_chain.disconnected_head(&F_second.block_hash()).unwrap(),
        C_second.block_hash()
    );
    assert_eq!(
        hard_chain.disconnected_head(&F.block_hash()).unwrap(),
        F.block_hash()
    );
    assert_eq!(
        hard_chain.disconnected_head(&C.block_hash()).unwrap(),
        C.block_hash()
    );

    // Check disconnected heads heights mapping
    assert!(hard_chain.largest_tip(&D_second.block_hash()).is_none());
    assert!(hard_chain.largest_tip(&E_second.block_hash()).is_none());
    assert!(hard_chain.largest_tip(&F_second.block_hash()).is_none());
    assert_eq!(
        hard_chain.largest_tip(&C_second.block_hash()).unwrap(),
        (F_second.height(), F_second.block_hash())
    );
    assert_eq!(
        hard_chain.largest_tip(&F.block_hash()).unwrap(),
        (F.height(), F.block_hash())
    );
    assert_eq!(
        hard_chain.largest_tip(&C.block_hash()).unwrap(),
        (C.height(), C.block_hash())
    );

    hard_chain.append_block(D_prime.clone()).unwrap();
    let C_second_ih = &hard_chain
        .inverse_height(C_second.height(), &C_second.block_hash())
        .unwrap();
    let D_second_ih = &hard_chain
        .inverse_height(D_second.height(), &D_second.block_hash())
        .unwrap();
    let E_second_ih = &hard_chain
        .inverse_height(E_second.height(), &E_second.block_hash())
        .unwrap();
    let F_second_ih = &hard_chain
        .inverse_height(F_second.height(), &F_second.block_hash())
        .unwrap();
    let C_ih = &hard_chain.inverse_height(C.height(), &C.block_hash()).unwrap();
    let F_ih = &hard_chain.inverse_height(F.height(), &F.block_hash()).unwrap();
    let D_prime_ih = &hard_chain.inverse_height(D_prime.height(), &D_prime.block_hash()).unwrap();

    // Check validations mapping
    assert_eq!(
        hard_chain.orphan_type(&C_second.block_hash()).unwrap(),
        OrphanType::BelongsToDisconnected
    );
    assert_eq!(
        hard_chain.orphan_type(&D_second.block_hash()).unwrap(),
        OrphanType::BelongsToDisconnected
    );
    assert_eq!(
        hard_chain.orphan_type(&E_second.block_hash()).unwrap(),
        OrphanType::BelongsToDisconnected
    );
    assert_eq!(
        hard_chain.orphan_type(&F_second.block_hash()).unwrap(),
        OrphanType::DisconnectedTip
    );
    assert_eq!(
        hard_chain.orphan_type(&C.block_hash()).unwrap(),
        OrphanType::DisconnectedTip
    );
    assert_eq!(
        hard_chain.orphan_type(&F.block_hash()).unwrap(),
        OrphanType::DisconnectedTip
    );
    assert_eq!(
        hard_chain.orphan_type(&D_prime.block_hash()).unwrap(),
        OrphanType::DisconnectedTip
    );

    // Check inverse height
    assert_eq!(*C_second_ih, 3);
    assert_eq!(*D_second_ih, 2);
    assert_eq!(*E_second_ih, 1);
    assert_eq!(*F_second_ih, 0);
    assert_eq!(*C_ih, 0);
    assert_eq!(*F_ih, 0);
    assert_eq!(*D_prime_ih, 0);

    // Check max orphan height
    assert_eq!(hard_chain.max_orphan_height(), Some(6));

    // Check disconnected heads mapping
    assert!(hard_chain.disconnected_tips(&D_second.block_hash()).is_none());
    assert!(hard_chain.disconnected_tips(&E_second.block_hash()).is_none());
    assert!(hard_chain.disconnected_tips(&F_second.block_hash()).is_none());
    assert_eq!(
        set_of(hard_chain.disconnected_tips(&C_second.block_hash()).unwrap()),
        set_of(vec![F_second.block_hash()])
    );
    assert_eq!(
        set_of(hard_chain.disconnected_tips(&C.block_hash()).unwrap()),
        set_of(vec![C.block_hash()])
    );
    assert_eq!(
        set_of(hard_chain.disconnected_tips(&F.block_hash()).unwrap()),
        set_of(vec![F.block_hash()])
    );
    assert_eq!(
        set_of(hard_chain.disconnected_tips(&D_prime.block_hash()).unwrap()),
        set_of(vec![D_prime.block_hash()])
    );

    // Check disconnected tips mapping
    assert!(hard_chain.disconnected_head(&D_second.block_hash()).is_none());
    assert!(hard_chain.disconnected_head(&C_second.block_hash()).is_none());
    assert!(hard_chain.disconnected_head(&E_second.block_hash()).is_none());
    assert_eq!(
        hard_chain.disconnected_head(&F_second.block_hash()).unwrap(),
        C_second.block_hash()
    );
    assert_eq!(
        hard_chain.disconnected_head(&F.block_hash()).unwrap(),
        F.block_hash()
    );
    assert_eq!(
        hard_chain.disconnected_head(&C.block_hash()).unwrap(),
        C.block_hash()
    );
    assert_eq!(
        hard_chain.disconnected_head(&D_prime.block_hash()).unwrap(),
        D_prime.block_hash()
    );

    // Check disconnected heads heights mapping
    assert!(hard_chain.largest_tip(&D_second.block_hash()).is_none());
    assert!(hard_chain.largest_tip(&E_second.block_hash()).is_none());
    assert!(hard_chain.largest_tip(&F_second.block_hash()).is_none());
    assert_eq!(
        hard_chain.largest_tip(&C_second.block_hash()).unwrap(),
        (F_second.height(), F_second.block_hash())
    );
    assert_eq!(
        hard_chain.largest_tip(&F.block_hash()).unwrap(),
        (F.height(), F.block_hash())
    );
    assert_eq!(
        hard_chain.largest_tip(&C.block_hash()).unwrap(),
        (C.height(), C.block_hash())
    );
    assert_eq!(
        hard_chain.largest_tip(&D_prime.block_hash()).unwrap(),
        (D_prime.height(), D_prime.block_hash())
    );

    hard_chain.append_block(G.clone()).unwrap();
    let C_second_ih = &hard_chain
        .inverse_height(C_second.height(), &C_second.block_hash())
        .unwrap();
    let D_second_ih = &hard_chain
        .inverse_height(D_second.height(), &D_second.block_hash())
        .unwrap();
    let E_second_ih = &hard_chain
        .inverse_height(E_second.height(), &E_second.block_hash())
        .unwrap();
    let F_second_ih = &hard_chain
        .inverse_height(F_second.height(), &F_second.block_hash())
        .unwrap();
    let C_ih = &hard_chain.inverse_height(C.height(), &C.block_hash()).unwrap();
    let F_ih = &hard_chain.inverse_height(F.height(), &F.block_hash()).unwrap();
    let G_ih = &hard_chain.inverse_height(G.height(), &G.block_hash()).unwrap();
    let D_prime_ih = &hard_chain.inverse_height(D_prime.height(), &D_prime.block_hash()).unwrap();

    // Check validations mapping
    assert_eq!(
        hard_chain.orphan_type(&C_second.block_hash()).unwrap(),
        OrphanType::BelongsToDisconnected
    );
    assert_eq!(
        hard_chain.orphan_type(&D_second.block_hash()).unwrap(),
        OrphanType::BelongsToDisconnected
    );
    assert_eq!(
        hard_chain.orphan_type(&E_second.block_hash()).unwrap(),
        OrphanType::BelongsToDisconnected
    );
    assert_eq!(
        hard_chain.orphan_type(&F_second.block_hash()).unwrap(),
        OrphanType::DisconnectedTip
    );
    assert_eq!(
        hard_chain.orphan_type(&C.block_hash()).unwrap(),
        OrphanType::DisconnectedTip
    );
    assert_eq!(
        hard_chain.orphan_type(&F.block_hash()).unwrap(),
        OrphanType::BelongsToDisconnected
    );
    assert_eq!(
        hard_chain.orphan_type(&G.block_hash()).unwrap(),
        OrphanType::DisconnectedTip
    );
    assert_eq!(
        hard_chain.orphan_type(&D_prime.block_hash()).unwrap(),
        OrphanType::DisconnectedTip
    );

    // Check inverse height
    assert_eq!(*C_second_ih, 3);
    assert_eq!(*D_second_ih, 2);
    assert_eq!(*E_second_ih, 1);
    assert_eq!(*F_second_ih, 0);
    assert_eq!(*C_ih, 0);
    assert_eq!(*F_ih, 1);
    assert_eq!(*G_ih, 0);
    assert_eq!(*D_prime_ih, 0);

    // Check disconnected heads mapping
    assert!(hard_chain.disconnected_tips(&D_second.block_hash()).is_none());
    assert!(hard_chain.disconnected_tips(&E_second.block_hash()).is_none());
    assert!(hard_chain.disconnected_tips(&F_second.block_hash()).is_none());
    assert!(hard_chain.disconnected_tips(&G.block_hash()).is_none());
    assert_eq!(
        set_of(hard_chain.disconnected_tips(&C_second.block_hash()).unwrap()),
        set_of(vec![F_second.block_hash()])
    );
    assert_eq!(
        set_of(hard_chain.disconnected_tips(&C.block_hash()).unwrap()),
        set_of(vec![C.block_hash()])
    );
    assert_eq!(
        set_of(hard_chain.disconnected_tips(&F.block_hash()).unwrap()),
        set_of(vec![G.block_hash()])
    );
    assert_eq!(
        set_of(hard_chain.disconnected_tips(&D_prime.block_hash()).unwrap()),
        set_of(vec![D_prime.block_hash()])
    );

    // Check disconnected tips mapping
    assert!(hard_chain.disconnected_head(&D_second.block_hash()).is_none());
    assert!(hard_chain.disconnected_head(&C_second.block_hash()).is_none());
    assert!(hard_chain.disconnected_head(&E_second.block_hash()).is_none());
    assert!(hard_chain.disconnected_head(&F.block_hash()).is_none());
    assert_eq!(
        hard_chain.disconnected_head(&F_second.block_hash()).unwrap(),
        C_second.block_hash()
    );
    assert_eq!(
        hard_chain.disconnected_head(&C.block_hash()).unwrap(),
        C.block_hash()
    );
    assert_eq!(
        hard_chain.disconnected_head(&D_prime.block_hash()).unwrap(),
        D_prime.block_hash()
    );
    assert_eq!(
        hard_chain.disconnected_head(&G.block_hash()).unwrap(),
        F.block_hash()
    );

    // Check disconnected heads heights mapping
    assert!(hard_chain.largest_tip(&D_second.block_hash()).is_none());
    assert!(hard_chain.largest_tip(&E_second.block_hash()).is_none());
    assert!(hard_chain.largest_tip(&F_second.block_hash()).is_none());
    assert_eq!(
        hard_chain.largest_tip(&C_second.block_hash()).unwrap(),
        (F_second.height(), F_second.block_hash())
    );
    assert_eq!(
        hard_chain.largest_tip(&F.block_hash()).unwrap(),
        (G.height(), G.block_hash())
    );
    assert_eq!(
        hard_chain.largest_tip(&C.block_hash()).unwrap(),
        (C.height(), C.block_hash())
    );
    assert_eq!(
        hard_chain.largest_tip(&D_prime.block_hash()).unwrap(),
        (D_prime.height(), D_prime.block_hash())
    );

    hard_chain.append_block(D_tertiary.clone()).unwrap();
    let C_second_ih = &hard_chain
        .inverse_height(C_second.height(), &C_second.block_hash())
        .unwrap();
    let D_second_ih = &hard_chain
        .inverse_height(D_second.height(), &D_second.block_hash())
        .unwrap();
    let E_second_ih = &hard_chain
        .inverse_height(E_second.height(), &E_second.block_hash())
        .unwrap();
    let F_second_ih = &hard_chain
        .inverse_height(F_second.height(), &F_second.block_hash())
        .unwrap();
    let C_ih = &hard_chain.inverse_height(C.height(), &C.block_hash()).unwrap();
    let F_ih = &hard_chain.inverse_height(F.height(), &F.block_hash()).unwrap();
    let G_ih = &hard_chain.inverse_height(G.height(), &G.block_hash()).unwrap();
    let D_prime_ih = &hard_chain.inverse_height(D_prime.height(), &D_prime.block_hash()).unwrap();
    let D_tertiary_ih = &hard_chain
        .inverse_height(D_tertiary.height(), &D_tertiary.block_hash())
        .unwrap();

    // Check validations mapping
    assert_eq!(
        hard_chain.orphan_type(&C_second.block_hash()).unwrap(),
        OrphanType::BelongsToDisconnected
    );
    assert_eq!(
        hard_chain.orphan_type(&D_second.block_hash()).unwrap(),
        OrphanType::BelongsToDisconnected
    );
    assert_eq!(
        hard_chain.orphan_type(&E_second.block_hash()).unwrap(),
        OrphanType::BelongsToDisconnected
    );
    assert_eq!(
        hard_chain.orphan_type(&F_second.block_hash()).unwrap(),
        OrphanType::DisconnectedTip
    );
    assert_eq!(
        hard_chain.orphan_type(&C.block_hash()).unwrap(),
        OrphanType::DisconnectedTip
    );
    assert_eq!(
        hard_chain.orphan_type(&F.block_hash()).unwrap(),
        OrphanType::BelongsToDisconnected
    );
    assert_eq!(
        hard_chain.orphan_type(&G.block_hash()).unwrap(),
        OrphanType::DisconnectedTip
    );
    assert_eq!(
        hard_chain.orphan_type(&D_prime.block_hash()).unwrap(),
        OrphanType::DisconnectedTip
    );
    assert_eq!(
        hard_chain.orphan_type(&D_tertiary.block_hash()).unwrap(),
        OrphanType::DisconnectedTip
    );

    // Check inverse height
    assert_eq!(*C_second_ih, 3);
    assert_eq!(*D_second_ih, 2);
    assert_eq!(*E_second_ih, 1);
    assert_eq!(*F_second_ih, 0);
    assert_eq!(*C_ih, 0);
    assert_eq!(*F_ih, 1);
    assert_eq!(*G_ih, 0);
    assert_eq!(*D_prime_ih, 0);
    assert_eq!(*D_tertiary_ih, 0);

    // Check max orphan height
    assert_eq!(hard_chain.max_orphan_height(), Some(7));

    // Check disconnected heads mapping
    assert!(hard_chain.disconnected_tips(&D_second.block_hash()).is_none());
    assert!(hard_chain.disconnected_tips(&E_second.block_hash()).is_none());
    assert!(hard_chain.disconnected_tips(&F_second.block_hash()).is_none());
    assert!(hard_chain.disconnected_tips(&G.block_hash()).is_none());
    assert_eq!(
        set_of(hard_chain.disconnected_tips(&C_second.block_hash()).unwrap()),
        set_of(vec![F_second.block_hash()])
    );
    assert_eq!(
        set_of(hard_chain.disconnected_tips(&C.block_hash()).unwrap()),
        set_of(vec![C.block_hash()])
    );
    assert_eq!(
        set_of(hard_chain.disconnected_tips(&F.block_hash()).unwrap()),
        set_of(vec![G.block_hash()])
    );
    assert_eq!(
        set_of(hard_chain.disconnected_tips(&D_prime.block_hash()).unwrap()),
        set_of(vec![D_prime.block_hash()])
    );
    assert_eq!(
        set_of(hard_chain.disconnected_tips(&D_tertiary.block_hash()).unwrap()),
        set_of(vec![D_tertiary.block_hash()])
    );

    // Check disconnected tips mapping
    assert!(hard_chain.disconnected_head(&D_second.block_hash()).is_none());
    assert!(hard_chain.disconnected_head(&C_second.block_hash()).is_none());
    assert!(hard_chain.disconnected_head(&E_second.block_hash()).is_none());
    assert!(hard_chain.disconnected_head(&F.block_hash()).is_none());
    assert_eq!(
        hard_chain.disconnected_head(&F_second.block_hash()).unwrap(),
        C_second.block_hash()
    );
    assert_eq!(
        hard_chain.disconnected_head(&C.block_hash()).unwrap(),
        C.block_hash()
    );
    assert_eq!(
        hard_chain.disconnected_head(&D_prime.block_hash()).unwrap(),
        D_prime.block_hash()
    );
    assert_eq!(
        hard_chain.disconnected_head(&G.block_hash()).unwrap(),
        F.block_hash()
    );
    assert_eq!(
        hard_chain.disconnected_head(&D_tertiary.block_hash()).unwrap(),
        D_tertiary.block_hash()
    );

    // Check disconnected heads heights mapping
    assert!(hard_chain.largest_tip(&D_second.block_hash()).is_none());
    assert!(hard_chain.largest_tip(&E_second.block_hash()).is_none());
    assert!(hard_chain.largest_tip(&F_second.block_hash()).is_none());
    assert_eq!(
        hard_chain.largest_tip(&C_second.block_hash()).unwrap(),
        (F_second.height(), F_second.block_hash())
    );
    assert_eq!(
        hard_chain.largest_tip(&F.block_hash()).unwrap(),
        (G.height(), G.block_hash())
    );
    assert_eq!(
        hard_chain.largest_tip(&C.block_hash()).unwrap(),
        (C.height(), C.block_hash())
    );
    assert_eq!(
        hard_chain.largest_tip(&D_prime.block_hash()).unwrap(),
        (D_prime.height(), D_prime.block_hash())
    );
    assert_eq!(
        hard_chain.largest_tip(&D_tertiary.block_hash()).unwrap(),
        (D_tertiary.height(), D_tertiary.block_hash())
    );

    hard_chain.append_block(B_prime.clone()).unwrap();
    let C_second_ih = &hard_chain
        .inverse_height(C_second.height(), &C_second.block_hash())
        .unwrap();
    let D_second_ih = &hard_chain
        .inverse_height(D_second.height(), &D_second.block_hash())
        .unwrap();
    let E_second_ih = &hard_chain
        .inverse_height(E_second.height(), &E_second.block_hash())
        .unwrap();
    let F_second_ih = &hard_chain
        .inverse_height(F_second.height(), &F_second.block_hash())
        .unwrap();
    let C_ih = &hard_chain.inverse_height(C.height(), &C.block_hash()).unwrap();
    let F_ih = &hard_chain.inverse_height(F.height(), &F.block_hash()).unwrap();
    let G_ih = &hard_chain.inverse_height(G.height(), &G.block_hash()).unwrap();
    let B_prime_ih = &hard_chain.inverse_height(B_prime.height(), &B_prime.block_hash()).unwrap();
    let D_prime_ih = &hard_chain.inverse_height(D_prime.height(), &D_prime.block_hash()).unwrap();
    let D_tertiary_ih = &hard_chain
        .inverse_height(D_tertiary.height(), &D_tertiary.block_hash())
        .unwrap();

    // Check validations mapping
    assert_eq!(
        hard_chain.orphan_type(&B_prime.block_hash()).unwrap(),
        OrphanType::BelongsToDisconnected
    );
    assert_eq!(
        hard_chain.orphan_type(&C_second.block_hash()).unwrap(),
        OrphanType::BelongsToDisconnected
    );
    assert_eq!(
        hard_chain.orphan_type(&D_second.block_hash()).unwrap(),
        OrphanType::BelongsToDisconnected
    );
    assert_eq!(
        hard_chain.orphan_type(&E_second.block_hash()).unwrap(),
        OrphanType::BelongsToDisconnected
    );
    assert_eq!(
        hard_chain.orphan_type(&F_second.block_hash()).unwrap(),
        OrphanType::DisconnectedTip
    );
    assert_eq!(
        hard_chain.orphan_type(&C.block_hash()).unwrap(),
        OrphanType::DisconnectedTip
    );
    assert_eq!(
        hard_chain.orphan_type(&F.block_hash()).unwrap(),
        OrphanType::BelongsToDisconnected
    );
    assert_eq!(
        hard_chain.orphan_type(&G.block_hash()).unwrap(),
        OrphanType::DisconnectedTip
    );
    assert_eq!(
        hard_chain.orphan_type(&D_prime.block_hash()).unwrap(),
        OrphanType::DisconnectedTip
    );
    assert_eq!(
        hard_chain.orphan_type(&D_tertiary.block_hash()).unwrap(),
        OrphanType::DisconnectedTip
    );

    // Check inverse height
    assert_eq!(*B_prime_ih, 4);
    assert_eq!(*C_second_ih, 3);
    assert_eq!(*D_second_ih, 2);
    assert_eq!(*E_second_ih, 1);
    assert_eq!(*F_second_ih, 0);
    assert_eq!(*C_ih, 0);
    assert_eq!(*F_ih, 1);
    assert_eq!(*G_ih, 0);
    assert_eq!(*D_prime_ih, 0);
    assert_eq!(*D_tertiary_ih, 0);

    // Check max orphan height
    assert_eq!(hard_chain.max_orphan_height(), Some(7));

    // Check disconnected heads mapping
    assert!(hard_chain.disconnected_tips(&C_second.block_hash()).is_none());
    assert!(hard_chain.disconnected_tips(&D_second.block_hash()).is_none());
    assert!(hard_chain.disconnected_tips(&E_second.block_hash()).is_none());
    assert!(hard_chain.disconnected_tips(&F_second.block_hash()).is_none());
    assert!(hard_chain.disconnected_tips(&G.block_hash()).is_none());
    assert_eq!(
        set_of(hard_chain.disconnected_tips(&B_prime.block_hash()).unwrap()),
        set_of(vec![F_second.block_hash()])
    );
    assert_eq!(
        set_of(hard_chain.disconnected_tips(&C.block_hash()).unwrap()),
        set_of(vec![C.block_hash()])
    );
    assert_eq!(
        set_of(hard_chain.disconnected_tips(&F.block_hash()).unwrap()),
        set_of(vec![G.block_hash()])
    );
    assert_eq!(
        set_of(hard_chain.disconnected_tips(&D_prime.block_hash()).unwrap()),
        set_of(vec![D_prime.block_hash()])
    );
    assert_eq!(
        set_of(hard_chain.disconnected_tips(&D_tertiary.block_hash()).unwrap()),
        set_of(vec![D_tertiary.block_hash()])
    );

    // Check disconnected tips mapping
    assert!(hard_chain.disconnected_head(&D_second.block_hash()).is_none());
    assert!(hard_chain.disconnected_head(&C_second.block_hash()).is_none());
    assert!(hard_chain.disconnected_head(&E_second.block_hash()).is_none());
    assert!(hard_chain.disconnected_head(&F.block_hash()).is_none());
    assert_eq!(
        hard_chain.disconnected_head(&F_second.block_hash()).unwrap(),
        B_prime.block_hash()
    );
    assert_eq!(
        hard_chain.disconnected_head(&C.block_hash()).unwrap(),
        C.block_hash()
    );
    assert_eq!(
        hard_chain.disconnected_head(&D_prime.block_hash()).unwrap(),
        D_prime.block_hash()
    );
    assert_eq!(
        hard_chain.disconnected_head(&G.block_hash()).unwrap(),
        F.block_hash()
    );
    assert_eq!(
        hard_chain.disconnected_head(&D_tertiary.block_hash()).unwrap(),
        D_tertiary.block_hash()
    );

    // Check disconnected heads heights mapping
    assert!(hard_chain.largest_tip(&C_second.block_hash()).is_none());
    assert!(hard_chain.largest_tip(&D_second.block_hash()).is_none());
    assert!(hard_chain.largest_tip(&E_second.block_hash()).is_none());
    assert!(hard_chain.largest_tip(&F_second.block_hash()).is_none());
    assert_eq!(
        hard_chain.largest_tip(&B_prime.block_hash()).unwrap(),
        (F_second.height(), F_second.block_hash())
    );
    assert_eq!(
        hard_chain.largest_tip(&F.block_hash()).unwrap(),
        (G.height(), G.block_hash())
    );
    assert_eq!(
        hard_chain.largest_tip(&C.block_hash()).unwrap(),
        (C.height(), C.block_hash())
    );
    assert_eq!(
        hard_chain.largest_tip(&D_prime.block_hash()).unwrap(),
        (D_prime.height(), D_prime.block_hash())
    );
    assert_eq!(
        hard_chain.largest_tip(&D_tertiary.block_hash()).unwrap(),
        (D_tertiary.height(), D_tertiary.block_hash())
    );

    hard_chain.append_block(C_prime.clone()).unwrap();
    let C_second_ih = &hard_chain
        .inverse_height(C_second.height(), &C_second.block_hash())
        .unwrap();
    let D_second_ih = &hard_chain
        .inverse_height(D_second.height(), &D_second.block_hash())
        .unwrap();
    let E_second_ih = &hard_chain
        .inverse_height(E_second.height(), &E_second.block_hash())
        .unwrap();
    let F_second_ih = &hard_chain
        .inverse_height(F_second.height(), &F_second.block_hash())
        .unwrap();
    let C_ih = &hard_chain.inverse_height(C.height(), &C.block_hash()).unwrap();
    let F_ih = &hard_chain.inverse_height(F.height(), &F.block_hash()).unwrap();
    let G_ih = &hard_chain.inverse_height(G.height(), &G.block_hash()).unwrap();
    let B_prime_ih = &hard_chain.inverse_height(B_prime.height(), &B_prime.block_hash()).unwrap();
    let C_prime_ih = &hard_chain.inverse_height(C_prime.height(), &C_prime.block_hash()).unwrap();
    let D_prime_ih = &hard_chain.inverse_height(D_prime.height(), &D_prime.block_hash()).unwrap();
    let D_tertiary_ih = &hard_chain
        .inverse_height(D_tertiary.height(), &D_tertiary.block_hash())
        .unwrap();

    // Check validations mapping
    assert_eq!(
        hard_chain.orphan_type(&B_prime.block_hash()).unwrap(),
        OrphanType::BelongsToDisconnected
    );
    assert_eq!(
        hard_chain.orphan_type(&C_second.block_hash()).unwrap(),
        OrphanType::BelongsToDisconnected
    );
    assert_eq!(
        hard_chain.orphan_type(&D_second.block_hash()).unwrap(),
        OrphanType::BelongsToDisconnected
    );
    assert_eq!(
        hard_chain.orphan_type(&E_second.block_hash()).unwrap(),
        OrphanType::BelongsToDisconnected
    );
    assert_eq!(
        hard_chain.orphan_type(&F_second.block_hash()).unwrap(),
        OrphanType::DisconnectedTip
    );
    assert_eq!(
        hard_chain.orphan_type(&C.block_hash()).unwrap(),
        OrphanType::DisconnectedTip
    );
    assert_eq!(
        hard_chain.orphan_type(&F.block_hash()).unwrap(),
        OrphanType::BelongsToDisconnected
    );
    assert_eq!(
        hard_chain.orphan_type(&G.block_hash()).unwrap(),
        OrphanType::DisconnectedTip
    );
    assert_eq!(
        hard_chain.orphan_type(&C_prime.block_hash()).unwrap(),
        OrphanType::BelongsToDisconnected
    );
    assert_eq!(
        hard_chain.orphan_type(&D_prime.block_hash()).unwrap(),
        OrphanType::DisconnectedTip
    );
    assert_eq!(
        hard_chain.orphan_type(&D_tertiary.block_hash()).unwrap(),
        OrphanType::DisconnectedTip
    );

    // Check inverse height
    assert_eq!(*B_prime_ih, 4);
    assert_eq!(*C_prime_ih, 1);
    assert_eq!(*D_prime_ih, 0);
    assert_eq!(*C_second_ih, 3);
    assert_eq!(*D_second_ih, 2);
    assert_eq!(*E_second_ih, 1);
    assert_eq!(*F_second_ih, 0);
    assert_eq!(*C_ih, 0);
    assert_eq!(*F_ih, 1);
    assert_eq!(*G_ih, 0);
    assert_eq!(*D_tertiary_ih, 0);

    // Check max orphan height
    assert_eq!(hard_chain.max_orphan_height(), Some(7));

    // Check disconnected heads mapping
    assert!(hard_chain.disconnected_tips(&C_second.block_hash()).is_none());
    assert!(hard_chain.disconnected_tips(&D_second.block_hash()).is_none());
    assert!(hard_chain.disconnected_tips(&E_second.block_hash()).is_none());
    assert!(hard_chain.disconnected_tips(&F_second.block_hash()).is_none());
    assert!(hard_chain.disconnected_tips(&G.block_hash()).is_none());
    assert!(hard_chain.disconnected_tips(&D_prime.block_hash()).is_none());
    assert_eq!(
        set_of(hard_chain.disconnected_tips(&B_prime.block_hash()).unwrap()),
        set_of(vec![
            F_second.block_hash(),
            D_prime.block_hash(),
            D_tertiary.block_hash()
        ])
    );
    assert_eq!(
        set_of(hard_chain.disconnected_tips(&C.block_hash()).unwrap()),
        set_of(vec![C.block_hash()])
    );
    assert_eq!(
        set_of(hard_chain.disconnected_tips(&F.block_hash()).unwrap()),
        set_of(vec![G.block_hash()])
    );

    // Check disconnected tips mapping
    assert!(hard_chain.disconnected_head(&D_second.block_hash()).is_none());
    assert!(hard_chain.disconnected_head(&C_second.block_hash()).is_none());
    assert!(hard_chain.disconnected_head(&E_second.block_hash()).is_none());
    assert!(hard_chain.disconnected_head(&F.block_hash()).is_none());
    assert!(hard_chain.disconnected_head(&C_prime.block_hash()).is_none());
    assert_eq!(
        hard_chain.disconnected_head(&F_second.block_hash()).unwrap(),
        B_prime.block_hash()
    );
    assert_eq!(
        hard_chain.disconnected_head(&C.block_hash()).unwrap(),
        C.block_hash()
    );
    assert_eq!(
        hard_chain.disconnected_head(&D_prime.block_hash()).unwrap(),
        B_prime.block_hash()
    );
    assert_eq!(
        hard_chain.disconnected_head(&G.block_hash()).unwrap(),
        F.block_hash()
    );
    assert_eq!(
        hard_chain.disconnected_head(&D_tertiary.block_hash()).unwrap(),
        B_prime.block_hash()
    );

    // Check disconnected heads heights mapping
    assert!(hard_chain.largest_tip(&C_second.block_hash()).is_none());
    assert!(hard_chain.largest_tip(&D_second.block_hash()).is_none());
    assert!(hard_chain.largest_tip(&E_second.block_hash()).is_none());
    assert!(hard_chain.largest_tip(&F_second.block_hash()).is_none());
    assert!(hard_chain.largest_tip(&D_prime.block_hash()).is_none());
    assert!(hard_chain.largest_tip(&D_tertiary.block_hash()).is_none());
    assert_eq!(
        hard_chain.largest_tip(&B_prime.block_hash()).unwrap(),
        (F_second.height(), F_second.block_hash())
    );
    assert_eq!(
        hard_chain.largest_tip(&F.block_hash()).unwrap(),
        (G.height(), G.block_hash())
    );
    assert_eq!(
        hard_chain.largest_tip(&C.block_hash()).unwrap(),
        (C.height(), C.block_hash())
    );;

    hard_chain.append_block(B.clone()).unwrap();
    let C_second_ih = &hard_chain
        .inverse_height(C_second.height(), &C_second.block_hash())
        .unwrap();
    let D_second_ih = &hard_chain
        .inverse_height(D_second.height(), &D_second.block_hash())
        .unwrap();
    let E_second_ih = &hard_chain
        .inverse_height(E_second.height(), &E_second.block_hash())
        .unwrap();
    let F_second_ih = &hard_chain
        .inverse_height(F_second.height(), &F_second.block_hash())
        .unwrap();
    let B_ih = &hard_chain.inverse_height(B.height(), &B.block_hash()).unwrap();
    let C_ih = &hard_chain.inverse_height(C.height(), &C.block_hash()).unwrap();
    let F_ih = &hard_chain.inverse_height(F.height(), &F.block_hash()).unwrap();
    let G_ih = &hard_chain.inverse_height(G.height(), &G.block_hash()).unwrap();
    let B_prime_ih = &hard_chain.inverse_height(B_prime.height(), &B_prime.block_hash()).unwrap();
    let C_prime_ih = &hard_chain.inverse_height(C_prime.height(), &C_prime.block_hash()).unwrap();
    let D_prime_ih = &hard_chain.inverse_height(D_prime.height(), &D_prime.block_hash()).unwrap();
    let D_tertiary_ih = &hard_chain
        .inverse_height(D_tertiary.height(), &D_tertiary.block_hash())
        .unwrap();

    // Check validations mapping
    assert_eq!(
        hard_chain.orphan_type(&B_prime.block_hash()).unwrap(),
        OrphanType::BelongsToDisconnected
    );
    assert_eq!(
        hard_chain.orphan_type(&C_second.block_hash()).unwrap(),
        OrphanType::BelongsToDisconnected
    );
    assert_eq!(
        hard_chain.orphan_type(&D_second.block_hash()).unwrap(),
        OrphanType::BelongsToDisconnected
    );
    assert_eq!(
        hard_chain.orphan_type(&E_second.block_hash()).unwrap(),
        OrphanType::BelongsToDisconnected
    );
    assert_eq!(
        hard_chain.orphan_type(&F_second.block_hash()).unwrap(),
        OrphanType::DisconnectedTip
    );
    assert_eq!(
        hard_chain.orphan_type(&B.block_hash()).unwrap(),
        OrphanType::BelongsToDisconnected
    );
    assert_eq!(
        hard_chain.orphan_type(&C.block_hash()).unwrap(),
        OrphanType::DisconnectedTip
    );
    assert_eq!(
        hard_chain.orphan_type(&F.block_hash()).unwrap(),
        OrphanType::BelongsToDisconnected
    );
    assert_eq!(
        hard_chain.orphan_type(&G.block_hash()).unwrap(),
        OrphanType::DisconnectedTip
    );
    assert_eq!(
        hard_chain.orphan_type(&C_prime.block_hash()).unwrap(),
        OrphanType::BelongsToDisconnected
    );
    assert_eq!(
        hard_chain.orphan_type(&D_prime.block_hash()).unwrap(),
        OrphanType::DisconnectedTip
    );
    assert_eq!(
        hard_chain.orphan_type(&D_tertiary.block_hash()).unwrap(),
        OrphanType::DisconnectedTip
    );

    // Check inverse height
    assert_eq!(*B_prime_ih, 4);
    assert_eq!(*C_prime_ih, 1);
    assert_eq!(*C_second_ih, 3);
    assert_eq!(*D_second_ih, 2);
    assert_eq!(*E_second_ih, 1);
    assert_eq!(*F_second_ih, 0);
    assert_eq!(*B_ih, 1);
    assert_eq!(*C_ih, 0);
    assert_eq!(*F_ih, 1);
    assert_eq!(*G_ih, 0);
    assert_eq!(*D_prime_ih, 0);
    assert_eq!(*D_tertiary_ih, 0);

    // Check max orphan height
    assert_eq!(hard_chain.max_orphan_height(), Some(7));

    hard_chain.append_block(E.clone()).unwrap();
    let C_second_ih = &hard_chain
        .inverse_height(C_second.height(), &C_second.block_hash())
        .unwrap();
    let D_second_ih = &hard_chain
        .inverse_height(D_second.height(), &D_second.block_hash())
        .unwrap();
    let E_second_ih = &hard_chain
        .inverse_height(E_second.height(), &E_second.block_hash())
        .unwrap();
    let F_second_ih = &hard_chain
        .inverse_height(F_second.height(), &F_second.block_hash())
        .unwrap();
    let B_ih = &hard_chain.inverse_height(B.height(), &B.block_hash()).unwrap();
    let C_ih = &hard_chain.inverse_height(C.height(), &C.block_hash()).unwrap();
    let E_ih = &hard_chain.inverse_height(E.height(), &E.block_hash()).unwrap();
    let F_ih = &hard_chain.inverse_height(F.height(), &F.block_hash()).unwrap();
    let G_ih = &hard_chain.inverse_height(G.height(), &G.block_hash()).unwrap();
    let B_prime_ih = &hard_chain.inverse_height(B_prime.height(), &B_prime.block_hash()).unwrap();
    let C_prime_ih = &hard_chain.inverse_height(C_prime.height(), &C_prime.block_hash()).unwrap();
    let D_prime_ih = &hard_chain.inverse_height(D_prime.height(), &D_prime.block_hash()).unwrap();
    let D_tertiary_ih = &hard_chain
        .inverse_height(D_tertiary.height(), &D_tertiary.block_hash())
        .unwrap();

    // Check validations mapping
    assert_eq!(
        hard_chain.orphan_type(&B_prime.block_hash()).unwrap(),
        OrphanType::BelongsToDisconnected
    );
    assert_eq!(
        hard_chain.orphan_type(&C_second.block_hash()).unwrap(),
        OrphanType::BelongsToDisconnected
    );
    assert_eq!(
        hard_chain.orphan_type(&D_second.block_hash()).unwrap(),
        OrphanType::BelongsToDisconnected
    );
    assert_eq!(
        hard_chain.orphan_type(&E_second.block_hash()).unwrap(),
        OrphanType::BelongsToDisconnected
    );
    assert_eq!(
        hard_chain.orphan_type(&F_second.block_hash()).unwrap(),
        OrphanType::DisconnectedTip
    );
    assert_eq!(
        hard_chain.orphan_type(&B.block_hash()).unwrap(),
        OrphanType::BelongsToDisconnected
    );
    assert_eq!(
        hard_chain.orphan_type(&C.block_hash()).unwrap(),
        OrphanType::DisconnectedTip
    );
    assert_eq!(
        hard_chain.orphan_type(&E.block_hash()).unwrap(),
        OrphanType::BelongsToDisconnected
    );
    assert_eq!(
        hard_chain.orphan_type(&F.block_hash()).unwrap(),
        OrphanType::BelongsToDisconnected
    );
    assert_eq!(
        hard_chain.orphan_type(&G.block_hash()).unwrap(),
        OrphanType::DisconnectedTip
    );
    assert_eq!(
        hard_chain.orphan_type(&C_prime.block_hash()).unwrap(),
        OrphanType::BelongsToDisconnected
    );
    assert_eq!(
        hard_chain.orphan_type(&D_prime.block_hash()).unwrap(),
        OrphanType::DisconnectedTip
    );
    assert_eq!(
        hard_chain.orphan_type(&D_tertiary.block_hash()).unwrap(),
        OrphanType::DisconnectedTip
    );

    // Check inverse height
    assert_eq!(*B_prime_ih, 4);
    assert_eq!(*C_prime_ih, 1);
    assert_eq!(*C_second_ih, 3);
    assert_eq!(*D_second_ih, 2);
    assert_eq!(*E_second_ih, 1);
    assert_eq!(*F_second_ih, 0);
    assert_eq!(*B_ih, 1);
    assert_eq!(*C_ih, 0);
    assert_eq!(*E_ih, 2);
    assert_eq!(*F_ih, 1);
    assert_eq!(*G_ih, 0);
    assert_eq!(*D_prime_ih, 0);
    assert_eq!(*D_tertiary_ih, 0);

    // Check max orphan height
    assert_eq!(hard_chain.max_orphan_height(), Some(7));

    hard_chain.append_block(D.clone()).unwrap();
    let C_second_ih = &hard_chain
        .inverse_height(C_second.height(), &C_second.block_hash())
        .unwrap();
    let D_second_ih = &hard_chain
        .inverse_height(D_second.height(), &D_second.block_hash())
        .unwrap();
    let E_second_ih = &hard_chain
        .inverse_height(E_second.height(), &E_second.block_hash())
        .unwrap();
    let F_second_ih = &hard_chain
        .inverse_height(F_second.height(), &F_second.block_hash())
        .unwrap();
    let B_ih = &hard_chain.inverse_height(B.height(), &B.block_hash()).unwrap();
    let C_ih = &hard_chain.inverse_height(C.height(), &C.block_hash()).unwrap();
    let D_ih = &hard_chain.inverse_height(D.height(), &D.block_hash()).unwrap();
    let E_ih = &hard_chain.inverse_height(E.height(), &E.block_hash()).unwrap();
    let F_ih = &hard_chain.inverse_height(F.height(), &F.block_hash()).unwrap();
    let G_ih = &hard_chain.inverse_height(G.height(), &G.block_hash()).unwrap();
    let B_prime_ih = &hard_chain.inverse_height(B_prime.height(), &B_prime.block_hash()).unwrap();
    let C_prime_ih = &hard_chain.inverse_height(C_prime.height(), &C_prime.block_hash()).unwrap();
    let D_prime_ih = &hard_chain.inverse_height(D_prime.height(), &D_prime.block_hash()).unwrap();
    let D_tertiary_ih = &hard_chain
        .inverse_height(D_tertiary.height(), &D_tertiary.block_hash())
        .unwrap();

    // Check validations mapping
    assert_eq!(
        hard_chain.orphan_type(&B_prime.block_hash()).unwrap(),
        OrphanType::BelongsToDisconnected
    );
    assert_eq!(
        hard_chain.orphan_type(&C_second.block_hash()).unwrap(),
        OrphanType::BelongsToDisconnected
    );
    assert_eq!(
        hard_chain.orphan_type(&D_second.block_hash()).unwrap(),
        OrphanType::BelongsToDisconnected
    );
    assert_eq!(
        hard_chain.orphan_type(&E_second.block_hash()).unwrap(),
        OrphanType::BelongsToDisconnected
    );
    assert_eq!(
        hard_chain.orphan_type(&F_second.block_hash()).unwrap(),
        OrphanType::DisconnectedTip
    );
    assert_eq!(
        hard_chain.orphan_type(&B.block_hash()).unwrap(),
        OrphanType::BelongsToDisconnected
    );
    assert_eq!(
        hard_chain.orphan_type(&C.block_hash()).unwrap(),
        OrphanType::BelongsToDisconnected
    );
    assert_eq!(
        hard_chain.orphan_type(&D.block_hash()).unwrap(),
        OrphanType::BelongsToDisconnected
    );
    assert_eq!(
        hard_chain.orphan_type(&E.block_hash()).unwrap(),
        OrphanType::BelongsToDisconnected
    );
    assert_eq!(
        hard_chain.orphan_type(&F.block_hash()).unwrap(),
        OrphanType::BelongsToDisconnected
    );
    assert_eq!(
        hard_chain.orphan_type(&G.block_hash()).unwrap(),
        OrphanType::DisconnectedTip
    );
    assert_eq!(
        hard_chain.orphan_type(&C_prime.block_hash()).unwrap(),
        OrphanType::BelongsToDisconnected
    );
    assert_eq!(
        hard_chain.orphan_type(&D_prime.block_hash()).unwrap(),
        OrphanType::DisconnectedTip
    );
    assert_eq!(
        hard_chain.orphan_type(&D_tertiary.block_hash()).unwrap(),
        OrphanType::DisconnectedTip
    );

    // Check inverse height
    assert_eq!(*B_prime_ih, 4);
    assert_eq!(*C_prime_ih, 1);
    assert_eq!(*C_second_ih, 3);
    assert_eq!(*D_second_ih, 2);
    assert_eq!(*E_second_ih, 1);
    assert_eq!(*F_second_ih, 0);
    assert_eq!(*E_ih, 2);
    assert_eq!(*F_ih, 1);
    assert_eq!(*G_ih, 0);
    assert_eq!(*D_ih, 3);
    assert_eq!(*C_ih, 4);
    assert_eq!(*B_ih, 5);
    assert_eq!(*D_prime_ih, 0);
    assert_eq!(*D_tertiary_ih, 0);

    // Check max orphan height
    assert_eq!(hard_chain.max_orphan_height(), Some(7));

    hard_chain.append_block(A.clone()).unwrap();
    hard_chain.append_block(E_prime.clone()).unwrap();

    assert_eq!(hard_chain.height(), 7);
    assert_eq!(hard_chain.canonical_tip(), G);
    assert_eq!(hard_chain.max_orphan_height(), Some(6));
}
