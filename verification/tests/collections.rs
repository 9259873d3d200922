use chain::codec::{decode_be_u64, encode_be_u64};
use chain::heights::HeightIndex;
use chain::ordered_map::OrderedMap;
use chain::tip_sets::{members, set_of, TipSets};
use chain::{Store, StoreKey, H256};

fn hash_of(n: u8) -> H256 {
    let mut bytes = [0u8; 32];
    bytes[31] = n;
    H256(bytes)
}

#[test]
fn big_endian_encoding_is_exact() {
    assert_eq!(encode_be_u64(0x0102_0304_0506_0708), vec![1, 2, 3, 4, 5, 6, 7, 8]);
    assert_eq!(encode_be_u64(0), vec![0; 8]);
    assert_eq!(encode_be_u64(u64::MAX), vec![0xff; 8]);
    assert_eq!(decode_be_u64(&[1, 2, 3, 4, 5, 6, 7, 8]), Some(0x0102_0304_0506_0708));
    assert_eq!(decode_be_u64(&[0, 0, 0, 0, 0, 0, 1, 0]), Some(256));
    assert_eq!(decode_be_u64(&[1, 2, 3]), None);
    assert_eq!(decode_be_u64(&[0; 9]), None);
    for v in [0u64, 1, 255, 256, 1 << 40, u64::MAX - 1] {
        assert_eq!(decode_be_u64(&encode_be_u64(v)), Some(v));
    }
}

#[test]
fn hashes_compare_by_their_bytes() {
    assert_eq!(H256::zero(), H256([0; 32]));
    assert_ne!(hash_of(1), hash_of(2));
    assert_eq!(hash_of(3), hash_of(3));
    let mut late = [7u8; 32];
    late[31] = 8;
    assert_ne!(H256([7; 32]), H256(late));
    assert_eq!(hash_of(9).to_vec(), hash_of(9).0.to_vec());
    assert_eq!(H256::from_slice(&hash_of(9).0), Some(hash_of(9)));
    assert_eq!(H256::from_slice(&[1, 2, 3]), None);
    assert_eq!(H256::from_slice(&[0; 33]), None);
}

#[test]
fn ordered_map_keeps_insertion_order() {
    let mut m: OrderedMap<u64> = OrderedMap::new();
    assert!(m.is_empty());
    m.insert(hash_of(1), 10);
    m.insert(hash_of(2), 20);
    m.insert(hash_of(3), 30);
    m.insert(hash_of(2), 21);
    assert_eq!(m.len(), 3);
    assert_eq!(m.get(&hash_of(2)), Some(&21));
    assert_eq!(m.get(&hash_of(4)), None);
    assert_eq!(m.position(&hash_of(3)), Some(2));
    assert_eq!(m.key_at(1), hash_of(2));
    assert_eq!(*m.value_at(0), 10);
    assert_eq!(m.remove(&hash_of(1)), Some(10));
    assert_eq!(m.remove(&hash_of(1)), None);
    assert_eq!(m.len(), 2);
    assert_eq!(m.key_at(0), hash_of(2));
    assert_eq!(m.key_at(1), hash_of(3));
    assert_eq!(m.position(&hash_of(3)), Some(1));
    assert_eq!(m.position(&hash_of(1)), None);
    assert!(!m.contains_key(&hash_of(1)));
    assert!(m.contains_key(&hash_of(3)));
    assert_eq!(m.replace_at(1, 33), 30);
    assert_eq!(m.get(&hash_of(3)), Some(&33));
}

#[test]
fn ordered_map_survives_many_removals() {
    let mut m: OrderedMap<u8> = OrderedMap::new();
    for n in 0..50u8 {
        m.insert(hash_of(n), n);
    }
    for n in (0..50u8).step_by(2) {
        assert_eq!(m.remove(&hash_of(n)), Some(n));
    }
    assert_eq!(m.len(), 25);
    for (i, n) in (1..50u8).step_by(2).enumerate() {
        assert_eq!(m.key_at(i), hash_of(n));
        assert_eq!(m.position(&hash_of(n)), Some(i));
        assert_eq!(m.get(&hash_of(n)), Some(&n));
    }
}

#[test]
fn a_set_of_tips_keeps_the_order_of_its_members() {
    let tips = vec![hash_of(3), hash_of(1), hash_of(2)];
    let mut set = set_of(&tips);
    assert_eq!(members(&set), tips);
    assert!(set.contains_key(&hash_of(1)));
    assert!(!set.contains_key(&hash_of(5)));
    set.insert(hash_of(1), ());
    set.insert(hash_of(7), ());
    assert_eq!(members(&set), vec![hash_of(3), hash_of(1), hash_of(2), hash_of(7)]);
    set.remove(&hash_of(3));
    set.remove(&hash_of(9));
    assert_eq!(members(&set), vec![hash_of(1), hash_of(2), hash_of(7)]);
    assert_eq!(members(&set_of(&Vec::new())), Vec::new());
}

#[test]
fn tip_sets_follow_their_heads() {
    let mut sets = TipSets::new();
    assert_eq!(sets.len(), 0);
    sets.insert_head(hash_of(1), vec![hash_of(1)]);
    sets.insert_head(hash_of(2), vec![]);
    sets.add_tip(&hash_of(1), hash_of(5));
    sets.add_tip(&hash_of(1), hash_of(5));
    sets.add_tip(&hash_of(9), hash_of(5));
    sets.remove_tip(&hash_of(1), &hash_of(1));
    sets.remove_tip(&hash_of(2), &hash_of(1));
    assert_eq!(sets.len(), 2);
    assert_eq!(sets.head_at(0), hash_of(1));
    assert_eq!(sets.head_at(1), hash_of(2));
    assert_eq!(sets.tips(&hash_of(1)), Some(vec![hash_of(5)]));
    assert_eq!(sets.tips(&hash_of(2)), Some(vec![]));
    assert_eq!(sets.tips(&hash_of(9)), None);
    assert!(sets.contains_head(&hash_of(2)));
    assert_eq!(sets.remove_head(&hash_of(1)), Some(vec![hash_of(5)]));
    assert_eq!(sets.remove_head(&hash_of(1)), None);
    assert!(!sets.contains_head(&hash_of(1)));
    assert_eq!(sets.head_at(0), hash_of(2));
}

#[test]
fn height_index_keeps_empty_levels() {
    let mut heights = HeightIndex::new();
    assert!(!heights.has_level(3));
    assert_eq!(heights.level(3), None);
    heights.put(3, hash_of(1), 0);
    heights.put(3, hash_of(2), 4);
    heights.put(5, hash_of(3), 1);
    heights.put(3, hash_of(1), 2);
    assert_eq!(heights.level_len(3), Some(2));
    assert_eq!(heights.level_len(4), None);
    assert_eq!(heights.inverse(3, &hash_of(1)), Some(2));
    assert_eq!(heights.inverse(5, &hash_of(1)), None);
    assert_eq!(heights.inverse(4, &hash_of(1)), None);
    assert_eq!(heights.entry_at(3, 1), (hash_of(2), 4));
    assert_eq!(heights.level(3), Some(vec![(hash_of(1), 2), (hash_of(2), 4)]));
    heights.remove(3, &hash_of(1));
    heights.remove(3, &hash_of(2));
    heights.remove(4, &hash_of(2));
    assert!(heights.has_level(3));
    assert_eq!(heights.level_len(3), Some(0));
    assert_eq!(heights.level(3), Some(vec![]));
    assert_eq!(heights.inverse(5, &hash_of(3)), Some(1));
}

#[test]
fn store_keeps_bytes_by_key() {
    let mut store = Store::new();
    assert!(!store.contains(&StoreKey::Tip));
    store.put(StoreKey::Tip, vec![1]);
    store.put(StoreKey::Height, vec![2]);
    store.put(StoreKey::Block(hash_of(1)), vec![3]);
    store.put(StoreKey::BlockHeight(hash_of(1)), vec![4]);
    store.put(StoreKey::Block(hash_of(1)), vec![5]);
    assert_eq!(store.get(&StoreKey::Tip), Some(&vec![1]));
    assert_eq!(store.get(&StoreKey::Height), Some(&vec![2]));
    assert_eq!(store.get(&StoreKey::Block(hash_of(1))), Some(&vec![5]));
    assert_eq!(store.get(&StoreKey::BlockHeight(hash_of(1))), Some(&vec![4]));
    assert_eq!(store.get(&StoreKey::Block(hash_of(2))), None);
    store.put(StoreKey::Block(hash_of(7)), vec![9]);
    assert_eq!(store.block_hashes(), vec![hash_of(1), hash_of(7)]);
    store.remove(&StoreKey::Block(hash_of(7)));
    store.remove(&StoreKey::Block(hash_of(1)));
    assert_eq!(store.block_hashes(), vec![]);
    store.remove(&StoreKey::Tip);
    assert!(!store.contains(&StoreKey::Block(hash_of(1))));
    assert!(store.contains(&StoreKey::BlockHeight(hash_of(1))));
    assert_eq!(store.get(&StoreKey::Tip), None);
    store.remove(&StoreKey::Height);
    store.remove(&StoreKey::BlockHeight(hash_of(1)));
    assert!(!store.contains(&StoreKey::Height));
    assert!(!store.contains(&StoreKey::BlockHeight(hash_of(1))));
}
